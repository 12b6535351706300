//! Behaviour of the five search strategies over small graphs.

use uninformed_search::dataset::Graph;
use uninformed_search::problem::Problem;
use uninformed_search::problem::SearchResult;

fn problema(testo: &str, inizio: u32, fine: u32) -> Problem {
    let mut g = Graph::new();
    g.load_dataset(&testo.as_bytes().to_vec());
    assert!((inizio as usize) < g.num_stati());
    assert!((fine as usize) < g.num_stati());
    Problem::new(inizio, fine, g)
}

const CATENA: &str = "# Undirected\n0 1\n1 2\n2 3";

#[test]
fn bfs_sulla_catena_trova_profondita_tre() {
    // Chain 0-1-2-3, start 0, goal 3: the found node has state 3, depth 3
    // and cost 0.
    let mut p = problema(CATENA, 0, 3);
    match p.breadth_first_search() {
        SearchResult::Found(nodo) => {
            assert_eq!(nodo.stato, 3);
            assert_eq!(nodo.profondita, 3);
            assert_eq!(nodo.costo_cammino, 0);
        },
        _ => panic!("atteso Found"),
    }
}

#[test]
fn bfs_profondita_minima_sul_rombo() {
    // Two routes of different length: breadth-first returns the minimum
    // number of edges.
    let mut p = problema("# Undirected\n0 1\n1 2\n2 4\n0 3\n3 4", 0, 4);
    match p.breadth_first_search() {
        SearchResult::Found(nodo) => {
            assert_eq!(nodo.profondita, 2);
            assert_eq!(nodo.stato, 4);
        },
        _ => panic!("atteso Found"),
    }
}

#[test]
fn bfs_inizio_uguale_fine() {
    let mut p = problema(CATENA, 2, 2);
    match p.breadth_first_search() {
        SearchResult::Found(nodo) => {
            assert_eq!(nodo.stato, 2);
            assert_eq!(nodo.profondita, 0);
        },
        _ => panic!("atteso Found"),
    }
}

#[test]
fn bfs_fallisce_se_irraggiungibile() {
    let mut p = problema("# Undirected\n0 1\n2 3", 0, 3);
    assert!(matches!(p.breadth_first_search(), SearchResult::Failure));
}

#[test]
fn ricerca_limitata_taglia_e_trova() {
    // On the chain with start 0 and goal 3: limit 2 is a cutoff, limit 3
    // finds the goal at depth 3.
    let mut p = problema(CATENA, 0, 3);
    p.set_limite(2);
    assert!(matches!(p.depth_limited_search(), SearchResult::CutOff));
    p.set_limite(3);
    match p.depth_limited_search() {
        SearchResult::Found(nodo) => {
            assert_eq!(nodo.stato, 3);
            assert_eq!(nodo.profondita, 3);
        },
        _ => panic!("atteso Found"),
    }
}

#[test]
fn ricerca_limitata_fallisce_senza_taglio() {
    // A directed graph whose paths all end before the limit: exhaustion is
    // a failure, not a cutoff.
    let mut p = problema("# Directed\n1 2\n0 1", 2, 0);
    p.set_limite(5);
    assert!(matches!(p.depth_limited_search(), SearchResult::Failure));
}

#[test]
fn approfondimento_concorda_con_bfs() {
    // Iterative deepening finds the same depth breadth-first search does.
    let casi = [
        (CATENA, 0u32, 3u32),
        ("# Undirected\n0 1\n1 2\n2 4\n0 3\n3 4", 0, 4),
        ("# Directed\n0 1\n1 2\n0 2", 0, 2),
    ];
    for (testo, da, a) in casi {
        let mut p1 = problema(testo, da, a);
        let mut p2 = problema(testo, da, a);
        let r1 = p1.breadth_first_search();
        let r2 = p2.iterative_deepening_search();
        match (r1, r2) {
            (SearchResult::Found(n1), SearchResult::Found(n2)) => {
                assert_eq!(n1.profondita, n2.profondita);
            },
            _ => panic!("attesi due Found"),
        }
    }
}

#[test]
fn approfondimento_fallisce_come_bfs() {
    // Unreachable goal, cycles present: both report failure.
    let mut p1 = problema("# Undirected\n0 1\n2 3", 0, 3);
    let mut p2 = problema("# Undirected\n0 1\n2 3", 0, 3);
    assert!(matches!(p1.breadth_first_search(), SearchResult::Failure));
    assert!(matches!(p2.iterative_deepening_search(), SearchResult::Failure));
}

#[test]
fn bidirezionale_inizio_uguale_fine() {
    // Start equal to goal: an immediate result of depth 0 and cost 0.
    let mut p = problema(CATENA, 1, 1);
    match p.bi_directional_search() {
        SearchResult::Found(nodo) => {
            assert_eq!(nodo.stato, 1);
            assert_eq!(nodo.profondita, 0);
            assert_eq!(nodo.costo_cammino, 0);
            assert!(nodo.genitore.is_none());
        },
        _ => panic!("atteso Found"),
    }
}

#[test]
fn bidirezionale_trova_lo_stato_finale() {
    // On the chain the fronts meet at state 1, whose goal-side record has
    // depth 2: the reconstruction folds the counters into the goal-side
    // root, giving depth 2 * 2 + 1 = 5 and the meeting node's cost 0 —
    // the goal-side suffix only, not a spliced start-to-goal path.
    let mut p = problema(CATENA, 0, 3);
    match p.bi_directional_search() {
        SearchResult::Found(nodo) => {
            assert_eq!(nodo.stato, 3);
            assert!(nodo.genitore.is_none());
            assert_eq!(nodo.profondita, 5);
            assert_eq!(nodo.costo_cammino, 0);
        },
        _ => panic!("atteso Found"),
    }
}

#[test]
fn bidirezionale_trova_su_ciclo_orientato() {
    // Goal reachable from start and start from goal: a meeting is owed
    // even on a directed graph. The fronts meet at state 0, whose
    // goal-side record has depth 1, so the returned depth is 2 * 1 + 1.
    let mut p = problema("# Directed\n0 1\n1 2\n2 0", 0, 2);
    match p.bi_directional_search() {
        SearchResult::Found(nodo) => {
            assert_eq!(nodo.stato, 2);
            assert_eq!(nodo.profondita, 3);
        },
        _ => panic!("atteso Found"),
    }
}

#[test]
fn bidirezionale_fallisce_su_cammino_a_senso_unico() {
    // Only the start can reach the goal: the goal side explores forward
    // edges, its frontier empties at once, and the search gives up.
    let mut p = problema("# Directed\n0 1\n1 2", 0, 2);
    assert!(matches!(p.bi_directional_search(), SearchResult::Failure));
}

#[test]
fn costo_uniforme_mantiene_la_disciplina_fifo() {
    // Two routes to the goal: via state 1 at cost 9 and one edge, or via
    // 2 then 1 at cost 4. The FIFO frontier reaches the goal from the
    // expensive node first, so the result costs 9 — not the cheapest
    // route — and matches what breadth-first search pays.
    let testo = "0 1 9\n0 2 1\n2 1 3\n1 3 0";
    let mut p1 = problema(testo, 0, 3);
    let mut p2 = problema(testo, 0, 3);
    let costo_ucs = match p1.uniform_cost_search() {
        SearchResult::Found(nodo) => nodo.costo_cammino,
        _ => panic!("atteso Found"),
    };
    let costo_bfs = match p2.breadth_first_search() {
        SearchResult::Found(nodo) => nodo.costo_cammino,
        _ => panic!("atteso Found"),
    };
    assert_eq!(costo_ucs, 9);
    assert_eq!(costo_bfs, 9);
    assert!(costo_ucs <= costo_bfs);
}

#[test]
fn costo_uniforme_fallisce_se_irraggiungibile() {
    let mut p = problema("0 1 2\n2 3 1", 0, 3);
    assert!(matches!(p.uniform_cost_search(), SearchResult::Failure));
}

#[test]
fn ricerca_ad_albero_su_grafo_aciclico() {
    let mut p = problema("# Directed\n0 1\n1 2", 0, 2);
    match p.tree_search() {
        SearchResult::Found(nodo) => {
            assert_eq!(nodo.stato, 2);
            assert_eq!(nodo.profondita, 2);
        },
        _ => panic!("atteso Found"),
    }
    let mut p2 = problema("# Directed\n1 2\n0 1", 2, 0);
    assert!(matches!(p2.tree_search(), SearchResult::Failure));
}

#[test]
fn il_cammino_del_nodo_trovato_risale_alla_radice() {
    let mut p = problema(CATENA, 0, 3);
    match p.breadth_first_search() {
        SearchResult::Found(nodo) => {
            let mut stati = vec![nodo.stato];
            let mut corrente = nodo.genitore;
            while let Some(g) = corrente {
                stati.push(g.stato);
                corrente = g.genitore;
            }
            stati.reverse();
            assert_eq!(stati, vec![0, 1, 2, 3]);
        },
        _ => panic!("atteso Found"),
    }
}

#[test]
fn accessori_del_problema() {
    let p = problema(CATENA, 0, 3);
    assert_eq!(p.get_stato_iniziale(), 0);
    assert_eq!(p.get_stato_finale(), 3);
    assert!(p.goal_test(&3));
    assert!(!p.goal_test(&1));
}
