//! Dataset parsing, tokenizing and loading behaviour.

use uninformed_search::dataset::dividi_linee;
use uninformed_search::dataset::contiene_sub;
use uninformed_search::dataset::parse_i32;
use uninformed_search::dataset::parse_u32;
use uninformed_search::dataset::tokenizza;
use uninformed_search::dataset::Graph;
use uninformed_search::dataset::GraphType;

fn carica(testo: &str) -> Graph {
    let mut g = Graph::new();
    g.load_dataset(&testo.as_bytes().to_vec());
    g
}

#[test]
fn parse_u32_accetta_cifre() {
    assert_eq!(parse_u32(&b"123".to_vec()), Some(123));
    assert_eq!(parse_u32(&b"+7".to_vec()), Some(7));
    assert_eq!(parse_u32(&b"0".to_vec()), Some(0));
    assert_eq!(parse_u32(&b"4294967295".to_vec()), Some(u32::MAX));
}

#[test]
fn parse_u32_rifiuta_il_resto() {
    assert_eq!(parse_u32(&b"".to_vec()), None);
    assert_eq!(parse_u32(&b"+".to_vec()), None);
    assert_eq!(parse_u32(&b"12a".to_vec()), None);
    assert_eq!(parse_u32(&b"-1".to_vec()), None);
    assert_eq!(parse_u32(&b"4294967296".to_vec()), None);
    assert_eq!(parse_u32(&b" 5".to_vec()), None);
}

#[test]
fn parse_i32_gestisce_i_segni() {
    assert_eq!(parse_i32(&b"-2147483648".to_vec()), Some(i32::MIN));
    assert_eq!(parse_i32(&b"2147483647".to_vec()), Some(i32::MAX));
    assert_eq!(parse_i32(&b"-0".to_vec()), Some(0));
    assert_eq!(parse_i32(&b"+5".to_vec()), Some(5));
    assert_eq!(parse_i32(&b"2147483648".to_vec()), None);
    assert_eq!(parse_i32(&b"-2147483649".to_vec()), None);
    assert_eq!(parse_i32(&b"-".to_vec()), None);
}

#[test]
fn tokenizza_divide_su_spazi_e_virgole() {
    let toks = tokenizza(&b"a,b c".to_vec(), true);
    assert_eq!(toks, vec![b"a".to_vec(), b"b".to_vec(), b"c".to_vec()]);
    let toks2 = tokenizza(&b"a,b c".to_vec(), false);
    assert_eq!(toks2, vec![b"a,b".to_vec(), b"c".to_vec()]);
    let toks3 = tokenizza(&b"  12\t34  ".to_vec(), false);
    assert_eq!(toks3, vec![b"12".to_vec(), b"34".to_vec()]);
}

#[test]
fn dividi_linee_rispetta_i_terminatori() {
    let linee = dividi_linee(&b"a\r\nb\n\nc".to_vec());
    assert_eq!(linee, vec![b"a".to_vec(), b"b".to_vec(), b"".to_vec(), b"c".to_vec()]);
    assert_eq!(dividi_linee(&b"".to_vec()).len(), 0);
    assert_eq!(dividi_linee(&b"\n".to_vec()), vec![b"".to_vec()]);
}

#[test]
fn contiene_sub_trova_le_occorrenze() {
    assert!(contiene_sub(&b"# Undirected graph".to_vec(), &b"Undirected".to_vec()));
    assert!(!contiene_sub(&b"# Undirected graph".to_vec(), &b"Directed".to_vec()));
    assert!(contiene_sub(&b"abc".to_vec(), &b"".to_vec()));
    assert!(!contiene_sub(&b"ab".to_vec(), &b"abc".to_vec()));
}

#[test]
fn round_trip_non_orientato() {
    // The dataset lines `# Undirected`, `0 1`, `1 2`, `2 3` give 3 edges
    // over the 4 states 0..3, each adjacent pair reachable both ways in one
    // step.
    let g = carica("# Undirected\n0 1\n1 2\n2 3");
    assert_eq!(g.gtype, GraphType::Undirected);
    assert_eq!(g.num_stati(), 4);
    assert_eq!(g.edge_count(), 3);
    let nodi = g.nodi();
    let vicini: Vec<Vec<u32>> =
        nodi.iter().map(|n| n.azioni.iter().map(|a| a.risultato).collect()).collect();
    assert_eq!(vicini[0], vec![1]);
    assert_eq!(vicini[1], vec![0, 2]);
    assert_eq!(vicini[2], vec![1, 3]);
    assert_eq!(vicini[3], vec![2]);
    for da in 0..4u32 {
        for a in 0..4u32 {
            if (da as i64 - a as i64).abs() == 1 {
                assert!(vicini[da as usize].contains(&a));
                assert!(vicini[a as usize].contains(&da));
            }
        }
    }
    for n in &nodi {
        for az in &n.azioni {
            assert_eq!(az.costo, 0);
        }
    }
}

#[test]
fn grafo_orientato_solo_in_avanti() {
    let g = carica("# Directed\n0 1\n1 2");
    assert_eq!(g.gtype, GraphType::Directed);
    assert_eq!(g.num_stati(), 3);
    // A directed edge counts only once its reverse is independently present.
    assert_eq!(g.edge_count(), 0);
    let nodi = g.nodi();
    assert_eq!(nodi[0].azioni.len(), 1);
    assert_eq!(nodi[1].azioni.len(), 1);
    assert_eq!(nodi[2].azioni.len(), 0);
}

#[test]
fn grafo_orientato_conta_la_coppia_inversa() {
    let g = carica("# Directed\n0 1\n1 0");
    assert_eq!(g.edge_count(), 1);
}

#[test]
fn etichettato_legge_i_costi() {
    // No header marker: the dataset counts as labeled, undirected, with an
    // optional third cost column.
    let g = carica("0 1 5\n1 2\n2 3 x");
    assert_eq!(g.gtype, GraphType::Labeled);
    let nodi = g.nodi();
    assert_eq!(nodi[0].azioni[0].risultato, 1);
    assert_eq!(nodi[0].azioni[0].costo, 5);
    assert_eq!(nodi[1].azioni[0].risultato, 0);
    assert_eq!(nodi[1].azioni[0].costo, 5);
    assert_eq!(nodi[1].azioni[1].costo, 0);
    assert_eq!(nodi[2].azioni[1].risultato, 3);
    assert_eq!(nodi[2].azioni[1].costo, 0);
}

#[test]
fn righe_doppie_e_malformate_sono_saltate() {
    let g = carica("# Undirected\n0 1\n0 1\nnon numeri\n# un commento\n1 2");
    assert_eq!(g.edge_count(), 2);
    let nodi = g.nodi();
    assert_eq!(nodi[0].azioni.len(), 1);
    assert_eq!(nodi[1].azioni.len(), 2);
}

#[test]
fn costi_diversi_non_sono_doppioni() {
    // The same pair with a different cost is a distinct action.
    let g = carica("0 1 5\n0 1 7\n0 1 5");
    let nodi = g.nodi();
    assert_eq!(nodi[0].azioni.len(), 2);
    assert_eq!(nodi[0].azioni[0].costo, 5);
    assert_eq!(nodi[0].azioni[1].costo, 7);
}

#[test]
fn gz_round_trip() {
    let testo = b"# Undirected\n0 1\n1 2";
    let mut enc = flate2::write::GzEncoder::new(Vec::new(), flate2::Compression::default());
    std::io::Write::write_all(&mut enc, testo).unwrap();
    let compressi = enc.finish().unwrap();
    let g = Graph::from_gz_dataset(&compressi).unwrap();
    assert_eq!(g.gtype, GraphType::Undirected);
    assert_eq!(g.num_stati(), 3);
    assert_eq!(g.edge_count(), 2);
    assert!(Graph::from_gz_dataset(&b"non gzip".to_vec()).is_none());
}
