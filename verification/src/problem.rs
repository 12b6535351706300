//! The search engine: a `Problem` wraps a graph with a start and a goal
//! state and runs one of the uninformed search strategies, returning a
//! tri-state `SearchResult`.

use crate::dataset::Graph;
use crate::node::add_costo;
use crate::node::copia_azioni;
use crate::node::inc_profondita;
use crate::node::node_root;
use crate::node::node_wf;
use crate::node::sat_add_i32;
use crate::node::sat_add_usize;
use crate::node::sat_inc;
use crate::node::Action;
use crate::node::Node;
use crate::node::State;
use crate::reach::adj_wf;
use crate::reach::cut_at;
use crate::reach::dist_at_most;
use crate::reach::lemma_dist_bound;
use crate::reach::lemma_dist_extend;
use crate::reach::lemma_dist_last_step;
use crate::reach::lemma_dist_monotone;
use crate::reach::lemma_dist_target_range;
use crate::reach::lemma_reach_closed;
use crate::reach::reachable;
use crate::reach::step;
use vstd::prelude::*;

verus! {

/// The tri-state outcome of a search: a goal node, exhaustion of the whole
/// reachable space, or exhaustion of a depth bound only.
#[derive(Debug)]
pub enum SearchResult {
    Found(Node),
    Failure,
    CutOff,
}

/// The search strategies the engine offers.
#[derive(Clone, Copy, Debug, PartialEq, Eq, Structural)]
pub enum Ricerca {
    TreeSearch,
    BreadthFirst,
    UniformCost,
    DepthLimited,
    IterativeDeepening,
    BiDirectional,
}

/// A compact search-tree node held in an arena: the predecessor is an index
/// of an earlier arena entry, so chains are acyclic by construction.
#[derive(Clone, Copy, Debug)]
pub(crate) struct SearchNode {
    pub stato: State,
    pub genitore: Option<usize>,
    pub costo_cammino: i32,
    pub profondita: usize,
}

/// One arena entry is well linked: its state is in range and its
/// predecessor, if any, is an earlier entry joined by an actual action with
/// the saturating cost and depth arithmetic of the node model.
pub(crate) open spec fn link_ok(az: Seq<Seq<Action>>, ar: Seq<SearchNode>, i: int) -> bool {
    let nd = ar[i];
    &&& (nd.stato as int) < az.len()
    &&& match nd.genitore {
        Option::None => nd.profondita == 0 && nd.costo_cammino == 0,
        Option::Some(p) => {
            &&& 0 <= (p as int) < i
            &&& exists|j: int|
                0 <= j < az[ar[p as int].stato as int].len() && (#[trigger] az[ar[
                    p as int
                ].stato as int][j]).risultato == nd.stato && nd.costo_cammino as int
                    == sat_add_i32(
                    ar[p as int].costo_cammino as int,
                    az[ar[p as int].stato as int][j].costo as int,
                )
            &&& nd.profondita as int == sat_inc(ar[p as int].profondita as int)
        },
    }
}

pub(crate) open spec fn arena_ok(az: Seq<Seq<Action>>, ar: Seq<SearchNode>) -> bool {
    forall|i: int| 0 <= i < ar.len() ==> #[trigger] link_ok(az, ar, i)
}

/// Predecessor indices strictly decrease along chains.
pub(crate) open spec fn catene_ok(ar: Seq<SearchNode>) -> bool {
    forall|i: int|
        0 <= i < ar.len() ==> match (#[trigger] ar[i]).genitore {
            Option::None => true,
            Option::Some(p) => 0 <= (p as int) < i,
        }
}

/// The state at the root of an arena chain.
pub(crate) open spec fn radice(ar: Seq<SearchNode>, i: int) -> State
    decreases i,
{
    if 0 <= i < ar.len() {
        match ar[i].genitore {
            Option::None => ar[i].stato,
            Option::Some(p) => {
                if (p as int) < i {
                    radice(ar, p as int)
                } else {
                    arbitrary()
                }
            },
        }
    } else {
        arbitrary()
    }
}

pub(crate) proof fn lemma_catene(az: Seq<Seq<Action>>, ar: Seq<SearchNode>)
    requires
        arena_ok(az, ar),
    ensures
        catene_ok(ar),
{
    assert forall|i: int| 0 <= i < ar.len() implies match (#[trigger] ar[i]).genitore {
        Option::None => true,
        Option::Some(p) => 0 <= (p as int) < i,
    } by {
        assert(link_ok(az, ar, i));
    }
}

/// Extending the arena does not change the root of an existing chain.
pub(crate) proof fn lemma_radice_stabile(ar1: Seq<SearchNode>, ar2: Seq<SearchNode>, i: int)
    requires
        0 <= i < ar1.len(),
        ar1.len() <= ar2.len(),
        forall|k: int| 0 <= k < ar1.len() ==> ar2[k] == ar1[k],
        catene_ok(ar1),
    ensures
        radice(ar2, i) == radice(ar1, i),
    decreases i,
{
    match ar1[i].genitore {
        Option::None => {},
        Option::Some(p) => {
            lemma_radice_stabile(ar1, ar2, p as int);
        },
    }
}

/// Appending a well-linked entry preserves the arena invariant.
pub(crate) proof fn lemma_arena_push(
    az: Seq<Seq<Action>>,
    ar: Seq<SearchNode>,
    nuovo: SearchNode,
)
    requires
        arena_ok(az, ar),
        link_ok(az, ar.push(nuovo), ar.len() as int),
    ensures
        arena_ok(az, ar.push(nuovo)),
{
    let ar2 = ar.push(nuovo);
    assert forall|i: int| 0 <= i < ar2.len() implies #[trigger] link_ok(az, ar2, i) by {
        if i < ar.len() {
            assert(link_ok(az, ar, i));
            let nd = ar[i];
            assert(ar2[i] == nd);
            match nd.genitore {
                Option::None => {},
                Option::Some(p) => {
                    let j = choose|j: int|
                        0 <= j < az[ar[p as int].stato as int].len() && (#[trigger] az[ar[
                            p as int
                        ].stato as int][j]).risultato == nd.stato && nd.costo_cammino as int
                            == sat_add_i32(
                            ar[p as int].costo_cammino as int,
                            az[ar[p as int].stato as int][j].costo as int,
                        );
                    assert(ar2[p as int] == ar[p as int]);
                    assert(0 <= j < az[ar2[p as int].stato as int].len() && az[ar2[
                        p as int
                    ].stato as int][j].risultato == nd.stato && nd.costo_cammino as int
                        == sat_add_i32(
                        ar2[p as int].costo_cammino as int,
                        az[ar2[p as int].stato as int][j].costo as int,
                    ));
                },
            }
        }
    }
}

/// The number of empty entries in a reached table; the searches terminate
/// because every new frontier entry fills one.
pub(crate) open spec fn conta_vuoti<T>(s: Seq<Option<T>>) -> nat
    decreases s.len(),
{
    if s.len() == 0 {
        0
    } else {
        conta_vuoti(s.drop_last()) + if s.last() is None {
            1nat
        } else {
            0nat
        }
    }
}

pub(crate) proof fn lemma_conta_vuoti_riempi<T>(s: Seq<Option<T>>, i: int, v: T)
    requires
        0 <= i < s.len(),
        s[i] is None,
    ensures
        conta_vuoti(s.update(i, Some(v))) + 1 == conta_vuoti(s),
    decreases s.len(),
{
    let s2 = s.update(i, Some(v));
    if i == s.len() - 1 {
        assert(s2.drop_last() =~= s.drop_last());
    } else {
        assert(s2.drop_last() =~= s.drop_last().update(i, Some(v)));
        lemma_conta_vuoti_riempi(s.drop_last(), i, v);
    }
}

/// A table of `n` empty entries.
pub(crate) fn nessuno_vec(n: usize) -> (r: Vec<Option<usize>>)
    ensures
        r@.len() == n,
        forall|i: int| 0 <= i < n ==> (#[trigger] r@[i]) is None,
{
    let mut r: Vec<Option<usize>> = Vec::new();
    let mut i: usize = 0;
    while i < n
        invariant
            0 <= i <= n,
            r@.len() == i,
            forall|x: int| 0 <= x < i ==> (#[trigger] r@[x]) is None,
        decreases n - i,
    {
        r.push(None);
        i = i + 1;
    }
    r
}

/// The search context: a start state, a goal state, the loaded graph, and
/// the depth limit used by depth-limited search (iterative deepening
/// adjusts it between rounds).
pub struct Problem {
    pub stato_iniziale: State,
    pub stato_finale: State,
    pub grafo: Graph,
    pub limite: usize,
}

impl Problem {
    /// The graph is well formed and both states index its node table.
    pub open spec fn wf(&self) -> bool {
        &&& self.grafo.wf()
        &&& (self.stato_iniziale as int) < self.grafo.nodi@.len()
        &&& (self.stato_finale as int) < self.grafo.nodi@.len()
    }

    /// The successor table of the wrapped graph.
    pub open spec fn adiacenze(&self) -> Seq<Seq<u32>> {
        self.grafo.adiacenze()
    }

    /// Wraps a graph with a start and a goal state; both must be valid
    /// indices of the graph's node table. The depth limit starts at 10.
    pub fn new(stato_iniziale: State, stato_finale: State, grafo: Graph) -> (p: Problem)
        requires
            grafo.wf(),
            (stato_iniziale as int) < grafo.nodi@.len(),
            (stato_finale as int) < grafo.nodi@.len(),
        ensures
            p.stato_iniziale == stato_iniziale,
            p.stato_finale == stato_finale,
            p.grafo == grafo,
            p.limite == 10,
            p.wf(),
    {
        Problem { stato_iniziale, stato_finale, grafo, limite: 10 }
    }

    /// Whether a state is the goal.
    pub fn goal_test(&self, stato: &State) -> (r: bool)
        ensures
            r == (*stato == self.stato_finale),
    {
        *stato == self.stato_finale
    }

    pub fn get_stato_iniziale(&self) -> (s: State)
        ensures
            s == self.stato_iniziale,
    {
        self.stato_iniziale
    }

    pub fn get_stato_finale(&self) -> (s: State)
        ensures
            s == self.stato_finale,
    {
        self.stato_finale
    }

    /// Sets the depth limit used by depth-limited search.
    pub fn set_limite(&mut self, limite: usize)
        ensures
            *final(self) == (Problem { limite, ..*old(self) }),
    {
        self.limite = limite;
    }
}

/// The successor table of a well-formed graph is itself well formed.
pub proof fn lemma_adiacenze_wf(g: Graph)
    requires
        g.wf(),
    ensures
        adj_wf(g.adiacenze()),
        g.adiacenze().len() == g.nodi@.len(),
{
    let ad = g.adiacenze();
    assert forall|s: int, j: int| 0 <= s < ad.len() && 0 <= j < ad[s].len() implies (
    #[trigger] ad[s][j]) < ad.len() by {
        assert(ad[s][j] == g.nodi@[s].azioni@[j].risultato);
    }
}

/// An edge of the action table is a step of the successor table.
pub(crate) proof fn lemma_passo_da_azione(g: Graph, s: int, j: int)
    requires
        g.wf(),
        0 <= s < g.nodi@.len(),
        0 <= j < g.az()[s].len(),
    ensures
        step(g.adiacenze(), s, g.az()[s][j].risultato as int),
        g.adiacenze()[s][j] == g.az()[s][j].risultato,
{
    let ad = g.adiacenze();
    assert(ad[s][j] == g.nodi@[s].azioni@[j].risultato);
    assert(0 <= j < ad[s].len() && ad[s][j] == g.az()[s][j].risultato);
}

/// What every minimum-depth search promises: never a cutoff, a goal node
/// exactly when the goal is reachable, and then one whose depth is the true
/// minimum number of edges from start to goal.
pub open spec fn esito_minimo(
    adia: Seq<Seq<u32>>,
    s0: State,
    g0: State,
    r: SearchResult,
) -> bool {
    &&& !(r is CutOff)
    &&& (r is Found <==> reachable(adia, s0 as int, g0 as int))
    &&& (r is Failure <==> !reachable(adia, s0 as int, g0 as int))
    &&& match r {
        SearchResult::Found(nd) => {
            &&& nd.stato == g0
            &&& dist_at_most(adia, s0 as int, g0 as int, nd.profondita as nat)
            &&& forall|k: nat|
                k < nd.profondita ==> !(#[trigger] dist_at_most(adia, s0 as int, g0 as int, k))
        },
        _ => true,
    }
}

/// Every depth limit strictly below `limite` gave a cutoff round: no path
/// to the goal within it, and some goal-avoiding path exhausting it.
pub open spec fn turni_tagliati(
    adia: Seq<Seq<u32>>,
    s0: State,
    g0: State,
    limite: int,
) -> bool {
    forall|lp: nat|
        1 <= lp < limite ==> !(#[trigger] dist_at_most(adia, s0 as int, g0 as int, lp))
            && cut_at(adia, s0 as int, g0 as int, lp)
}

/// Each reached state records an arena chain rooted at the start whose
/// depth is the exact distance of that state from the start.
pub(crate) open spec fn bfs_raggiunti_ok(
    ad: Seq<Seq<u32>>,
    s0: State,
    ar: Seq<SearchNode>,
    rg: Seq<Option<usize>>,
) -> bool {
    &&& rg.len() == ad.len()
    &&& forall|s: int|
        0 <= s < rg.len() && (#[trigger] rg[s]) is Some ==> {
            let i = rg[s].unwrap() as int;
            &&& 0 <= i < ar.len()
            &&& ar[i].stato == s
            &&& radice(ar, i) == s0
            &&& dist_at_most(ad, s0 as int, s, ar[i].profondita as nat)
            &&& (ar[i].profondita > 0 ==> !dist_at_most(
                ad,
                s0 as int,
                s,
                (ar[i].profondita - 1) as nat,
            ))
        }
}

/// Some frontier entry carries state `s`.
pub(crate) open spec fn stato_in_frontiera(
    ar: Seq<SearchNode>,
    fr: Seq<usize>,
    s: int,
) -> bool {
    exists|q: int| 0 <= q < fr.len() && ar[(#[trigger] fr[q]) as int].stato == s
}

/// Frontier entries are the reached entries of their states, their depths
/// are sorted and span at most two consecutive values, and their states are
/// pairwise distinct.
pub(crate) open spec fn bfs_frontiera_ok(
    ar: Seq<SearchNode>,
    rg: Seq<Option<usize>>,
    fr: Seq<usize>,
) -> bool {
    &&& forall|q: int|
        0 <= q < fr.len() ==> {
            let i = (#[trigger] fr[q]) as int;
            &&& i < ar.len()
            &&& (ar[i].stato as int) < rg.len()
            &&& rg[ar[i].stato as int] == Some(fr[q])
        }
    &&& forall|q1: int, q2: int|
        0 <= q1 <= q2 < fr.len() ==> ar[(#[trigger] fr[q1]) as int].profondita <= ar[(
        #[trigger] fr[q2]) as int].profondita
    &&& (fr.len() > 0 ==> ar[fr.last() as int].profondita <= ar[fr[0] as int].profondita + 1)
    &&& forall|q1: int, q2: int|
        0 <= q1 < q2 < fr.len() ==> ar[(#[trigger] fr[q1]) as int].stato != ar[(
        #[trigger] fr[q2]) as int].stato
}

/// A reached state is closed: none of its successors is the goal, each is
/// reached, and at a depth at most one beyond its own.
pub(crate) open spec fn chiuso(
    ad: Seq<Seq<u32>>,
    g0: State,
    ar: Seq<SearchNode>,
    rg: Seq<Option<usize>>,
    s: int,
) -> bool {
    forall|j: int|
        0 <= j < ad[s].len() ==> {
            let t = (#[trigger] ad[s][j]) as int;
            &&& t != g0 as int
            &&& 0 <= t < rg.len()
            &&& rg[t] is Some
            &&& ar[rg[t].unwrap() as int].profondita <= ar[rg[s].unwrap() as int].profondita + 1
        }
}

/// Every reached state no longer on the frontier is closed.
pub(crate) open spec fn bfs_chiusura_ok(
    ad: Seq<Seq<u32>>,
    g0: State,
    ar: Seq<SearchNode>,
    rg: Seq<Option<usize>>,
    fr: Seq<usize>,
) -> bool {
    forall|s: int|
        0 <= s < rg.len() && (#[trigger] rg[s]) is Some && !stato_in_frontiera(ar, fr, s)
            ==> chiuso(ad, g0, ar, rg, s)
}

/// Every state strictly closer to the start than the frontier's head is
/// already reached, at its own distance or less.
pub(crate) open spec fn bfs_completezza_ok(
    ad: Seq<Seq<u32>>,
    s0: State,
    ar: Seq<SearchNode>,
    rg: Seq<Option<usize>>,
    fr: Seq<usize>,
) -> bool {
    fr.len() > 0 ==> forall|t: int, k: nat|
        #[trigger] dist_at_most(ad, s0 as int, t, k) && k < ar[fr[0] as int].profondita ==> 0
            <= t < rg.len() && rg[t] is Some && ar[rg[t].unwrap() as int].profondita <= k
}

/// No reached depth exceeds the frontier head's depth by more than one.
pub(crate) open spec fn bfs_prof_limite(
    ar: Seq<SearchNode>,
    rg: Seq<Option<usize>>,
    fr: Seq<usize>,
) -> bool {
    fr.len() > 0 ==> forall|s: int|
        0 <= s < rg.len() && (#[trigger] rg[s]) is Some ==> ar[rg[s].unwrap() as int].profondita
            <= ar[fr[0] as int].profondita + 1
}

/// A state not yet reached lies farther from the start than the depth of
/// the entry being expanded: otherwise a closed predecessor would already
/// have reached it.
pub(crate) proof fn lemma_nuovo_lontano(
    ad: Seq<Seq<u32>>,
    s0: State,
    g0: State,
    ar: Seq<SearchNode>,
    rg: Seq<Option<usize>>,
    lf: Seq<usize>,
    d: nat,
    st: int,
    t: int,
)
    requires
        ad.len() == rg.len(),
        0 <= (s0 as int) < rg.len(),
        rg[s0 as int] is Some,
        0 <= st < rg.len(),
        rg[st] is Some,
        ar[rg[st].unwrap() as int].profondita == d,
        0 <= t < rg.len(),
        rg[t] is None,
        forall|t2: int, k: nat|
            #[trigger] dist_at_most(ad, s0 as int, t2, k) && k < d ==> 0 <= t2 < rg.len()
                && rg[t2] is Some && ar[rg[t2].unwrap() as int].profondita <= k,
        forall|q: int|
            0 <= q < lf.len() ==> {
                let i = (#[trigger] lf[q]) as int;
                &&& 0 <= i < ar.len()
                &&& (ar[i].stato as int) < rg.len()
                &&& rg[ar[i].stato as int] == Some(lf[q])
                &&& ar[i].profondita >= d
            },
        forall|s: int|
            0 <= s < rg.len() && (#[trigger] rg[s]) is Some && !stato_in_frontiera(ar, lf, s)
                && s != st ==> chiuso(ad, g0, ar, rg, s),
    ensures
        forall|k: nat| k <= d ==> !(#[trigger] dist_at_most(ad, s0 as int, t, k)),
{
    assert forall|k: nat| k <= d implies !(#[trigger] dist_at_most(ad, s0 as int, t, k)) by {
        if dist_at_most(ad, s0 as int, t, k) {
            if t == s0 as int {
                assert(rg[t] is Some);
            } else {
                lemma_dist_last_step(ad, s0 as int, t, k);
                let m = choose|m: int|
                    dist_at_most(ad, s0 as int, m, (k - 1) as nat) && #[trigger] step(ad, m, t);
                assert(dist_at_most(ad, s0 as int, m, (k - 1) as nat));
                assert(((k - 1) as nat) < d);
                assert(rg[m] is Some && ar[rg[m].unwrap() as int].profondita <= k - 1);
                assert(!stato_in_frontiera(ar, lf, m)) by {
                    if stato_in_frontiera(ar, lf, m) {
                        let q = choose|q: int|
                            0 <= q < lf.len() && ar[(#[trigger] lf[q]) as int].stato == m;
                        assert(rg[m] == Some(lf[q]));
                        assert(ar[lf[q] as int].profondita >= d);
                    }
                };
                assert(m != st) by {
                    if m == st {
                        assert(ar[rg[st].unwrap() as int].profondita == d);
                    }
                };
                assert(chiuso(ad, g0, ar, rg, m));
                let j = choose|j: int| 0 <= j < ad[m].len() && (#[trigger] ad[m][j]) == t;
                assert(rg[(ad[m][j]) as int] is Some);
            }
        }
    }
}

impl Problem {
    /// The children of arena entry `i`: one per outgoing action of its
    /// state, in the graph's stored order, each linked back to `i` with the
    /// action's cost added and the depth increased by one.
    fn espandi(&self, ar: &Vec<SearchNode>, i: usize) -> (figli: Vec<SearchNode>)
        requires
            self.wf(),
            arena_ok(self.grafo.az(), ar@),
            (i as int) < ar@.len(),
        ensures
            ({
                let az = self.grafo.az();
                let st = ar@[i as int].stato as int;
                &&& figli@.len() == az[st].len()
                &&& forall|j: int|
                    0 <= j < figli@.len() ==> {
                        let f = #[trigger] figli@[j];
                        &&& f.stato == az[st][j].risultato
                        &&& f.genitore == Some(i)
                        &&& f.costo_cammino as int == sat_add_i32(
                            ar@[i as int].costo_cammino as int,
                            az[st][j].costo as int,
                        )
                        &&& f.profondita as int == sat_inc(ar@[i as int].profondita as int)
                    }
            }),
    {
        proof {
            assert(link_ok(self.grafo.az(), ar@, i as int));
        }
        let nodo = ar[i];
        let riga = &self.grafo.nodi[nodo.stato as usize].azioni;
        let mut figli: Vec<SearchNode> = Vec::new();
        let mut j: usize = 0;
        while j < riga.len()
            invariant
                self.wf(),
                (i as int) < ar@.len(),
                nodo == ar@[i as int],
                (nodo.stato as int) < self.grafo.nodi@.len(),
                riga@ == self.grafo.az()[nodo.stato as int],
                0 <= j <= riga@.len(),
                figli@.len() == j,
                forall|x: int|
                    0 <= x < j ==> {
                        let f = #[trigger] figli@[x];
                        &&& f.stato == self.grafo.az()[nodo.stato as int][x].risultato
                        &&& f.genitore == Some(i)
                        &&& f.costo_cammino as int == sat_add_i32(
                            nodo.costo_cammino as int,
                            self.grafo.az()[nodo.stato as int][x].costo as int,
                        )
                        &&& f.profondita as int == sat_inc(nodo.profondita as int)
                    },
            decreases riga@.len() - j,
        {
            let azione = riga[j];
            figli.push(
                SearchNode {
                    stato: azione.risultato,
                    genitore: Some(i),
                    costo_cammino: add_costo(nodo.costo_cammino, azione.costo),
                    profondita: inc_profondita(nodo.profondita),
                },
            );
            j = j + 1;
        }
        figli
    }

    /// Rebuilds the public `Node` for arena entry `i`, walking the chain to
    /// the root and snapshotting each state's action list.
    fn costruisci_nodo(&self, ar: &Vec<SearchNode>, i: usize) -> (nd: Node)
        requires
            self.wf(),
            arena_ok(self.grafo.az(), ar@),
            (i as int) < ar@.len(),
        ensures
            node_wf(self.grafo.az(), nd),
            nd.stato == ar@[i as int].stato,
            nd.costo_cammino == ar@[i as int].costo_cammino,
            nd.profondita == ar@[i as int].profondita,
            node_root(nd) == radice(ar@, i as int),
            (nd.genitore is None) == (ar@[i as int].genitore is None),
        decreases i,
    {
        proof {
            assert(link_ok(self.grafo.az(), ar@, i as int));
        }
        let sn = ar[i];
        let azioni = copia_azioni(&self.grafo.nodi[sn.stato as usize].azioni);
        match sn.genitore {
            None => Node {
                stato: sn.stato,
                azioni,
                genitore: None,
                costo_cammino: sn.costo_cammino,
                profondita: sn.profondita,
            },
            Some(p) => {
                let padre = self.costruisci_nodo(ar, p);
                let nd = Node {
                    stato: sn.stato,
                    azioni,
                    genitore: Some(Box::new(padre)),
                    costo_cammino: sn.costo_cammino,
                    profondita: sn.profondita,
                };
                proof {
                    let az = self.grafo.az();
                    let j = choose|j: int|
                        0 <= j < az[ar@[p as int].stato as int].len() && (#[trigger] az[ar@[
                            p as int
                        ].stato as int][j]).risultato == sn.stato && sn.costo_cammino as int
                            == sat_add_i32(
                            ar@[p as int].costo_cammino as int,
                            az[ar@[p as int].stato as int][j].costo as int,
                        );
                    assert(padre.stato == ar@[p as int].stato);
                    assert(node_wf(az, nd));
                }
                nd
            },
        }
    }

    /// Breadth-first search: goal-checks the start, then explores by
    /// non-decreasing depth with a FIFO frontier and a reached table,
    /// goal-checking each child as it is generated. The returned node's
    /// depth is the minimum number of edges from start to goal.
    #[verifier::loop_isolation(false)]
    #[verifier::rlimit(100)]
    #[verifier::spinoff_prover]
    pub fn breadth_first_search(&mut self) -> (r: SearchResult)
        requires
            old(self).wf(),
        ensures
            *final(self) == *old(self),
            esito_minimo(
                old(self).adiacenze(),
                old(self).stato_iniziale,
                old(self).stato_finale,
                r,
            ),
            match r {
                SearchResult::Found(nd) => node_wf(old(self).grafo.az(), nd) && node_root(nd)
                    == old(self).stato_iniziale,
                _ => true,
            },
    {
        let ghost az = self.grafo.az();
        let ghost ad = self.adiacenze();
        let s0 = self.stato_iniziale;
        let g0 = self.stato_finale;
        let n = self.grafo.nodi.len();
        proof {
            lemma_adiacenze_wf(self.grafo);
        }
        if s0 == g0 {
            let azioni = copia_azioni(&self.grafo.nodi[s0 as usize].azioni);
            let nd = Node { stato: s0, azioni, genitore: None, costo_cammino: 0, profondita: 0 };
            proof {
                assert(dist_at_most(ad, s0 as int, g0 as int, 0nat));
                assert(reachable(ad, s0 as int, g0 as int));
            }
            return SearchResult::Found(nd);
        }
        let radice_nodo = SearchNode { stato: s0, genitore: None, costo_cammino: 0, profondita: 0 };
        let mut arena: Vec<SearchNode> = Vec::new();
        arena.push(radice_nodo);
        let mut raggiunti = nessuno_vec(n);
        proof {
            lemma_conta_vuoti_riempi(raggiunti@, s0 as int, 0usize);
        }
        raggiunti[s0 as usize] = Some(0usize);
        let mut frontiera: Vec<usize> = Vec::new();
        frontiera.push(0usize);
        let mut testa: usize = 0;
        proof {
            assert(arena_ok(az, arena@)) by {
                assert(link_ok(az, arena@, 0));
            }
            assert(radice(arena@, 0) == s0);
            assert(dist_at_most(ad, s0 as int, s0 as int, 0nat));
            assert(frontiera@.skip(0)[0] == 0usize);
        }
        while testa < frontiera.len()
            invariant
                testa <= frontiera@.len(),
                raggiunti@.len() == n,
                arena_ok(az, arena@),
                bfs_inv(ad, s0, g0, arena@, raggiunti@, frontiera@.skip(testa as int)),
            decreases conta_vuoti(raggiunti@), frontiera@.len() - testa,
        {
            let esito = self.bfs_passo(&mut arena, &mut raggiunti, &mut frontiera, &mut testa);
            match esito {
                Some(nd) => {
                    return SearchResult::Found(nd);
                },
                None => {},
            }
        }
        proof {
            let lf = frontiera@.skip(testa as int);
            assert(lf.len() == 0);
            if reachable(ad, s0 as int, g0 as int) {
                let k = choose|k: nat| dist_at_most(ad, s0 as int, g0 as int, k);
                let p = |x: int| 0 <= x < raggiunti@.len() && raggiunti@[x] is Some;
                assert forall|x: int, y: int| p(x) && #[trigger] step(ad, x, y) implies p(y) by {
                    assert(!stato_in_frontiera(arena@, lf, x));
                    assert(chiuso(ad, g0, arena@, raggiunti@, x));
                    let j = choose|j: int| 0 <= j < ad[x].len() && (#[trigger] ad[x][j]) == y;
                    assert(raggiunti@[y] is Some);
                };
                lemma_reach_closed(ad, p, s0 as int, g0 as int, k);
            }
        }
        SearchResult::Failure
    }

    /// One breadth-first expansion: pops the frontier head and processes
    /// its children.
    #[verifier::loop_isolation(false)]
    #[verifier::rlimit(100)]
    #[verifier::spinoff_prover]
    fn bfs_passo(
        &self,
        arena: &mut Vec<SearchNode>,
        raggiunti: &mut Vec<Option<usize>>,
        frontiera: &mut Vec<usize>,
        testa: &mut usize,
    ) -> (esito: Option<Node>)
        requires
            self.wf(),
            self.stato_iniziale != self.stato_finale,
            *old(testa) < old(frontiera)@.len(),
            old(raggiunti)@.len() == self.grafo.nodi@.len(),
            arena_ok(self.grafo.az(), old(arena)@),
            bfs_inv(
                self.adiacenze(),
                self.stato_iniziale,
                self.stato_finale,
                old(arena)@,
                old(raggiunti)@,
                old(frontiera)@.skip(*old(testa) as int),
            ),
        ensures
            final(raggiunti)@.len() == old(raggiunti)@.len(),
            match esito {
                Some(nd) => {
                    &&& node_wf(self.grafo.az(), nd)
                    &&& node_root(nd) == self.stato_iniziale
                    &&& nd.stato == self.stato_finale
                    &&& dist_at_most(
                        self.adiacenze(),
                        self.stato_iniziale as int,
                        self.stato_finale as int,
                        nd.profondita as nat,
                    )
                    &&& forall|k: nat|
                        k < nd.profondita ==> !(#[trigger] dist_at_most(
                            self.adiacenze(),
                            self.stato_iniziale as int,
                            self.stato_finale as int,
                            k,
                        ))
                },
                None => {
                    &&& *final(testa) == *old(testa) + 1
                    &&& final(testa)@ <= final(frontiera)@.len()
                    &&& arena_ok(self.grafo.az(), final(arena)@)
                    &&& bfs_inv(
                        self.adiacenze(),
                        self.stato_iniziale,
                        self.stato_finale,
                        final(arena)@,
                        final(raggiunti)@,
                        final(frontiera)@.skip(*final(testa) as int),
                    )
                    &&& conta_vuoti(final(raggiunti)@) <= conta_vuoti(old(raggiunti)@)
                    &&& conta_vuoti(final(raggiunti)@) + final(frontiera)@.len() == conta_vuoti(
                        old(raggiunti)@,
                    ) + old(frontiera)@.len()
                },
            },
    {
        let ghost ad = self.adiacenze();
        let n = self.grafo.nodi.len();
        proof {
            lemma_adiacenze_wf(self.grafo);
        }
        let _lunghezza_fr = frontiera.len();
        let idx = frontiera[*testa];
        let ghost lf_tutta = frontiera@.skip(*testa as int);
        *testa = *testa + 1;
        proof {
            assert(lf_tutta[0] == idx);
            assert(frontiera@.skip(*testa as int) =~= lf_tutta.drop_first());
            lemma_bfs_pop(
                ad,
                self.stato_iniziale,
                self.stato_finale,
                arena@,
                raggiunti@,
                lf_tutta,
                n as int,
            );
        }
        self.bfs_figli(arena, raggiunti, frontiera, *testa, idx)
    }

    /// Generates the children of the popped entry, returns the rebuilt goal
    /// node as soon as one is the goal, and otherwise records and enqueues
    /// those not yet reached.
    #[verifier::rlimit(100)]
    #[verifier::spinoff_prover]
    fn bfs_figli(
        &self,
        arena: &mut Vec<SearchNode>,
        raggiunti: &mut Vec<Option<usize>>,
        frontiera: &mut Vec<usize>,
        testa: usize,
        idx: usize,
    ) -> (esito: Option<Node>)
        requires
            self.wf(),
            self.stato_iniziale != self.stato_finale,
            testa <= old(frontiera)@.len(),
            old(raggiunti)@.len() == self.grafo.nodi@.len(),
            (idx as int) < old(arena)@.len(),
            dist_at_most(
                self.adiacenze(),
                self.stato_iniziale as int,
                old(arena)@[idx as int].stato as int,
                old(arena)@[idx as int].profondita as nat,
            ),
            old(arena)@[idx as int].profondita < old(raggiunti)@.len(),
            bfs_mid(
                self.grafo.az(),
                self.adiacenze(),
                self.stato_iniziale,
                self.stato_finale,
                old(arena)@,
                idx,
                old(arena)@[idx as int].stato as int,
                old(arena)@[idx as int].profondita as nat,
                old(arena)@,
                old(raggiunti)@,
                old(frontiera)@.skip(testa as int),
            ),
        ensures
            final(raggiunti)@.len() == old(raggiunti)@.len(),
            match esito {
                Some(nd) => {
                    &&& node_wf(self.grafo.az(), nd)
                    &&& node_root(nd) == self.stato_iniziale
                    &&& nd.stato == self.stato_finale
                    &&& dist_at_most(
                        self.adiacenze(),
                        self.stato_iniziale as int,
                        self.stato_finale as int,
                        nd.profondita as nat,
                    )
                    &&& forall|k: nat|
                        k < nd.profondita ==> !(#[trigger] dist_at_most(
                            self.adiacenze(),
                            self.stato_iniziale as int,
                            self.stato_finale as int,
                            k,
                        ))
                },
                None => {
                    &&& testa <= final(frontiera)@.len()
                    &&& arena_ok(self.grafo.az(), final(arena)@)
                    &&& bfs_inv(
                        self.adiacenze(),
                        self.stato_iniziale,
                        self.stato_finale,
                        final(arena)@,
                        final(raggiunti)@,
                        final(frontiera)@.skip(testa as int),
                    )
                    &&& conta_vuoti(final(raggiunti)@) <= conta_vuoti(old(raggiunti)@)
                    &&& conta_vuoti(final(raggiunti)@) + final(frontiera)@.len() == conta_vuoti(
                        old(raggiunti)@,
                    ) + old(frontiera)@.len()
                },
            },
    {
        let ghost az = self.grafo.az();
        let ghost ad = self.adiacenze();
        let s0 = self.stato_iniziale;
        let g0 = self.stato_finale;
        let n = self.grafo.nodi.len();
        let ghost st = arena@[idx as int].stato;
        let ghost d = arena@[idx as int].profondita as nat;
        let figli = self.espandi(&arena, idx);
        let ghost arena0 = arena@;
        let ghost conta0 = conta_vuoti(raggiunti@);
        let ghost flen0 = frontiera@.len();
        proof {
            assert(link_ok(az, arena@, idx as int));
            assert(sat_inc(d as int) == d + 1);
        }
        let mut j: usize = 0;
        while j < figli.len()
            invariant
                self.wf(),
                az == self.grafo.az(),
                ad == self.adiacenze(),
                n == self.grafo.nodi@.len(),
                ad.len() == n,
                az.len() == n,
                s0 == self.stato_iniziale,
                g0 == self.stato_finale,
                s0 != g0,
                0 <= (st as int) < n,
                d < n,
                dist_at_most(ad, s0 as int, st as int, d),
                figli@.len() == az[st as int].len(),
                forall|x: int|
                    0 <= x < figli@.len() ==> {
                        let f = #[trigger] figli@[x];
                        &&& f.stato == az[st as int][x].risultato
                        &&& f.genitore == Some(idx)
                        &&& f.profondita == d + 1
                        &&& f.costo_cammino as int == sat_add_i32(
                            arena0[idx as int].costo_cammino as int,
                            az[st as int][x].costo as int,
                        )
                    },
                0 <= j <= figli@.len(),
                testa <= frontiera@.len(),
                raggiunti@.len() == n,
                old(raggiunti)@.len() == n,
                bfs_mid(
                    az,
                    ad,
                    s0,
                    g0,
                    arena0,
                    idx,
                    st as int,
                    d,
                    arena@,
                    raggiunti@,
                    frontiera@.skip(testa as int),
                ),
                forall|jj: int|
                    0 <= jj < j ==> {
                        let t = (#[trigger] ad[st as int][jj]) as int;
                        &&& t != g0 as int
                        &&& 0 <= t < n
                        &&& raggiunti@[t] is Some
                        &&& ar_prof(arena@, raggiunti@[t].unwrap()) <= d + 1
                    },
                conta_vuoti(raggiunti@) <= conta0,
                conta_vuoti(raggiunti@) + frontiera@.len() == conta0 + flen0,
            decreases figli@.len() - j,
        {
            let f = figli[j];
            let esito = self.bfs_un_figlio(
                arena,
                raggiunti,
                frontiera,
                testa,
                idx,
                f,
                Ghost(st),
                Ghost(d),
                Ghost(arena0),
                Ghost(j as int),
            );
            match esito {
                Some(nd) => {
                    return Some(nd);
                },
                None => {},
            }
            j = j + 1;
        }
        proof {
            let lf1 = frontiera@.skip(testa as int);
            assert(chiuso(ad, g0, arena@, raggiunti@, st as int)) by {
                lemma_adiacenze_wf(self.grafo);
                assert(ad[st as int].len() == figli@.len());
            };
            lemma_adiacenze_wf(self.grafo);
            lemma_bfs_dopo_figli(ad, s0, g0, arena@, raggiunti@, lf1, d, st as int, idx);
        }
        None
    }

    /// Processes one generated child: returns the rebuilt goal node when it
    /// carries the goal state, records and enqueues it when its state is
    /// new, and drops it otherwise.
    #[verifier::rlimit(100)]
    #[verifier::spinoff_prover]
    fn bfs_un_figlio(
        &self,
        arena: &mut Vec<SearchNode>,
        raggiunti: &mut Vec<Option<usize>>,
        frontiera: &mut Vec<usize>,
        testa: usize,
        idx: usize,
        f: SearchNode,
        st_g: Ghost<State>,
        d_g: Ghost<nat>,
        arena0_g: Ghost<Seq<SearchNode>>,
        j_g: Ghost<int>,
    ) -> (esito: Option<Node>)
        requires
            ({
                let az = self.grafo.az();
                let ad = self.adiacenze();
                let s0 = self.stato_iniziale;
                let g0 = self.stato_finale;
                let st = st_g@;
                let d = d_g@;
                let arena0 = arena0_g@;
                let j = j_g@;
                &&& self.wf()
                &&& s0 != g0
                &&& testa <= old(frontiera)@.len()
                &&& old(raggiunti)@.len() == self.grafo.nodi@.len()
                &&& 0 <= (st as int) < old(raggiunti)@.len()
                &&& d < old(raggiunti)@.len()
                &&& dist_at_most(ad, s0 as int, st as int, d)
                &&& bfs_mid(
                    az,
                    ad,
                    s0,
                    g0,
                    arena0,
                    idx,
                    st as int,
                    d,
                    old(arena)@,
                    old(raggiunti)@,
                    old(frontiera)@.skip(testa as int),
                )
                &&& 0 <= j < az[st as int].len()
                &&& f.stato == az[st as int][j].risultato
                &&& f.genitore == Some(idx)
                &&& f.profondita == d + 1
                &&& f.costo_cammino as int == sat_add_i32(
                    arena0[idx as int].costo_cammino as int,
                    az[st as int][j].costo as int,
                )
            }),
        ensures
            ({
                let az = self.grafo.az();
                let ad = self.adiacenze();
                let s0 = self.stato_iniziale;
                let g0 = self.stato_finale;
                let st = st_g@;
                let d = d_g@;
                let arena0 = arena0_g@;
                let j = j_g@;
                &&& final(raggiunti)@.len() == old(raggiunti)@.len()
                &&& match esito {
                    Some(nd) => {
                        &&& node_wf(az, nd)
                        &&& node_root(nd) == s0
                        &&& nd.stato == g0
                        &&& dist_at_most(ad, s0 as int, g0 as int, nd.profondita as nat)
                        &&& forall|k: nat|
                            k < nd.profondita ==> !(#[trigger] dist_at_most(
                                ad,
                                s0 as int,
                                g0 as int,
                                k,
                            ))
                    },
                    None => {
                        &&& testa <= final(frontiera)@.len()
                        &&& bfs_mid(
                            az,
                            ad,
                            s0,
                            g0,
                            arena0,
                            idx,
                            st as int,
                            d,
                            final(arena)@,
                            final(raggiunti)@,
                            final(frontiera)@.skip(testa as int),
                        )
                        &&& (forall|s: int|
                            0 <= s < old(raggiunti)@.len() && (#[trigger] old(raggiunti)@[s])
                                is Some ==> final(raggiunti)@[s] == old(raggiunti)@[s])
                        &&& ({
                            let t = (ad[st as int][j]) as int;
                            &&& t != g0 as int
                            &&& 0 <= t < final(raggiunti)@.len()
                            &&& final(raggiunti)@[t] is Some
                            &&& ar_prof(final(arena)@, final(raggiunti)@[t].unwrap()) <= d + 1
                        })
                        &&& conta_vuoti(final(raggiunti)@) <= conta_vuoti(old(raggiunti)@)
                        &&& conta_vuoti(final(raggiunti)@) + final(frontiera)@.len()
                            == conta_vuoti(old(raggiunti)@) + old(frontiera)@.len()
                    },
                }
            }),
    {
        let ghost az = self.grafo.az();
        let ghost ad = self.adiacenze();
        let s0 = self.stato_iniziale;
        let g0 = self.stato_finale;
        let ghost st = st_g@;
        let ghost d = d_g@;
        let ghost arena0 = arena0_g@;
        let ghost j = j_g@;
        proof {
            lemma_adiacenze_wf(self.grafo);
            lemma_passo_da_azione(self.grafo, st as int, j);
            assert(ad[st as int][j] == f.stato);
            assert((f.stato as int) < raggiunti@.len());
        }
        if f.stato == g0 {
            proof {
                assert forall|s2: int, jj: int|
                    0 <= s2 < az.len() && 0 <= jj < az[s2].len() implies ad[s2].len() == az[
                        s2
                    ].len() && (#[trigger] ad[s2][jj]) == az[s2][jj].risultato by {
                    lemma_passo_da_azione(self.grafo, s2, jj);
                };
                assert(arena@[idx as int] == arena0[idx as int]);
                lemma_bfs_trovato(
                    az,
                    ad,
                    s0,
                    g0,
                    arena@,
                    raggiunti@,
                    frontiera@.skip(testa as int),
                    d,
                    st as int,
                    idx,
                    f,
                    j,
                );
            }
            arena.push(f);
            let ni = arena.len() - 1;
            let nd = self.costruisci_nodo(&arena, ni);
            proof {
                assert forall|k: nat| k < nd.profondita implies !(#[trigger] dist_at_most(
                    ad,
                    s0 as int,
                    g0 as int,
                    k,
                )) by {
                    assert(k <= d);
                }
            }
            return Some(nd);
        }
        let s_us = f.stato as usize;
        let gia = raggiunti[s_us];
        match gia {
            None => {
                let ghost ar_prima = arena@;
                let ghost rg_prima = raggiunti@;
                let ghost lf_prima = frontiera@.skip(testa as int);
                let ni = arena.len();
                proof {
                    assert forall|s2: int, jj: int|
                        0 <= s2 < az.len() && 0 <= jj < az[s2].len() implies ad[s2].len() == az[
                            s2
                        ].len() && (#[trigger] ad[s2][jj]) == az[s2][jj].risultato by {
                        lemma_passo_da_azione(self.grafo, s2, jj);
                    };
                    assert(arena@[idx as int] == arena0[idx as int]);
                    lemma_bfs_inserisci(
                        az,
                        ad,
                        s0,
                        g0,
                        ar_prima,
                        rg_prima,
                        lf_prima,
                        d,
                        st as int,
                        idx,
                        f,
                        j,
                        ni,
                    );
                }
                arena.push(f);
                raggiunti[s_us] = Some(ni);
                let ghost fr_prima = frontiera@;
                frontiera.push(ni);
                proof {
                    assert(arena@ == ar_prima.push(f));
                    assert(raggiunti@ == rg_prima.update(f.stato as int, Some(ni)));
                    assert(frontiera@.skip(testa as int) =~= lf_prima.push(ni));
                    assert(!stato_in_frontiera(
                        arena@,
                        frontiera@.skip(testa as int),
                        st as int,
                    )) by {
                        let lf1 = frontiera@.skip(testa as int);
                        if stato_in_frontiera(arena@, lf1, st as int) {
                            let q = choose|q: int|
                                0 <= q < lf1.len() && arena@[(#[trigger] lf1[q]) as int].stato
                                    == st;
                            if q < lf_prima.len() {
                                assert(arena@[lf_prima[q] as int] == ar_prima[lf_prima[q] as int]);
                                assert(stato_in_frontiera(ar_prima, lf_prima, st as int));
                            } else {
                                assert(arena@[lf1[q] as int] == f);
                            }
                        }
                    };
                }
            },
            Some(_) => {
            },
        }
        None
    }
}

/// After an expansion finishes, every off-frontier reached state is closed
/// and every state within the old head depth is reached: the invariants of
/// breadth-first search hold again for the next head.
#[verifier::rlimit(100)]
#[verifier::spinoff_prover]
pub(crate) proof fn lemma_bfs_dopo_figli(
    ad: Seq<Seq<u32>>,
    s0: State,
    g0: State,
    ar: Seq<SearchNode>,
    rg: Seq<Option<usize>>,
    lf: Seq<usize>,
    d: nat,
    st: int,
    idx: usize,
)
    requires
        adj_wf(ad),
        rg.len() == ad.len(),
        0 <= (s0 as int) < rg.len(),
        0 <= (g0 as int) < rg.len(),
        s0 != g0,
        bfs_raggiunti_ok(ad, s0, ar, rg),
        bfs_frontiera_ok(ar, rg, lf),
        rg[s0 as int] is Some,
        rg[g0 as int] is None,
        0 <= st < rg.len(),
        rg[st] == Some(idx),
        ar_prof(ar, idx) == d,
        forall|q: int|
            0 <= q < lf.len() ==> ar_prof(ar, #[trigger] lf[q]) >= d && ar_prof(ar, lf[q]) <= d
                + 1,
        forall|s: int|
            0 <= s < rg.len() && (#[trigger] rg[s]) is Some ==> ar_prof(ar, rg[s].unwrap()) <= d
                + 1,
        forall|t2: int, k: nat|
            #[trigger] dist_at_most(ad, s0 as int, t2, k) && k < d ==> 0 <= t2 < rg.len()
                && rg[t2] is Some && ar_prof(ar, rg[t2].unwrap()) <= k,
        forall|s: int|
            0 <= s < rg.len() && (#[trigger] rg[s]) is Some && !stato_in_frontiera(ar, lf, s)
                && s != st ==> chiuso(ad, g0, ar, rg, s),
        !stato_in_frontiera(ar, lf, st),
        chiuso(ad, g0, ar, rg, st),
    ensures
        bfs_inv(ad, s0, g0, ar, rg, lf),
{
    assert forall|s: int|
        0 <= s < rg.len() && (#[trigger] rg[s]) is Some && !stato_in_frontiera(ar, lf, s)
            implies chiuso(ad, g0, ar, rg, s) by {
        if s != st {
            assert(chiuso(ad, g0, ar, rg, s));
        }
    };
    assert forall|t2: int, k: nat|
        #[trigger] dist_at_most(ad, s0 as int, t2, k) && k <= d implies 0 <= t2 < rg.len()
            && rg[t2] is Some && ar_prof(ar, rg[t2].unwrap()) <= k by {
        if k < d {
        } else {
            lemma_dist_target_range(ad, s0 as int, t2, k);
            if t2 == s0 as int {
                assert(ar_prof(ar, rg[s0 as int].unwrap()) == 0) by {
                    assert(dist_at_most(ad, s0 as int, s0 as int, 0nat));
                }
            } else {
                lemma_dist_last_step(ad, s0 as int, t2, k);
                let m = choose|m: int|
                    dist_at_most(ad, s0 as int, m, (k - 1) as nat) && #[trigger] step(ad, m, t2);
                assert(rg[m] is Some && ar_prof(ar, rg[m].unwrap()) <= k - 1);
                assert(!stato_in_frontiera(ar, lf, m)) by {
                    if stato_in_frontiera(ar, lf, m) {
                        let q = choose|q: int|
                            0 <= q < lf.len() && ar[(#[trigger] lf[q]) as int].stato == m;
                        assert(rg[m] == Some(lf[q]));
                        assert(ar_prof(ar, lf[q]) >= d);
                    }
                };
                assert(m != st) by {
                    if m == st {
                        assert(ar_prof(ar, rg[st].unwrap()) == d);
                    }
                };
                assert(chiuso(ad, g0, ar, rg, m));
                let jj = choose|jj: int| 0 <= jj < ad[m].len() && (#[trigger] ad[m][jj]) == t2;
                assert(rg[t2] is Some);
            }
        }
    };
    if lf.len() > 0 {
        assert(ar_prof(ar, lf[0]) >= d);
        assert forall|t2: int, k: nat|
            #[trigger] dist_at_most(ad, s0 as int, t2, k) && k < ar[lf[0] as int].profondita
                implies 0 <= t2 < rg.len() && rg[t2] is Some && ar_prof(ar, rg[t2].unwrap())
                <= k by {
            assert(k <= d);
        };
        assert forall|s: int|
            0 <= s < rg.len() && (#[trigger] rg[s]) is Some implies ar_prof(ar, rg[s].unwrap())
                <= ar[lf[0] as int].profondita + 1 by {
            assert(ar_prof(ar, rg[s].unwrap()) <= d + 1);
        };
    }
}


/// Facts available when the frontier head is popped: it is the reached
/// entry of its state, its depth is the exact distance (hence below the
/// number of states), the remaining entries stay within one depth level,
/// its state is not among them, and every other reached off-frontier state
/// is closed.
#[verifier::rlimit(100)]
#[verifier::spinoff_prover]
pub(crate) proof fn lemma_bfs_pop(
    ad: Seq<Seq<u32>>,
    s0: State,
    g0: State,
    ar: Seq<SearchNode>,
    rg: Seq<Option<usize>>,
    lft: Seq<usize>,
    n: int,
)
    requires
        adj_wf(ad),
        n == rg.len(),
        bfs_inv(ad, s0, g0, ar, rg, lft),
        lft.len() > 0,
    ensures
        ({
            let idx = lft[0];
            let st = ar[idx as int].stato as int;
            let d = ar[idx as int].profondita as nat;
            let lf0 = lft.drop_first();
            &&& (idx as int) < ar.len()
            &&& 0 <= st < rg.len()
            &&& rg[st] == Some(idx)
            &&& dist_at_most(ad, s0 as int, st, d)
            &&& d < n
            &&& forall|q: int|
                0 <= q < lf0.len() ==> ar_prof(ar, #[trigger] lf0[q]) >= d && ar_prof(
                    ar,
                    lf0[q],
                ) <= d + 1
            &&& !stato_in_frontiera(ar, lf0, st)
            &&& forall|s: int|
                0 <= s < rg.len() && (#[trigger] rg[s]) is Some ==> ar_prof(ar, rg[s].unwrap())
                    <= d + 1
            &&& forall|t2: int, k: nat|
                #[trigger] dist_at_most(ad, s0 as int, t2, k) && k < d ==> 0 <= t2 < rg.len()
                    && rg[t2] is Some && ar_prof(ar, rg[t2].unwrap()) <= k
            &&& forall|s: int|
                0 <= s < rg.len() && (#[trigger] rg[s]) is Some && !stato_in_frontiera(
                    ar,
                    lf0,
                    s,
                ) && s != st ==> chiuso(ad, g0, ar, rg, s)
        }),
{
    let idx = lft[0];
    let st = ar[idx as int].stato as int;
    let d = ar[idx as int].profondita as nat;
    let lf0 = lft.drop_first();
    assert(rg[st] == Some(idx));
    assert(dist_at_most(ad, s0 as int, st, d));
    if d > 0 {
        lemma_dist_bound(ad, s0 as int, st, d);
        if n - 1 <= d - 1 {
            lemma_dist_monotone(ad, s0 as int, st, (n - 1) as nat, (d - 1) as nat);
        }
    }
    assert(d < n);
    assert forall|q: int| 0 <= q < lf0.len() implies ar_prof(ar, #[trigger] lf0[q]) >= d
        && ar_prof(ar, lf0[q]) <= d + 1 by {
        assert(lft[q + 1] == lf0[q]);
        assert(ar[lft[0] as int].profondita <= ar[lft[q + 1] as int].profondita);
        assert(ar[lft[q + 1] as int].profondita <= ar[lft.last() as int].profondita);
    };
    assert(!stato_in_frontiera(ar, lf0, st)) by {
        if stato_in_frontiera(ar, lf0, st) {
            let q = choose|q: int|
                0 <= q < lf0.len() && ar[(#[trigger] lf0[q]) as int].stato == st;
            assert(lft[q + 1] == lf0[q]);
            assert(ar[lft[0] as int].stato != ar[lft[q + 1] as int].stato);
        }
    };
    assert forall|s: int|
        0 <= s < rg.len() && (#[trigger] rg[s]) is Some && !stato_in_frontiera(ar, lf0, s) && s
            != st implies chiuso(ad, g0, ar, rg, s) by {
        assert(!stato_in_frontiera(ar, lft, s)) by {
            if stato_in_frontiera(ar, lft, s) {
                let q = choose|q: int|
                    0 <= q < lft.len() && ar[(#[trigger] lft[q]) as int].stato == s;
                if q == 0 {
                    assert(s == st);
                } else {
                    assert(lf0[q - 1] == lft[q]);
                    assert(stato_in_frontiera(ar, lf0, s));
                }
            }
        };
    };
}


/// A generated child carrying the goal state closes the search: its depth
/// is exactly one past the expanded entry, which is the minimum distance.
#[verifier::rlimit(100)]
#[verifier::spinoff_prover]
pub(crate) proof fn lemma_bfs_trovato(
    az: Seq<Seq<Action>>,
    ad: Seq<Seq<u32>>,
    s0: State,
    g0: State,
    ar: Seq<SearchNode>,
    rg: Seq<Option<usize>>,
    lf: Seq<usize>,
    d: nat,
    st: int,
    idx: usize,
    f: SearchNode,
    j: int,
)
    requires
        adj_wf(ad),
        rg.len() == ad.len(),
        ad.len() == az.len(),
        forall|s: int, jj: int|
            0 <= s < az.len() && 0 <= jj < az[s].len() ==> ad[s].len() == az[s].len() && (
            #[trigger] ad[s][jj]) == az[s][jj].risultato,
        arena_ok(az, ar),
        bfs_raggiunti_ok(ad, s0, ar, rg),
        forall|q: int|
            0 <= q < lf.len() ==> {
                let i = (#[trigger] lf[q]) as int;
                &&& 0 <= i < ar.len()
                &&& (ar[i].stato as int) < rg.len()
                &&& rg[ar[i].stato as int] == Some(lf[q])
                &&& ar_prof(ar, lf[q]) >= d
            },
        forall|t2: int, k: nat|
            #[trigger] dist_at_most(ad, s0 as int, t2, k) && k < d ==> 0 <= t2 < rg.len()
                && rg[t2] is Some && ar_prof(ar, rg[t2].unwrap()) <= k,
        forall|s: int|
            0 <= s < rg.len() && (#[trigger] rg[s]) is Some && !stato_in_frontiera(ar, lf, s)
                && s != st ==> chiuso(ad, g0, ar, rg, s),
        0 <= (s0 as int) < rg.len(),
        0 <= (g0 as int) < rg.len(),
        rg[s0 as int] is Some,
        rg[g0 as int] is None,
        0 <= st < rg.len(),
        rg[st] == Some(idx),
        (idx as int) < ar.len(),
        ar_prof(ar, idx) == d,
        ar[idx as int].stato == st,
        0 <= j < az[st].len(),
        f.stato == az[st][j].risultato,
        f.stato == g0,
        f.genitore == Some(idx),
        f.profondita == d + 1,
        f.costo_cammino as int == sat_add_i32(
            ar[idx as int].costo_cammino as int,
            az[st][j].costo as int,
        ),
    ensures
        arena_ok(az, ar.push(f)),
        radice(ar.push(f), ar.len() as int) == s0,
        dist_at_most(ad, s0 as int, g0 as int, (d + 1) as nat),
        forall|k: nat| k <= d ==> !(#[trigger] dist_at_most(ad, s0 as int, g0 as int, k)),
        reachable(ad, s0 as int, g0 as int),
{
    let ar1 = ar.push(f);
    assert(link_ok(az, ar1, ar.len() as int)) by {
        assert(0 <= j < az[ar1[idx as int].stato as int].len() && az[ar1[
            idx as int
        ].stato as int][j].risultato == f.stato && f.costo_cammino as int == sat_add_i32(
            ar1[idx as int].costo_cammino as int,
            az[ar1[idx as int].stato as int][j].costo as int,
        ));
    }
    lemma_arena_push(az, ar, f);
    lemma_catene(az, ar);
    lemma_radice_stabile(ar, ar1, idx as int);
    assert(radice(ar1, ar.len() as int) == radice(ar1, idx as int));
    assert(radice(ar, idx as int) == s0);
    lemma_nuovo_lontano(ad, s0, g0, ar, rg, lf, d, st, g0 as int);
    assert(dist_at_most(ad, s0 as int, st, d));
    assert(az[st][j].risultato == g0);
    assert(ad[st][j] == az[st][j].risultato);
    assert(ad[st].len() == az[st].len());
    assert(step(ad, st, g0 as int)) by {
        assert(0 <= j < ad[st].len() && (ad[st][j]) as int == g0 as int);
    }
    lemma_dist_extend(ad, s0 as int, st, d, g0 as int);
}


/// Recording a newly generated child restores every invariant of the
/// breadth-first loop: the child joins the arena, the reached table and the
/// frontier tail at depth one past the expanded entry.
#[verifier::rlimit(100)]
#[verifier::spinoff_prover]
pub(crate) proof fn lemma_bfs_inserisci(
    az: Seq<Seq<Action>>,
    ad: Seq<Seq<u32>>,
    s0: State,
    g0: State,
    ar: Seq<SearchNode>,
    rg: Seq<Option<usize>>,
    lf: Seq<usize>,
    d: nat,
    st: int,
    idx: usize,
    f: SearchNode,
    j: int,
    ni: usize,
)
    requires
        adj_wf(ad),
        rg.len() == ad.len(),
        ad.len() == az.len(),
        forall|s: int, jj: int|
            0 <= s < az.len() && 0 <= jj < az[s].len() ==> ad[s].len() == az[s].len() && (
            #[trigger] ad[s][jj]) == az[s][jj].risultato,
        arena_ok(az, ar),
        bfs_raggiunti_ok(ad, s0, ar, rg),
        bfs_frontiera_ok(ar, rg, lf),
        forall|q: int|
            0 <= q < lf.len() ==> ar_prof(ar, #[trigger] lf[q]) >= d && ar_prof(ar, lf[q]) <= d
                + 1,
        forall|s: int|
            0 <= s < rg.len() && (#[trigger] rg[s]) is Some ==> ar_prof(ar, rg[s].unwrap()) <= d
                + 1,
        forall|t2: int, k: nat|
            #[trigger] dist_at_most(ad, s0 as int, t2, k) && k < d ==> 0 <= t2 < rg.len()
                && rg[t2] is Some && ar_prof(ar, rg[t2].unwrap()) <= k,
        forall|s: int|
            0 <= s < rg.len() && (#[trigger] rg[s]) is Some && !stato_in_frontiera(ar, lf, s)
                && s != st ==> chiuso(ad, g0, ar, rg, s),
        0 <= (s0 as int) < rg.len(),
        0 <= (g0 as int) < rg.len(),
        rg[s0 as int] is Some,
        rg[g0 as int] is None,
        0 <= st < rg.len(),
        rg[st] == Some(idx),
        (idx as int) < ar.len(),
        ar_prof(ar, idx) == d,
        ar[idx as int].stato == st,
        0 <= j < az[st].len(),
        f.stato == az[st][j].risultato,
        f.genitore == Some(idx),
        f.profondita == d + 1,
        f.costo_cammino as int == sat_add_i32(
            ar[idx as int].costo_cammino as int,
            az[st][j].costo as int,
        ),
        (f.stato as int) != g0 as int,
        (f.stato as int) < rg.len(),
        rg[f.stato as int] is None,
        ni as int == ar.len(),
    ensures
        ({
            let ar1 = ar.push(f);
            let rg1 = rg.update(f.stato as int, Some(ni));
            let lf1 = lf.push(ni);
            &&& arena_ok(az, ar1)
            &&& bfs_raggiunti_ok(ad, s0, ar1, rg1)
            &&& bfs_frontiera_ok(ar1, rg1, lf1)
            &&& forall|q: int|
                0 <= q < lf1.len() ==> ar_prof(ar1, #[trigger] lf1[q]) >= d && ar_prof(
                    ar1,
                    lf1[q],
                ) <= d + 1
            &&& forall|s: int|
                0 <= s < rg1.len() && (#[trigger] rg1[s]) is Some ==> ar_prof(
                    ar1,
                    rg1[s].unwrap(),
                ) <= d + 1
            &&& forall|t2: int, k: nat|
                #[trigger] dist_at_most(ad, s0 as int, t2, k) && k < d ==> 0 <= t2 < rg1.len()
                    && rg1[t2] is Some && ar_prof(ar1, rg1[t2].unwrap()) <= k
            &&& forall|s: int|
                0 <= s < rg1.len() && (#[trigger] rg1[s]) is Some && !stato_in_frontiera(
                    ar1,
                    lf1,
                    s,
                ) && s != st ==> chiuso(ad, g0, ar1, rg1, s)
            &&& rg1[s0 as int] is Some
            &&& rg1[g0 as int] is None
            &&& rg1[st] == Some(idx)
            &&& conta_vuoti(rg1) + 1 == conta_vuoti(rg)
        }),
{
    let ar1 = ar.push(f);
    let rg1 = rg.update(f.stato as int, Some(ni));
    let lf1 = lf.push(ni);
    assert(ad[st][j] == f.stato);
    assert(step(ad, st, f.stato as int)) by {
        assert(0 <= j < ad[st].len() && ad[st][j] == f.stato as int);
    }
    assert(link_ok(az, ar1, ar.len() as int)) by {
        assert(0 <= j < az[ar1[idx as int].stato as int].len() && az[ar1[
            idx as int
        ].stato as int][j].risultato == f.stato && f.costo_cammino as int == sat_add_i32(
            ar1[idx as int].costo_cammino as int,
            az[ar1[idx as int].stato as int][j].costo as int,
        ));
    }
    lemma_arena_push(az, ar, f);
    lemma_catene(az, ar);
    lemma_nuovo_lontano(ad, s0, g0, ar, rg, lf, d, st, f.stato as int);
    assert(dist_at_most(ad, s0 as int, st, d));
    lemma_dist_extend(ad, s0 as int, st, d, f.stato as int);
    lemma_conta_vuoti_riempi(rg, f.stato as int, ni);
    // The reached table keeps every old chain and gains the child's.
    assert forall|s: int| 0 <= s < rg1.len() && (#[trigger] rg1[s]) is Some implies {
        let i = rg1[s].unwrap() as int;
        &&& 0 <= i < ar1.len()
        &&& ar1[i].stato == s
        &&& radice(ar1, i) == s0
        &&& dist_at_most(ad, s0 as int, s, ar1[i].profondita as nat)
        &&& (ar1[i].profondita > 0 ==> !dist_at_most(
            ad,
            s0 as int,
            s,
            (ar1[i].profondita - 1) as nat,
        ))
    } by {
        if s == f.stato as int {
            assert(ar1[ni as int] == f);
            lemma_radice_stabile(ar, ar1, idx as int);
            assert(radice(ar1, ni as int) == radice(ar1, idx as int));
            assert(radice(ar, idx as int) == s0);
        } else {
            let i = rg[s].unwrap() as int;
            assert(ar1[i] == ar[i]);
            lemma_radice_stabile(ar, ar1, i);
        }
    };
    // Frontier links, order, span and distinctness.
    assert forall|q: int| 0 <= q < lf1.len() implies {
        let i = (#[trigger] lf1[q]) as int;
        &&& i < ar1.len()
        &&& (ar1[i].stato as int) < rg1.len()
        &&& rg1[ar1[i].stato as int] == Some(lf1[q])
        &&& ar_prof(ar1, lf1[q]) >= d
        &&& ar_prof(ar1, lf1[q]) <= d + 1
    } by {
        if q < lf.len() {
            assert(lf1[q] == lf[q]);
            assert(ar1[lf[q] as int] == ar[lf[q] as int]);
            assert(ar[lf[q] as int].stato as int != f.stato as int);
        } else {
            assert(lf1[q] == ni);
            assert(ar1[ni as int] == f);
        }
    };
    assert forall|q1: int, q2: int| 0 <= q1 <= q2 < lf1.len() implies ar1[(
    #[trigger] lf1[q1]) as int].profondita <= ar1[(#[trigger] lf1[q2]) as int].profondita by {
        if q2 < lf.len() {
            assert(ar1[lf[q1] as int] == ar[lf[q1] as int]);
            assert(ar1[lf[q2] as int] == ar[lf[q2] as int]);
        } else if q1 < lf.len() {
            assert(ar_prof(ar1, lf1[q1]) <= d + 1);
            assert(ar1[ni as int].profondita == d + 1);
        }
    };
    assert forall|q1: int, q2: int| 0 <= q1 < q2 < lf1.len() implies ar1[(
    #[trigger] lf1[q1]) as int].stato != ar1[(#[trigger] lf1[q2]) as int].stato by {
        if q2 < lf.len() {
            assert(ar1[lf[q1] as int] == ar[lf[q1] as int]);
            assert(ar1[lf[q2] as int] == ar[lf[q2] as int]);
        } else {
            assert(ar1[lf1[q2] as int].stato == f.stato);
            assert(rg[ar[lf1[q1] as int].stato as int] is Some);
        }
    };
    assert(lf1.len() > 0 ==> ar1[lf1.last() as int].profondita <= ar1[lf1[0] as int].profondita
        + 1);
    // Completeness below depth d is untouched: the child lies farther out.
    assert forall|t2: int, k: nat|
        #[trigger] dist_at_most(ad, s0 as int, t2, k) && k < d implies 0 <= t2 < rg1.len()
            && rg1[t2] is Some && ar_prof(ar1, rg1[t2].unwrap()) <= k by {
        if t2 == f.stato as int {
            assert(!dist_at_most(ad, s0 as int, t2, k));
        } else {
            assert(rg1[t2] == rg[t2]);
            assert(ar1[rg[t2].unwrap() as int] == ar[rg[t2].unwrap() as int]);
        }
    };
    // Closure of off-frontier states other than the expanded one.
    assert forall|s: int|
        0 <= s < rg1.len() && (#[trigger] rg1[s]) is Some && !stato_in_frontiera(ar1, lf1, s)
            && s != st implies chiuso(ad, g0, ar1, rg1, s) by {
        if s == f.stato as int {
            assert(ar1[lf1[lf1.len() - 1] as int].stato == s);
            assert(stato_in_frontiera(ar1, lf1, s));
        } else {
            assert(!stato_in_frontiera(ar, lf, s)) by {
                if stato_in_frontiera(ar, lf, s) {
                    let q = choose|q: int|
                        0 <= q < lf.len() && ar[(#[trigger] lf[q]) as int].stato == s;
                    assert(lf1[q] == lf[q]);
                    assert(ar1[lf[q] as int] == ar[lf[q] as int]);
                    assert(stato_in_frontiera(ar1, lf1, s));
                }
            };
            assert(chiuso(ad, g0, ar, rg, s));
            assert forall|jj: int| 0 <= jj < ad[s].len() implies {
                let t = (#[trigger] ad[s][jj]) as int;
                &&& t != g0 as int
                &&& 0 <= t < rg1.len()
                &&& rg1[t] is Some
                &&& ar1[rg1[t].unwrap() as int].profondita <= ar1[rg1[s].unwrap() as int].profondita
                    + 1
            } by {
                let t = (ad[s][jj]) as int;
                assert(rg[t] is Some);
                assert(t != f.stato as int);
                assert(ar1[rg[t].unwrap() as int] == ar[rg[t].unwrap() as int]);
                assert(ar1[rg[s].unwrap() as int] == ar[rg[s].unwrap() as int]);
            };
        }
    };
}

/// The state of a breadth-first expansion while the children of the entry
/// `idx` (state `st`, depth `d`) are being processed: the arena has only
/// grown, chains and frontier order are intact, everything nearer than `d`
/// is reached, and every off-frontier reached state except `st` is closed.
pub(crate) open spec fn bfs_mid(
    az: Seq<Seq<Action>>,
    ad: Seq<Seq<u32>>,
    s0: State,
    g0: State,
    arena0: Seq<SearchNode>,
    idx: usize,
    st: int,
    d: nat,
    ar: Seq<SearchNode>,
    rg: Seq<Option<usize>>,
    lf: Seq<usize>,
) -> bool {
    &&& rg.len() == ad.len()
    &&& ar.len() >= arena0.len()
    &&& (forall|k: int| 0 <= k < arena0.len() ==> #[trigger] ar[k] == arena0[k])
    &&& arena_ok(az, ar)
    &&& bfs_raggiunti_ok(ad, s0, ar, rg)
    &&& bfs_frontiera_ok(ar, rg, lf)
    &&& (forall|q: int|
        0 <= q < lf.len() ==> ar_prof(ar, #[trigger] lf[q]) >= d && ar_prof(ar, lf[q]) <= d + 1)
    &&& (forall|s: int|
        0 <= s < rg.len() && (#[trigger] rg[s]) is Some ==> ar_prof(ar, rg[s].unwrap()) <= d + 1)
    &&& (forall|t2: int, k: nat|
        #[trigger] dist_at_most(ad, s0 as int, t2, k) && k < d ==> 0 <= t2 < rg.len()
            && rg[t2] is Some && ar_prof(ar, rg[t2].unwrap()) <= k)
    &&& (forall|s: int|
        0 <= s < rg.len() && (#[trigger] rg[s]) is Some && !stato_in_frontiera(ar, lf, s) && s
            != st ==> chiuso(ad, g0, ar, rg, s))
    &&& 0 <= (s0 as int) < rg.len()
    &&& 0 <= (g0 as int) < rg.len()
    &&& rg[s0 as int] is Some
    &&& rg[g0 as int] is None
    &&& 0 <= st < rg.len()
    &&& rg[st] == Some(idx)
    &&& (idx as int) < arena0.len()
    &&& ar[idx as int].stato == st
    &&& ar_prof(ar, idx) == d
    &&& !stato_in_frontiera(ar, lf, st)
}


/// The joint invariant of the breadth-first loop over the logical frontier.
pub(crate) open spec fn bfs_inv(
    ad: Seq<Seq<u32>>,
    s0: State,
    g0: State,
    ar: Seq<SearchNode>,
    rg: Seq<Option<usize>>,
    lf: Seq<usize>,
) -> bool {
    &&& rg.len() == ad.len()
    &&& 0 <= (s0 as int) < rg.len()
    &&& 0 <= (g0 as int) < rg.len()
    &&& bfs_raggiunti_ok(ad, s0, ar, rg)
    &&& bfs_frontiera_ok(ar, rg, lf)
    &&& bfs_chiusura_ok(ad, g0, ar, rg, lf)
    &&& bfs_completezza_ok(ad, s0, ar, rg, lf)
    &&& bfs_prof_limite(ar, rg, lf)
    &&& rg[s0 as int] is Some
    &&& rg[g0 as int] is None
}

/// The outcome of the recursive bounded exploration, as an arena index.
pub(crate) enum RisInterno {
    Trovato(usize),
    Fallito,
    Tagliato,
}

impl Problem {
    /// Recursive depth-first exploration bounded by `limite`: a goal node is
    /// found exactly when the goal lies within the remaining budget; the
    /// bound was hit exactly when some goal-avoiding path uses it all up.
    #[verifier::loop_isolation(false)]
    #[verifier::rlimit(100)]
    #[verifier::spinoff_prover]
    fn recursive_depth_limited(
        &self,
        arena: &mut Vec<SearchNode>,
        i: usize,
        limite: usize,
        rem: Ghost<nat>,
    ) -> (r: RisInterno)
        requires
            self.wf(),
            arena_ok(self.grafo.az(), old(arena)@),
            (i as int) < old(arena)@.len(),
            old(arena)@[i as int].profondita <= limite,
            rem@ == limite - old(arena)@[i as int].profondita,
            dist_at_most(
                self.adiacenze(),
                radice(old(arena)@, i as int) as int,
                old(arena)@[i as int].stato as int,
                old(arena)@[i as int].profondita as nat,
            ),
        ensures
            ({
                let az = self.grafo.az();
                let ad = self.adiacenze();
                let g0 = self.stato_finale;
                let st = old(arena)@[i as int].stato as int;
                let r0 = radice(old(arena)@, i as int);
                &&& final(arena)@.len() >= old(arena)@.len()
                &&& (forall|k: int|
                    0 <= k < old(arena)@.len() ==> #[trigger] final(arena)@[k] == old(
                        arena,
                    )@[k])
                &&& arena_ok(az, final(arena)@)
                &&& ((r is Trovato) <==> dist_at_most(ad, st, g0 as int, rem@))
                &&& ((r is Tagliato) <==> (!dist_at_most(ad, st, g0 as int, rem@) && cut_at(
                    ad,
                    st,
                    g0 as int,
                    rem@,
                )))
                &&& ((r is Fallito) <==> (!dist_at_most(ad, st, g0 as int, rem@) && !cut_at(
                    ad,
                    st,
                    g0 as int,
                    rem@,
                )))
                &&& match r {
                    RisInterno::Trovato(fi) => {
                        &&& (fi as int) < final(arena)@.len()
                        &&& final(arena)@[fi as int].stato == g0
                        &&& final(arena)@[fi as int].profondita <= limite
                        &&& radice(final(arena)@, fi as int) == r0
                        &&& dist_at_most(
                            ad,
                            r0 as int,
                            g0 as int,
                            final(arena)@[fi as int].profondita as nat,
                        )
                        &&& (st == g0 as int ==> fi == i)
                    },
                    _ => true,
                }
            }),
        decreases rem@,
    {
        let ghost az = self.grafo.az();
        let ghost ad = self.adiacenze();
        let g0 = self.stato_finale;
        let nodo = arena[i];
        let ghost st = nodo.stato as int;
        let ghost r0 = radice(arena@, i as int);
        proof {
            lemma_adiacenze_wf(self.grafo);
            assert(link_ok(az, arena@, i as int));
            assert forall|s2: int, jj: int|
                0 <= s2 < az.len() && 0 <= jj < az[s2].len() implies ad[s2].len() == az[s2].len()
                    && (#[trigger] ad[s2][jj]) == az[s2][jj].risultato by {
                lemma_passo_da_azione(self.grafo, s2, jj);
            };
        }
        if nodo.stato == g0 {
            proof {
                assert(dist_at_most(ad, st, g0 as int, rem@));
            }
            return RisInterno::Trovato(i);
        }
        if nodo.profondita == limite {
            proof {
                assert(rem@ == 0);
                assert(cut_at(ad, st, g0 as int, 0nat));
            }
            return RisInterno::Tagliato;
        }
        let figli = self.espandi(&arena, i);
        let ghost arena0 = arena@;
        proof {
            assert(sat_inc(nodo.profondita as int) == nodo.profondita + 1);
        }
        let mut taglio = false;
        let mut j: usize = 0;
        while j < figli.len()
            invariant
                0 <= j <= figli@.len(),
                arena@.len() >= arena0.len(),
                forall|k: int| 0 <= k < arena0.len() ==> #[trigger] arena@[k] == arena0[k],
                arena_ok(az, arena@),
                forall|jj: int|
                    0 <= jj < j ==> !(#[trigger] dist_at_most(
                        ad,
                        (az[st][jj].risultato) as int,
                        g0 as int,
                        (rem@ - 1) as nat,
                    )),
                taglio <==> exists|jj: int|
                    0 <= jj < j && #[trigger] cut_at(
                        ad,
                        (az[st][jj].risultato) as int,
                        g0 as int,
                        (rem@ - 1) as nat,
                    ),
            decreases figli@.len() - j,
        {
            let f = figli[j];
            let ni = arena.len();
            proof {
                assert(link_ok(az, arena@.push(f), arena@.len() as int)) by {
                    assert(arena@[i as int] == arena0[i as int]);
                    assert(az[st][j as int].risultato == f.stato);
                };
                lemma_arena_push(az, arena@, f);
                lemma_catene(az, arena@);
                lemma_radice_stabile(arena@, arena@.push(f), i as int);
                assert(step(ad, st, f.stato as int)) by {
                    assert(0 <= (j as int) < ad[st].len() && (ad[st][j as int]) as int
                        == f.stato as int);
                };
                lemma_dist_extend(ad, r0 as int, st, nodo.profondita as nat, f.stato as int);
            }
            arena.push(f);
            proof {
                lemma_catene(az, arena@);
                assert(catene_ok(arena0)) by {
                    assert forall|k: int| 0 <= k < arena0.len() implies match (
                    #[trigger] arena0[k]).genitore {
                        Option::None => true,
                        Option::Some(p) => 0 <= (p as int) < k,
                    } by {
                        assert(arena@[k] == arena0[k]);
                        assert(catene_ok(arena@));
                    }
                };
                lemma_radice_stabile(arena0, arena@, i as int);
                assert(radice(arena@, ni as int) == radice(arena@, i as int));
                assert(radice(arena@, ni as int) == radice(arena0, i as int));
            }
            let esito = self.recursive_depth_limited(arena, ni, limite, Ghost((rem@ - 1) as nat));
            match esito {
                RisInterno::Trovato(fi) => {
                    proof {
                        assert(dist_at_most(ad, f.stato as int, g0 as int, (rem@ - 1) as nat));
                        assert(step(ad, st, f.stato as int) && dist_at_most(
                            ad,
                            f.stato as int,
                            g0 as int,
                            (rem@ - 1) as nat,
                        ));
                        assert(dist_at_most(ad, st, g0 as int, rem@));
                    }
                    return RisInterno::Trovato(fi);
                },
                RisInterno::Tagliato => {
                    taglio = true;
                    proof {
                        assert(cut_at(ad, (az[st][j as int].risultato) as int, g0 as int, (rem@
                            - 1) as nat));
                    }
                },
                RisInterno::Fallito => {
                },
            }
            j = j + 1;
        }
        proof {
            assert(!dist_at_most(ad, st, g0 as int, rem@)) by {
                if dist_at_most(ad, st, g0 as int, rem@) {
                    let m = choose|m: int|
                        #[trigger] step(ad, st, m) && dist_at_most(
                            ad,
                            m,
                            g0 as int,
                            (rem@ - 1) as nat,
                        );
                    let q = choose|q: int| 0 <= q < ad[st].len() && (#[trigger] ad[st][q]) == m;
                    assert(az[st][q].risultato == m);
                    assert(!dist_at_most(ad, m, g0 as int, (rem@ - 1) as nat));
                }
            };
            if taglio {
                let jj = choose|jj: int|
                    0 <= jj < figli@.len() && #[trigger] cut_at(
                        ad,
                        (az[st][jj].risultato) as int,
                        g0 as int,
                        (rem@ - 1) as nat,
                    );
                assert(step(ad, st, (az[st][jj].risultato) as int)) by {
                    assert(0 <= jj < ad[st].len() && (ad[st][jj]) as int == (az[st][
                        jj
                    ].risultato) as int);
                };
                assert(cut_at(ad, st, g0 as int, rem@));
            } else {
                assert(!cut_at(ad, st, g0 as int, rem@)) by {
                    if cut_at(ad, st, g0 as int, rem@) {
                        let m = choose|m: int|
                            #[trigger] step(ad, st, m) && cut_at(
                                ad,
                                m,
                                g0 as int,
                                (rem@ - 1) as nat,
                            );
                        let q = choose|q: int|
                            0 <= q < ad[st].len() && (#[trigger] ad[st][q]) == m;
                        assert(az[st][q].risultato == m);
                    }
                };
            }
        }
        if taglio {
            RisInterno::Tagliato
        } else {
            RisInterno::Fallito
        }
    }

    /// Depth-limited search with the problem's current limit: a goal node
    /// within the limit is found exactly when one exists; the search is cut
    /// off exactly when no goal lies within the limit but some goal-avoiding
    /// path exhausts it; otherwise the bounded space is exhausted for good.
    #[verifier::rlimit(50)]
    pub fn depth_limited_search(&mut self) -> (r: SearchResult)
        requires
            old(self).wf(),
        ensures
            *final(self) == *old(self),
            ({
                let ad = old(self).adiacenze();
                let s0 = old(self).stato_iniziale as int;
                let g0 = old(self).stato_finale as int;
                let lim = old(self).limite as nat;
                &&& ((r is Found) <==> dist_at_most(ad, s0, g0, lim))
                &&& ((r is CutOff) <==> (!dist_at_most(ad, s0, g0, lim) && cut_at(
                    ad,
                    s0,
                    g0,
                    lim,
                )))
                &&& ((r is Failure) <==> (!dist_at_most(ad, s0, g0, lim) && !cut_at(
                    ad,
                    s0,
                    g0,
                    lim,
                )))
                &&& match r {
                    SearchResult::Found(nd) => {
                        &&& node_wf(old(self).grafo.az(), nd)
                        &&& node_root(nd) == old(self).stato_iniziale
                        &&& nd.stato == old(self).stato_finale
                        &&& nd.profondita <= old(self).limite
                        &&& dist_at_most(ad, s0, g0, nd.profondita as nat)
                        &&& (old(self).stato_iniziale == old(self).stato_finale
                            ==> nd.profondita == 0)
                    },
                    _ => true,
                }
            }),
    {
        let s0 = self.stato_iniziale;
        let radice_nodo = SearchNode { stato: s0, genitore: None, costo_cammino: 0, profondita: 0 };
        let mut arena: Vec<SearchNode> = Vec::new();
        arena.push(radice_nodo);
        let ghost az = self.grafo.az();
        let ghost ad = self.adiacenze();
        proof {
            assert(arena_ok(az, arena@)) by {
                assert(link_ok(az, arena@, 0));
            }
            assert(radice(arena@, 0) == s0);
            assert(dist_at_most(ad, s0 as int, s0 as int, 0nat));
        }
        let limite = self.limite;
        let esito = self.recursive_depth_limited(&mut arena, 0, limite, Ghost(limite as nat));
        match esito {
            RisInterno::Trovato(fi) => {
                let nd = self.costruisci_nodo(&arena, fi);
                SearchResult::Found(nd)
            },
            RisInterno::Tagliato => SearchResult::CutOff,
            RisInterno::Fallito => SearchResult::Failure,
        }
    }

    /// Iterative deepening: runs depth-limited search with the limit set to
    /// 1, 2, 3, ... and returns the first outcome that is not a cutoff.
    /// Once the limit reaches the number of states, a cutoff means every
    /// path to the goal would need more edges than any shortest path can
    /// have, so the goal is unreachable and the search fails. A found node
    /// therefore has the same minimal depth breadth-first search returns.
    #[verifier::rlimit(50)]
    pub fn iterative_deepening_search(&mut self) -> (r: SearchResult)
        requires
            old(self).wf(),
        ensures
            final(self).grafo == old(self).grafo,
            final(self).stato_iniziale == old(self).stato_iniziale,
            final(self).stato_finale == old(self).stato_finale,
            final(self).limite >= 1,
            turni_tagliati(
                old(self).adiacenze(),
                old(self).stato_iniziale,
                old(self).stato_finale,
                final(self).limite as int,
            ),
            esito_minimo(
                old(self).adiacenze(),
                old(self).stato_iniziale,
                old(self).stato_finale,
                r,
            ),
            match r {
                SearchResult::Found(nd) => node_wf(old(self).grafo.az(), nd) && node_root(nd)
                    == old(self).stato_iniziale,
                _ => true,
            },
    {
        let ghost ad = self.adiacenze();
        let ghost az = self.grafo.az();
        let s0 = self.stato_iniziale;
        let g0 = self.stato_finale;
        let n = self.grafo.nodi.len();
        proof {
            lemma_adiacenze_wf(self.grafo);
        }
        self.limite = 1;
        loop
            invariant
                self.wf(),
                self.grafo == old(self).grafo,
                self.stato_iniziale == old(self).stato_iniziale,
                self.stato_finale == old(self).stato_finale,
                s0 == self.stato_iniziale,
                g0 == self.stato_finale,
                ad == self.adiacenze(),
                az == self.grafo.az(),
                adj_wf(ad),
                n == self.grafo.nodi@.len(),
                ad.len() == n,
                n >= 1,
                1 <= self.limite <= n,
                ad == old(self).adiacenze(),
                s0 == old(self).stato_iniziale,
                g0 == old(self).stato_finale,
                turni_tagliati(ad, s0, g0, self.limite as int),
            decreases n - self.limite,
        {
            let esito = self.depth_limited_search();
            let ghost lim = self.limite as nat;
            match esito {
                SearchResult::CutOff => {
                    proof {
                        assert(!dist_at_most(ad, s0 as int, g0 as int, lim));
                        assert(cut_at(ad, s0 as int, g0 as int, lim));
                        assert(turni_tagliati(ad, s0, g0, self.limite + 1)) by {
                            assert forall|lp: nat| 1 <= lp < self.limite + 1 implies !(
                            #[trigger] dist_at_most(ad, s0 as int, g0 as int, lp)) && cut_at(
                                ad,
                                s0 as int,
                                g0 as int,
                                lp,
                            ) by {
                                if lp < self.limite {
                                    assert(turni_tagliati(ad, s0, g0, self.limite as int));
                                } else {
                                    assert(lp == lim);
                                }
                            };
                        };
                    }
                    if self.limite >= n {
                        proof {
                            if reachable(ad, s0 as int, g0 as int) {
                                let k = choose|k: nat|
                                    dist_at_most(ad, s0 as int, g0 as int, k);
                                lemma_dist_bound(ad, s0 as int, g0 as int, k);
                                lemma_dist_monotone(
                                    ad,
                                    s0 as int,
                                    g0 as int,
                                    (n - 1) as nat,
                                    lim,
                                );
                            }
                        }
                        return SearchResult::Failure;
                    }
                    self.limite = self.limite + 1;
                },
                SearchResult::Found(nd) => {
                    proof {
                        assert(dist_at_most(ad, s0 as int, g0 as int, nd.profondita as nat));
                        assert(reachable(ad, s0 as int, g0 as int));
                        assert forall|k: nat| k < nd.profondita implies !(
                        #[trigger] dist_at_most(ad, s0 as int, g0 as int, k)) by {
                            if dist_at_most(ad, s0 as int, g0 as int, k) {
                                if nd.profondita == 0 {
                                } else {
                                    assert(s0 != g0) by {
                                        if s0 == g0 {
                                            assert(nd.profondita == 0);
                                        }
                                    };
                                    if lim > 1 {
                                        if k <= lim - 1 {
                                            lemma_dist_monotone(
                                                ad,
                                                s0 as int,
                                                g0 as int,
                                                k,
                                                (lim - 1) as nat,
                                            );
                                            assert(!dist_at_most(
                                                ad,
                                                s0 as int,
                                                g0 as int,
                                                (lim - 1) as nat,
                                            ));
                                        }
                                    } else {
                                        assert(k == 0);
                                        assert(s0 == g0);
                                    }
                                }
                            }
                        };
                    }
                    return SearchResult::Found(nd);
                },
                SearchResult::Failure => {
                    proof {
                        if reachable(ad, s0 as int, g0 as int) {
                            let k = choose|k: nat| dist_at_most(ad, s0 as int, g0 as int, k);
                            crate::reach::lemma_cut_from_far_path(
                                ad,
                                s0 as int,
                                g0 as int,
                                lim,
                                k,
                            );
                        }
                    }
                    return SearchResult::Failure;
                },
            }
        }
    }
}

/// Two searches that both return a goal node of minimum depth exactly when
/// the goal is reachable agree on their outcome: iterative deepening finds
/// a node of the same depth as breadth-first search, and fails exactly when
/// breadth-first search fails.
pub proof fn lemma_ricerche_minime_concordano(
    adia: Seq<Seq<u32>>,
    s0: State,
    g0: State,
    r1: SearchResult,
    r2: SearchResult,
)
    requires
        esito_minimo(adia, s0, g0, r1),
        esito_minimo(adia, s0, g0, r2),
    ensures
        (r1 is Found) <==> (r2 is Found),
        (r1 is Failure) <==> (r2 is Failure),
        match (r1, r2) {
            (SearchResult::Found(n1), SearchResult::Found(n2)) => n1.profondita
                == n2.profondita,
            _ => true,
        },
{
    match (r1, r2) {
        (SearchResult::Found(n1), SearchResult::Found(n2)) => {
            if n1.profondita < n2.profondita {
                assert(!dist_at_most(adia, s0 as int, g0 as int, n1.profondita as nat));
            }
            if n2.profondita < n1.profondita {
                assert(!dist_at_most(adia, s0 as int, g0 as int, n2.profondita as nat));
            }
        },
        _ => {},
    }
}


/// The termination potential of a reached entry for uniform-cost search:
/// an unreached state outweighs any recorded cost; a reached state counts
/// its recorded cost's distance from the lower saturation bound, which a
/// cost-improving replacement strictly shrinks.
pub(crate) open spec fn pot_entry(ar: Seq<SearchNode>, e: Option<usize>) -> nat {
    match e {
        Option::None => 0x1_0000_0001nat,
        Option::Some(i) => if (i as int) < ar.len() {
            (ar[i as int].costo_cammino - i32::MIN) as nat
        } else {
            0
        },
    }
}

pub(crate) open spec fn pot_sum(ar: Seq<SearchNode>, rg: Seq<Option<usize>>) -> nat
    decreases rg.len(),
{
    if rg.len() == 0 {
        0
    } else {
        pot_sum(ar, rg.drop_last()) + pot_entry(ar, rg.last())
    }
}

pub(crate) proof fn lemma_pot_sum_update(
    ar: Seq<SearchNode>,
    rg: Seq<Option<usize>>,
    i: int,
    v: Option<usize>,
)
    requires
        0 <= i < rg.len(),
    ensures
        pot_sum(ar, rg.update(i, v)) + pot_entry(ar, rg[i]) == pot_sum(ar, rg) + pot_entry(
            ar,
            v,
        ),
    decreases rg.len(),
{
    let rg2 = rg.update(i, v);
    if i == rg.len() - 1 {
        assert(rg2.drop_last() =~= rg.drop_last());
    } else {
        assert(rg2.drop_last() =~= rg.drop_last().update(i, v));
        lemma_pot_sum_update(ar, rg.drop_last(), i, v);
    }
}

pub(crate) proof fn lemma_pot_sum_estendi(
    ar1: Seq<SearchNode>,
    ar2: Seq<SearchNode>,
    rg: Seq<Option<usize>>,
)
    requires
        ar1.len() <= ar2.len(),
        forall|k: int| 0 <= k < ar1.len() ==> #[trigger] ar2[k] == ar1[k],
        forall|s: int|
            0 <= s < rg.len() && (#[trigger] rg[s]) is Some ==> (rg[s].unwrap() as int)
                < ar1.len(),
    ensures
        pot_sum(ar2, rg) == pot_sum(ar1, rg),
    decreases rg.len(),
{
    if rg.len() > 0 {
        assert forall|s: int|
            0 <= s < rg.drop_last().len() && (#[trigger] rg.drop_last()[s]) is Some implies (
        rg.drop_last()[s].unwrap() as int) < ar1.len() by {
            assert(rg.drop_last()[s] == rg[s]);
        };
        lemma_pot_sum_estendi(ar1, ar2, rg.drop_last());
        assert(rg.last() == rg[rg.len() - 1]);
    }
}

/// Each reached state records an arena chain rooted at `r0` and is
/// reachable from it.
pub(crate) open spec fn raggiunti_radicati(
    ad: Seq<Seq<u32>>,
    r0: State,
    ar: Seq<SearchNode>,
    rg: Seq<Option<usize>>,
) -> bool {
    &&& rg.len() == ad.len()
    &&& forall|s: int|
        0 <= s < rg.len() && (#[trigger] rg[s]) is Some ==> {
            let i = rg[s].unwrap() as int;
            &&& 0 <= i < ar.len()
            &&& ar[i].stato == s
            &&& radice(ar, i) == r0
            &&& reachable(ad, r0 as int, s)
        }
}

/// Frontier entries carry chains rooted at `r0` over reached states.
pub(crate) open spec fn frontiera_radicata(
    ad: Seq<Seq<u32>>,
    r0: State,
    ar: Seq<SearchNode>,
    rg: Seq<Option<usize>>,
    lf: Seq<usize>,
) -> bool {
    forall|q: int|
        0 <= q < lf.len() ==> {
            let i = (#[trigger] lf[q]) as int;
            &&& i < ar.len()
            &&& (ar[i].stato as int) < rg.len()
            &&& rg[ar[i].stato as int] is Some
            &&& radice(ar, i) == r0
            &&& reachable(ad, r0 as int, ar[i].stato as int)
        }
}

/// Every arena entry's depth is bounded by its own index: a chain must
/// descend through earlier entries, so depths stay below the saturation
/// bound and every link adds exactly one.
pub(crate) open spec fn prof_limitate(ar: Seq<SearchNode>) -> bool {
    forall|i: int| 0 <= i < ar.len() ==> ((#[trigger] ar[i]).profondita as int) <= i
}

/// A reached state is closed for the bidirectional search: every successor
/// is reached (neither side treats the goal specially).
pub(crate) open spec fn chiuso_b(ad: Seq<Seq<u32>>, rg: Seq<Option<usize>>, s: int) -> bool {
    forall|j: int|
        0 <= j < ad[s].len() ==> {
            let t = (#[trigger] ad[s][j]) as int;
            &&& 0 <= t < rg.len()
            &&& rg[t] is Some
        }
}

/// After one side of the bidirectional search pops its head and expands it,
/// every reached state off that side's remaining frontier is closed: the
/// popped state was just closed, new states sit on the frontier tail, and
/// the others were closed before and stay closed as the table only grows.
#[verifier::rlimit(100)]
#[verifier::spinoff_prover]
pub(crate) proof fn lemma_bidir_chiusura(
    ad: Seq<Seq<u32>>,
    ar0: Seq<SearchNode>,
    rg0: Seq<Option<usize>>,
    fr0: Seq<usize>,
    testa0: int,
    ar1: Seq<SearchNode>,
    rg1: Seq<Option<usize>>,
    fr1: Seq<usize>,
    testa1: int,
    st: int,
)
    requires
        rg0.len() == rg1.len(),
        testa1 == testa0 + 1,
        0 <= testa0 < fr0.len(),
        fr1.len() >= fr0.len(),
        forall|q: int| 0 <= q < fr0.len() ==> #[trigger] fr1[q] == fr0[q],
        ar1.len() >= ar0.len(),
        forall|k: int| 0 <= k < ar0.len() ==> #[trigger] ar1[k] == ar0[k],
        forall|q: int| 0 <= q < fr0.len() ==> ((#[trigger] fr0[q]) as int) < ar0.len(),
        forall|q: int| 0 <= q < fr1.len() ==> ((#[trigger] fr1[q]) as int) < ar1.len(),
        st == ar0[fr0[testa0] as int].stato as int,
        forall|s: int|
            0 <= s < rg0.len() && (#[trigger] rg0[s]) is Some && !stato_in_frontiera(
                ar0,
                fr0.skip(testa0),
                s,
            ) ==> chiuso_b(ad, rg0, s),
        forall|s: int|
            0 <= s < rg0.len() && (#[trigger] rg0[s]) is Some ==> rg1[s] is Some,
        chiuso_b(ad, rg1, st),
        forall|s: int|
            0 <= s < rg0.len() && rg0[s] is None && (#[trigger] rg1[s]) is Some ==> exists|q: int|
                fr0.len() <= q < fr1.len() && (ar1[(#[trigger] fr1[q]) as int].stato as int) == s,
    ensures
        forall|s: int|
            0 <= s < rg1.len() && (#[trigger] rg1[s]) is Some && !stato_in_frontiera(
                ar1,
                fr1.skip(testa1),
                s,
            ) ==> chiuso_b(ad, rg1, s),
{
    assert forall|s: int|
        0 <= s < rg1.len() && (#[trigger] rg1[s]) is Some && !stato_in_frontiera(
            ar1,
            fr1.skip(testa1),
            s,
        ) implies chiuso_b(ad, rg1, s) by {
        if s == st {
        } else if rg0[s] is None {
            let q = choose|q: int|
                fr0.len() <= q < fr1.len() && (ar1[(#[trigger] fr1[q]) as int].stato as int)
                    == s;
            assert(fr1.skip(testa1)[q - testa1] == fr1[q]);
            assert(stato_in_frontiera(ar1, fr1.skip(testa1), s));
        } else {
            assert(!stato_in_frontiera(ar0, fr0.skip(testa0), s)) by {
                if stato_in_frontiera(ar0, fr0.skip(testa0), s) {
                    let q = choose|q: int|
                        0 <= q < fr0.skip(testa0).len() && (ar0[(#[trigger] fr0.skip(
                            testa0,
                        )[q]) as int].stato as int) == s;
                    assert(fr0.skip(testa0)[q] == fr0[testa0 + q]);
                    if q == 0 {
                        assert(s == st);
                    } else {
                        assert(fr1.skip(testa1)[q - 1] == fr1[testa1 + q - 1]);
                        assert(fr1[testa0 + q] == fr0[testa0 + q]);
                        assert(ar1[fr0[testa0 + q] as int] == ar0[fr0[testa0 + q] as int]);
                        assert(stato_in_frontiera(ar1, fr1.skip(testa1), s));
                    }
                }
            };
            assert(chiuso_b(ad, rg0, s));
            assert forall|jj: int| 0 <= jj < ad[s].len() implies {
                let t = (#[trigger] ad[s][jj]) as int;
                &&& 0 <= t < rg1.len()
                &&& rg1[t] is Some
            } by {
                let t = (ad[s][jj]) as int;
                assert(rg0[t] is Some);
            };
        }
    };
}

/// A side whose reached states are all closed has reached everything its
/// root can reach.
pub(crate) proof fn lemma_lato_chiuso_raggiunge(
    ad: Seq<Seq<u32>>,
    r0: State,
    obiettivo: int,
    rg: Seq<Option<usize>>,
)
    requires
        0 <= (r0 as int) < rg.len(),
        rg[r0 as int] is Some,
        forall|s: int|
            0 <= s < rg.len() && (#[trigger] rg[s]) is Some ==> chiuso_b(ad, rg, s),
        reachable(ad, r0 as int, obiettivo),
    ensures
        0 <= obiettivo < rg.len() && rg[obiettivo] is Some,
{
    let k = choose|k: nat| dist_at_most(ad, r0 as int, obiettivo, k);
    let p = |x: int| 0 <= x < rg.len() && rg[x] is Some;
    assert forall|x: int, y: int| p(x) && #[trigger] step(ad, x, y) implies p(y) by {
        assert(chiuso_b(ad, rg, x));
        let j = choose|j: int| 0 <= j < ad[x].len() && (#[trigger] ad[x][j]) == y;
        assert(rg[y] is Some);
    };
    lemma_reach_closed(ad, p, r0 as int, obiettivo, k);
}

/// A reached state is closed for the cost-aware search: no successor is
/// the goal and every successor is reached.
pub(crate) open spec fn chiuso_semplice(
    ad: Seq<Seq<u32>>,
    g0: State,
    rg: Seq<Option<usize>>,
    s: int,
) -> bool {
    forall|j: int|
        0 <= j < ad[s].len() ==> {
            let t = (#[trigger] ad[s][j]) as int;
            &&& t != g0 as int
            &&& 0 <= t < rg.len()
            &&& rg[t] is Some
        }
}

impl Problem {
    /// Uniform-cost search: the same frontier discipline as breadth-first
    /// search, except that a state already reached is recorded and enqueued
    /// again when a strictly cheaper node for it is generated. The frontier
    /// stays FIFO, so the goal node returned is not in general a cheapest
    /// one; a goal node is returned exactly when the goal is reachable.
    #[verifier::rlimit(100)]
    #[verifier::spinoff_prover]
    pub fn uniform_cost_search(&mut self) -> (r: SearchResult)
        requires
            old(self).wf(),
        ensures
            *final(self) == *old(self),
            !(r is CutOff),
            (r is Found) <==> reachable(
                old(self).adiacenze(),
                old(self).stato_iniziale as int,
                old(self).stato_finale as int,
            ),
            (r is Failure) <==> !reachable(
                old(self).adiacenze(),
                old(self).stato_iniziale as int,
                old(self).stato_finale as int,
            ),
            match r {
                SearchResult::Found(nd) => {
                    &&& node_wf(old(self).grafo.az(), nd)
                    &&& node_root(nd) == old(self).stato_iniziale
                    &&& nd.stato == old(self).stato_finale
                    &&& dist_at_most(
                        old(self).adiacenze(),
                        old(self).stato_iniziale as int,
                        old(self).stato_finale as int,
                        nd.profondita as nat,
                    )
                },
                _ => true,
            },
    {
        let ghost az = self.grafo.az();
        let ghost ad = self.adiacenze();
        let s0 = self.stato_iniziale;
        let g0 = self.stato_finale;
        let n = self.grafo.nodi.len();
        proof {
            lemma_adiacenze_wf(self.grafo);
            assert forall|s2: int, jj: int|
                0 <= s2 < az.len() && 0 <= jj < az[s2].len() implies ad[s2].len() == az[s2].len()
                    && (#[trigger] ad[s2][jj]) == az[s2][jj].risultato by {
                lemma_passo_da_azione(self.grafo, s2, jj);
            };
        }
        if s0 == g0 {
            let azioni = copia_azioni(&self.grafo.nodi[s0 as usize].azioni);
            let nd = Node { stato: s0, azioni, genitore: None, costo_cammino: 0, profondita: 0 };
            proof {
                assert(dist_at_most(ad, s0 as int, g0 as int, 0nat));
                assert(reachable(ad, s0 as int, g0 as int));
            }
            return SearchResult::Found(nd);
        }
        let radice_nodo = SearchNode { stato: s0, genitore: None, costo_cammino: 0, profondita: 0 };
        let mut arena: Vec<SearchNode> = Vec::new();
        arena.push(radice_nodo);
        let mut raggiunti = nessuno_vec(n);
        raggiunti[s0 as usize] = Some(0usize);
        let mut frontiera: Vec<usize> = Vec::new();
        frontiera.push(0usize);
        let mut testa: usize = 0;
        proof {
            assert(arena_ok(az, arena@)) by {
                assert(link_ok(az, arena@, 0));
            }
            assert(radice(arena@, 0) == s0);
            assert(dist_at_most(ad, s0 as int, s0 as int, 0nat));
            assert(reachable(ad, s0 as int, s0 as int));
            assert(frontiera@.skip(0)[0] == 0usize);
        }
        while testa < frontiera.len()
            invariant
                self.wf(),
                az == self.grafo.az(),
                ad == self.adiacenze(),
                adj_wf(ad),
                n == self.grafo.nodi@.len(),
                ad.len() == n,
                az.len() == n,
                s0 == self.stato_iniziale,
                g0 == self.stato_finale,
                s0 != g0,
                (s0 as int) < n,
                (g0 as int) < n,
                forall|s2: int, jj: int|
                    0 <= s2 < az.len() && 0 <= jj < az[s2].len() ==> ad[s2].len() == az[
                        s2
                    ].len() && (#[trigger] ad[s2][jj]) == az[s2][jj].risultato,
                testa <= frontiera@.len(),
                raggiunti@.len() == n,
                arena_ok(az, arena@),
                prof_limitate(arena@),
                forall|i: int|
                    0 <= i < arena@.len() ==> dist_at_most(
                        ad,
                        s0 as int,
                        (#[trigger] arena@[i]).stato as int,
                        arena@[i].profondita as nat,
                    ),
                raggiunti_radicati(ad, s0, arena@, raggiunti@),
                frontiera_radicata(ad, s0, arena@, raggiunti@, frontiera@.skip(testa as int)),
                forall|s: int|
                    0 <= s < raggiunti@.len() && (#[trigger] raggiunti@[s]) is Some
                        && !stato_in_frontiera(arena@, frontiera@.skip(testa as int), s)
                        ==> chiuso_semplice(ad, g0, raggiunti@, s),
                raggiunti@[s0 as int] is Some,
                raggiunti@[g0 as int] is None,
            decreases pot_sum(arena@, raggiunti@), frontiera@.len() - testa,
        {
            let esito = self.ucs_passo(&mut arena, &mut raggiunti, &mut frontiera, &mut testa);
            match esito {
                Some(nd) => {
                    return SearchResult::Found(nd);
                },
                None => {},
            }
        }
        proof {
            let lf = frontiera@.skip(testa as int);
            assert(lf.len() == 0);
            if reachable(ad, s0 as int, g0 as int) {
                let k = choose|k: nat| dist_at_most(ad, s0 as int, g0 as int, k);
                let p = |x: int| 0 <= x < raggiunti@.len() && raggiunti@[x] is Some;
                assert forall|x: int, y: int| p(x) && #[trigger] step(ad, x, y) implies p(y) by {
                    assert(!stato_in_frontiera(arena@, lf, x));
                    assert(chiuso_semplice(ad, g0, raggiunti@, x));
                    let j = choose|j: int| 0 <= j < ad[x].len() && (#[trigger] ad[x][j]) == y;
                    assert(raggiunti@[y] is Some);
                };
                lemma_reach_closed(ad, p, s0 as int, g0 as int, k);
            }
        }
        SearchResult::Failure
    }

    /// One uniform-cost expansion: pops the frontier head, goal-checks each
    /// generated child, and records and enqueues a child whose state is new
    /// or strictly cheaper than the recorded node.
    #[verifier::rlimit(100)]
    #[verifier::spinoff_prover]
    fn ucs_passo(
        &self,
        arena: &mut Vec<SearchNode>,
        raggiunti: &mut Vec<Option<usize>>,
        frontiera: &mut Vec<usize>,
        testa: &mut usize,
    ) -> (esito: Option<Node>)
        requires
            self.wf(),
            self.stato_iniziale != self.stato_finale,
            *old(testa) < old(frontiera)@.len(),
            old(raggiunti)@.len() == self.grafo.nodi@.len(),
            arena_ok(self.grafo.az(), old(arena)@),
            prof_limitate(old(arena)@),
            forall|i: int|
                0 <= i < old(arena)@.len() ==> dist_at_most(
                    self.adiacenze(),
                    self.stato_iniziale as int,
                    (#[trigger] old(arena)@[i]).stato as int,
                    old(arena)@[i].profondita as nat,
                ),
            raggiunti_radicati(self.adiacenze(), self.stato_iniziale, old(arena)@, old(raggiunti)@),
            frontiera_radicata(
                self.adiacenze(),
                self.stato_iniziale,
                old(arena)@,
                old(raggiunti)@,
                old(frontiera)@.skip(*old(testa) as int),
            ),
            forall|s: int|
                0 <= s < old(raggiunti)@.len() && (#[trigger] old(raggiunti)@[s]) is Some
                    && !stato_in_frontiera(
                    old(arena)@,
                    old(frontiera)@.skip(*old(testa) as int),
                    s,
                ) ==> chiuso_semplice(self.adiacenze(), self.stato_finale, old(raggiunti)@, s),
            old(raggiunti)@[self.stato_iniziale as int] is Some,
            old(raggiunti)@[self.stato_finale as int] is None,
        ensures
            final(raggiunti)@.len() == old(raggiunti)@.len(),
            match esito {
                Some(nd) => {
                    &&& node_wf(self.grafo.az(), nd)
                    &&& node_root(nd) == self.stato_iniziale
                    &&& nd.stato == self.stato_finale
                    &&& reachable(
                        self.adiacenze(),
                        self.stato_iniziale as int,
                        self.stato_finale as int,
                    )
                    &&& dist_at_most(
                        self.adiacenze(),
                        self.stato_iniziale as int,
                        self.stato_finale as int,
                        nd.profondita as nat,
                    )
                },
                None => {
                    &&& *final(testa) == *old(testa) + 1
                    &&& final(testa)@ <= final(frontiera)@.len()
                    &&& arena_ok(self.grafo.az(), final(arena)@)
                    &&& prof_limitate(final(arena)@)
                    &&& (forall|i: int|
                        0 <= i < final(arena)@.len() ==> dist_at_most(
                            self.adiacenze(),
                            self.stato_iniziale as int,
                            (#[trigger] final(arena)@[i]).stato as int,
                            final(arena)@[i].profondita as nat,
                        ))
                    &&& raggiunti_radicati(
                        self.adiacenze(),
                        self.stato_iniziale,
                        final(arena)@,
                        final(raggiunti)@,
                    )
                    &&& frontiera_radicata(
                        self.adiacenze(),
                        self.stato_iniziale,
                        final(arena)@,
                        final(raggiunti)@,
                        final(frontiera)@.skip(*final(testa) as int),
                    )
                    &&& (forall|s: int|
                        0 <= s < final(raggiunti)@.len() && (#[trigger] final(raggiunti)@[s])
                            is Some && !stato_in_frontiera(
                            final(arena)@,
                            final(frontiera)@.skip(*final(testa) as int),
                            s,
                        ) ==> chiuso_semplice(
                            self.adiacenze(),
                            self.stato_finale,
                            final(raggiunti)@,
                            s,
                        ))
                    &&& final(raggiunti)@[self.stato_iniziale as int] is Some
                    &&& final(raggiunti)@[self.stato_finale as int] is None
                    &&& pot_sum(final(arena)@, final(raggiunti)@) <= pot_sum(
                        old(arena)@,
                        old(raggiunti)@,
                    )
                    &&& pot_sum(final(arena)@, final(raggiunti)@) + final(frontiera)@.len()
                        <= pot_sum(old(arena)@, old(raggiunti)@) + old(frontiera)@.len()
                    &&& (pot_sum(final(arena)@, final(raggiunti)@) == pot_sum(
                        old(arena)@,
                        old(raggiunti)@,
                    ) ==> final(frontiera)@.len() == old(frontiera)@.len())
                },
            },
    {
        let ghost az = self.grafo.az();
        let ghost ad = self.adiacenze();
        let s0 = self.stato_iniziale;
        let g0 = self.stato_finale;
        let n = self.grafo.nodi.len();
        proof {
            lemma_adiacenze_wf(self.grafo);
            assert forall|s2: int, jj: int|
                0 <= s2 < az.len() && 0 <= jj < az[s2].len() implies ad[s2].len() == az[s2].len()
                    && (#[trigger] ad[s2][jj]) == az[s2][jj].risultato by {
                lemma_passo_da_azione(self.grafo, s2, jj);
            };
        }
        let _lunghezza_fr = frontiera.len();
        let idx = frontiera[*testa];
        let ghost lf_tutta = frontiera@.skip(*testa as int);
        *testa = *testa + 1;
        proof {
            assert(lf_tutta[0] == idx);
            assert(frontiera@.skip(*testa as int) =~= lf_tutta.drop_first());
            assert forall|q: int| 0 <= q < frontiera@.skip(*testa as int).len() implies lf_tutta[
                q + 1
            ] == frontiera@.skip(*testa as int)[q] by {};
        }
        let ghost st = arena@[idx as int].stato;
        let figli = self.espandi(&arena, idx);
        let ghost arena0 = arena@;
        let ghost pot0 = pot_sum(arena@, raggiunti@);
        let ghost flen0 = frontiera@.len();
        proof {
            let lf0 = frontiera@.skip(*testa as int);
            assert forall|s: int|
                0 <= s < raggiunti@.len() && (#[trigger] raggiunti@[s]) is Some
                    && !stato_in_frontiera(arena@, lf0, s) && s != st as int
                    implies chiuso_semplice(ad, g0, raggiunti@, s) by {
                assert(!stato_in_frontiera(arena@, lf_tutta, s)) by {
                    if stato_in_frontiera(arena@, lf_tutta, s) {
                        let q = choose|q: int|
                            0 <= q < lf_tutta.len() && arena@[(#[trigger] lf_tutta[q]) as int].stato
                                == s;
                        if q == 0 {
                            assert(s == st as int);
                        } else {
                            assert(lf0[q - 1] == lf_tutta[q]);
                            assert(stato_in_frontiera(arena@, lf0, s));
                        }
                    }
                };
            };
        }
        let mut j: usize = 0;
        while j < figli.len()
            invariant
                self.wf(),
                az == self.grafo.az(),
                ad == self.adiacenze(),
                adj_wf(ad),
                n == self.grafo.nodi@.len(),
                ad.len() == n,
                az.len() == n,
                s0 == self.stato_iniziale,
                g0 == self.stato_finale,
                s0 != g0,
                (s0 as int) < n,
                (g0 as int) < n,
                forall|s2: int, jj: int|
                    0 <= s2 < az.len() && 0 <= jj < az[s2].len() ==> ad[s2].len() == az[
                        s2
                    ].len() && (#[trigger] ad[s2][jj]) == az[s2][jj].risultato,
                0 <= j <= figli@.len(),
                *testa <= frontiera@.len(),
                raggiunti@.len() == n,
                old(raggiunti)@.len() == n,
                (idx as int) < arena0.len(),
                arena0[idx as int].stato == st,
                0 <= (st as int) < n,
                reachable(ad, s0 as int, st as int),
                radice(arena0, idx as int) == s0,
                figli@.len() == az[st as int].len(),
                forall|x: int|
                    0 <= x < figli@.len() ==> {
                        let f = #[trigger] figli@[x];
                        &&& f.stato == az[st as int][x].risultato
                        &&& f.genitore == Some(idx)
                        &&& f.costo_cammino as int == sat_add_i32(
                            arena0[idx as int].costo_cammino as int,
                            az[st as int][x].costo as int,
                        )
                        &&& f.profondita as int == sat_inc(arena0[idx as int].profondita as int)
                    },
                arena@.len() >= arena0.len(),
                forall|k: int| 0 <= k < arena0.len() ==> #[trigger] arena@[k] == arena0[k],
                arena_ok(az, arena@),
                prof_limitate(arena@),
                forall|i: int|
                    0 <= i < arena@.len() ==> dist_at_most(
                        ad,
                        s0 as int,
                        (#[trigger] arena@[i]).stato as int,
                        arena@[i].profondita as nat,
                    ),
                raggiunti_radicati(ad, s0, arena@, raggiunti@),
                frontiera_radicata(ad, s0, arena@, raggiunti@, frontiera@.skip(*testa as int)),
                forall|s: int|
                    0 <= s < raggiunti@.len() && (#[trigger] raggiunti@[s]) is Some
                        && !stato_in_frontiera(arena@, frontiera@.skip(*testa as int), s) && s
                        != st as int ==> chiuso_semplice(ad, g0, raggiunti@, s),
                forall|jj: int|
                    0 <= jj < j ==> {
                        let t = (#[trigger] ad[st as int][jj]) as int;
                        &&& t != g0 as int
                        &&& 0 <= t < n
                        &&& raggiunti@[t] is Some
                    },
                raggiunti@[s0 as int] is Some,
                raggiunti@[g0 as int] is None,
                pot_sum(arena@, raggiunti@) <= pot0,
                pot_sum(arena@, raggiunti@) + frontiera@.len() <= pot0 + flen0,
                frontiera@.len() >= flen0,
                pot_sum(arena@, raggiunti@) == pot0 ==> frontiera@.len() == flen0,
            decreases figli@.len() - j,
        {
            let f = figli[j];
            let lunghezza_ar = arena.len();
            proof {
                assert(ad[st as int][j as int] == f.stato);
                assert((f.stato as int) < n);
                assert(arena@[idx as int].profondita as int <= idx as int);
                assert((idx as int) < lunghezza_ar as int);
                assert(link_ok(az, arena@.push(f), arena@.len() as int)) by {
                    assert(arena@[idx as int] == arena0[idx as int]);
                    assert(az[st as int][j as int].risultato == f.stato);
                };
                assert(step(ad, st as int, f.stato as int)) by {
                    assert(0 <= (j as int) < ad[st as int].len());
                };
                assert(reachable(ad, s0 as int, f.stato as int)) by {
                    let k = choose|k: nat| dist_at_most(ad, s0 as int, st as int, k);
                    lemma_dist_extend(ad, s0 as int, st as int, k, f.stato as int);
                };
            }
            if f.stato == g0 {
                proof {
                    lemma_arena_push(az, arena@, f);
                    lemma_catene(az, arena@);
                    assert(catene_ok(arena0)) by {
                        assert forall|k: int| 0 <= k < arena0.len() implies match (
                        #[trigger] arena0[k]).genitore {
                            Option::None => true,
                            Option::Some(p) => 0 <= (p as int) < k,
                        } by {
                            assert(arena@[k] == arena0[k]);
                            assert(catene_ok(arena@));
                        }
                    };
                    lemma_radice_stabile(arena0, arena@, idx as int);
                    lemma_radice_stabile(arena@, arena@.push(f), idx as int);
                    assert(arena0[idx as int].profondita as int <= idx as int);
                    assert(f.profondita as int == arena@[idx as int].profondita + 1);
                    assert(dist_at_most(ad, s0 as int, st as int, arena@[idx as int].profondita as nat));
                    lemma_dist_extend(
                        ad,
                        s0 as int,
                        st as int,
                        arena@[idx as int].profondita as nat,
                        f.stato as int,
                    );
                    assert(prof_limitate(arena@.push(f))) by {
                        assert forall|i2: int|
                            0 <= i2 < arena@.push(f).len() implies ((#[trigger] arena@.push(
                            f,
                        )[i2]).profondita as int) <= i2 by {
                            if i2 < arena@.len() {
                                assert(arena@.push(f)[i2] == arena@[i2]);
                            } else {
                                assert(arena@.push(f)[i2] == f);
                            }
                        };
                    };
                    assert forall|i2: int|
                        0 <= i2 < arena@.push(f).len() implies dist_at_most(
                        ad,
                        s0 as int,
                        (#[trigger] arena@.push(f)[i2]).stato as int,
                        arena@.push(f)[i2].profondita as nat,
                    ) by {
                        if i2 < arena@.len() {
                            assert(arena@.push(f)[i2] == arena@[i2]);
                        } else {
                            assert(arena@.push(f)[i2] == f);
                        }
                    };
                }
                arena.push(f);
                let ni = arena.len() - 1;
                proof {
                    assert(radice(arena@, ni as int) == radice(arena@, idx as int));
                    assert(dist_at_most(ad, s0 as int, g0 as int, arena@[ni as int].profondita as nat));
                }
                let nd = self.costruisci_nodo(&arena, ni);
                return Some(nd);
            }
            let s_us = f.stato as usize;
            let inserisci: bool = match raggiunti[s_us] {
                None => true,
                Some(ri) => arena[ri].costo_cammino > f.costo_cammino,
            };
            if inserisci {
                let ghost ar_prima = arena@;
                let ghost rg_prima = raggiunti@;
                let ghost lf_prima = frontiera@.skip(*testa as int);
                let ni = arena.len();
                proof {
                    lemma_arena_push(az, arena@, f);
                    lemma_catene(az, arena@);
                    assert(catene_ok(arena0)) by {
                        assert forall|k: int| 0 <= k < arena0.len() implies match (
                        #[trigger] arena0[k]).genitore {
                            Option::None => true,
                            Option::Some(p) => 0 <= (p as int) < k,
                        } by {
                            assert(arena@[k] == arena0[k]);
                            assert(catene_ok(arena@));
                        }
                    };
                    lemma_radice_stabile(arena0, arena@, idx as int);
                    lemma_radice_stabile(arena@, arena@.push(f), idx as int);
                    assert forall|s: int|
                        0 <= s < rg_prima.len() && (#[trigger] rg_prima[s]) is Some implies (
                    rg_prima[s].unwrap() as int) < ar_prima.len() by {};
                    lemma_pot_sum_estendi(ar_prima, ar_prima.push(f), rg_prima);
                    lemma_pot_sum_update(
                        ar_prima.push(f),
                        rg_prima,
                        f.stato as int,
                        Some(ni),
                    );
                    assert(pot_entry(ar_prima.push(f), Some(ni)) < pot_entry(
                        ar_prima.push(f),
                        rg_prima[f.stato as int],
                    )) by {
                        match rg_prima[f.stato as int] {
                            Option::None => {},
                            Option::Some(ri) => {
                                assert(ar_prima.push(f)[ri as int] == ar_prima[ri as int]);
                            },
                        }
                    };
                    assert(arena0[idx as int].profondita as int <= idx as int);
                    assert(f.profondita as int == arena@[idx as int].profondita + 1);
                    assert(dist_at_most(ad, s0 as int, st as int, arena@[idx as int].profondita as nat));
                    lemma_dist_extend(
                        ad,
                        s0 as int,
                        st as int,
                        arena@[idx as int].profondita as nat,
                        f.stato as int,
                    );
                    assert(prof_limitate(arena@.push(f))) by {
                        assert forall|i2: int|
                            0 <= i2 < arena@.push(f).len() implies ((#[trigger] arena@.push(
                            f,
                        )[i2]).profondita as int) <= i2 by {
                            if i2 < arena@.len() {
                                assert(arena@.push(f)[i2] == arena@[i2]);
                            } else {
                                assert(arena@.push(f)[i2] == f);
                            }
                        };
                    };
                    assert forall|i2: int|
                        0 <= i2 < arena@.push(f).len() implies dist_at_most(
                        ad,
                        s0 as int,
                        (#[trigger] arena@.push(f)[i2]).stato as int,
                        arena@.push(f)[i2].profondita as nat,
                    ) by {
                        if i2 < arena@.len() {
                            assert(arena@.push(f)[i2] == arena@[i2]);
                        } else {
                            assert(arena@.push(f)[i2] == f);
                        }
                    };
                }
                arena.push(f);
                raggiunti[s_us] = Some(ni);
                let ghost fr_prima = frontiera@;
                frontiera.push(ni);
                proof {
                    assert(arena@ == ar_prima.push(f));
                    assert(raggiunti@ == rg_prima.update(f.stato as int, Some(ni)));
                    assert(frontiera@.skip(*testa as int) =~= lf_prima.push(ni));
                    assert(radice(arena@, ni as int) == radice(arena@, idx as int));
                    assert forall|s: int|
                        0 <= s < raggiunti@.len() && (#[trigger] raggiunti@[s]) is Some implies {
                        let i = raggiunti@[s].unwrap() as int;
                        &&& 0 <= i < arena@.len()
                        &&& arena@[i].stato == s
                        &&& radice(arena@, i) == s0
                        &&& reachable(ad, s0 as int, s)
                    } by {
                        if s == f.stato as int {
                        } else {
                            let i = rg_prima[s].unwrap() as int;
                            assert(arena@[i] == ar_prima[i]);
                            assert(catene_ok(ar_prima)) by {
                                lemma_catene(az, ar_prima);
                            };
                            lemma_radice_stabile(ar_prima, arena@, i);
                        }
                    };
                    assert forall|q: int|
                        0 <= q < frontiera@.skip(*testa as int).len() implies {
                        let i = (#[trigger] frontiera@.skip(*testa as int)[q]) as int;
                        &&& i < arena@.len()
                        &&& (arena@[i].stato as int) < raggiunti@.len()
                        &&& raggiunti@[arena@[i].stato as int] is Some
                        &&& radice(arena@, i) == s0
                        &&& reachable(ad, s0 as int, arena@[i].stato as int)
                    } by {
                        let lf1 = frontiera@.skip(*testa as int);
                        if q < lf_prima.len() {
                            assert(lf1[q] == lf_prima[q]);
                            let i = lf_prima[q] as int;
                            assert(arena@[i] == ar_prima[i]);
                            assert(catene_ok(ar_prima)) by {
                                lemma_catene(az, ar_prima);
                            };
                            lemma_radice_stabile(ar_prima, arena@, i);
                        } else {
                            assert(lf1[q] == ni);
                        }
                    };
                    assert forall|s: int|
                        0 <= s < raggiunti@.len() && (#[trigger] raggiunti@[s]) is Some
                            && !stato_in_frontiera(
                            arena@,
                            frontiera@.skip(*testa as int),
                            s,
                        ) && s != st as int implies chiuso_semplice(ad, g0, raggiunti@, s) by {
                        let lf1 = frontiera@.skip(*testa as int);
                        if s == f.stato as int {
                            assert(arena@[lf1[lf1.len() - 1] as int].stato == s);
                            assert(stato_in_frontiera(arena@, lf1, s));
                        } else {
                            assert(rg_prima[s] is Some);
                            assert(!stato_in_frontiera(ar_prima, lf_prima, s)) by {
                                if stato_in_frontiera(ar_prima, lf_prima, s) {
                                    let q = choose|q: int|
                                        0 <= q < lf_prima.len() && ar_prima[(
                                        #[trigger] lf_prima[q]) as int].stato == s;
                                    assert(lf1[q] == lf_prima[q]);
                                    assert(arena@[lf_prima[q] as int] == ar_prima[lf_prima[q] as int]);
                                    assert(stato_in_frontiera(arena@, lf1, s));
                                }
                            };
                            assert(chiuso_semplice(ad, g0, rg_prima, s));
                            assert forall|jx: int| 0 <= jx < ad[s].len() implies {
                                let t = (#[trigger] ad[s][jx]) as int;
                                &&& t != g0 as int
                                &&& 0 <= t < raggiunti@.len()
                                &&& raggiunti@[t] is Some
                            } by {
                                let t = (ad[s][jx]) as int;
                                assert(rg_prima[t] is Some);
                            };
                        }
                    };
                }
            }
            j = j + 1;
        }
        proof {
            let lf1 = frontiera@.skip(*testa as int);
            assert forall|s: int|
                0 <= s < raggiunti@.len() && (#[trigger] raggiunti@[s]) is Some
                    && !stato_in_frontiera(arena@, lf1, s) implies chiuso_semplice(
                ad,
                g0,
                raggiunti@,
                s,
            ) by {
                if s == st as int {
                    assert(ad[st as int].len() == figli@.len());
                } else {
                    assert(chiuso_semplice(ad, g0, raggiunti@, s));
                }
            };
        }
        None
    }
}


impl Problem {
    /// Plain tree search: a FIFO frontier with no reached set, goal-checked
    /// at expansion. Revisits are not detected, so the exploration carries
    /// an expansion budget; when the budget runs out the search is cut off,
    /// which on any input of practical size never happens.
    #[verifier::rlimit(100)]
    #[verifier::spinoff_prover]
    pub fn tree_search(&mut self) -> (r: SearchResult)
        requires
            old(self).wf(),
        ensures
            *final(self) == *old(self),
            match r {
                SearchResult::Found(nd) => {
                    &&& node_wf(old(self).grafo.az(), nd)
                    &&& node_root(nd) == old(self).stato_iniziale
                    &&& nd.stato == old(self).stato_finale
                    &&& reachable(
                        old(self).adiacenze(),
                        old(self).stato_iniziale as int,
                        old(self).stato_finale as int,
                    )
                    &&& dist_at_most(
                        old(self).adiacenze(),
                        old(self).stato_iniziale as int,
                        old(self).stato_finale as int,
                        nd.profondita as nat,
                    )
                },
                SearchResult::Failure => !reachable(
                    old(self).adiacenze(),
                    old(self).stato_iniziale as int,
                    old(self).stato_finale as int,
                ),
                SearchResult::CutOff => true,
            },
    {
        let ghost az = self.grafo.az();
        let ghost ad = self.adiacenze();
        let s0 = self.stato_iniziale;
        let g0 = self.stato_finale;
        let n = self.grafo.nodi.len();
        proof {
            lemma_adiacenze_wf(self.grafo);
            assert forall|s2: int, jj: int|
                0 <= s2 < az.len() && 0 <= jj < az[s2].len() implies ad[s2].len() == az[s2].len()
                    && (#[trigger] ad[s2][jj]) == az[s2][jj].risultato by {
                lemma_passo_da_azione(self.grafo, s2, jj);
            };
        }
        let radice_nodo = SearchNode { stato: s0, genitore: None, costo_cammino: 0, profondita: 0 };
        let mut arena: Vec<SearchNode> = Vec::new();
        arena.push(radice_nodo);
        let mut frontiera: Vec<usize> = Vec::new();
        frontiera.push(0usize);
        let mut testa: usize = 0;
        let mut passi: usize = 0;
        proof {
            assert(arena_ok(az, arena@)) by {
                assert(link_ok(az, arena@, 0));
            }
            assert(radice(arena@, 0) == s0);
            assert(dist_at_most(ad, s0 as int, s0 as int, 0nat));
            assert(reachable(ad, s0 as int, s0 as int));
            assert(frontiera@.skip(0)[0] == 0usize);
        }
        while testa < frontiera.len()
            invariant
                self.wf(),
                az == self.grafo.az(),
                ad == self.adiacenze(),
                adj_wf(ad),
                n == self.grafo.nodi@.len(),
                ad.len() == n,
                az.len() == n,
                s0 == self.stato_iniziale,
                g0 == self.stato_finale,
                (s0 as int) < n,
                (g0 as int) < n,
                forall|s2: int, jj: int|
                    0 <= s2 < az.len() && 0 <= jj < az[s2].len() ==> ad[s2].len() == az[
                        s2
                    ].len() && (#[trigger] ad[s2][jj]) == az[s2][jj].risultato,
                testa <= frontiera@.len(),
                arena_ok(az, arena@),
                prof_limitate(arena@),
                forall|i: int|
                    0 <= i < arena@.len() ==> dist_at_most(
                        ad,
                        s0 as int,
                        (#[trigger] arena@[i]).stato as int,
                        arena@[i].profondita as nat,
                    ),
                forall|q: int|
                    0 <= q < frontiera@.len() ==> {
                        let i = (#[trigger] frontiera@[q]) as int;
                        &&& i < arena@.len()
                        &&& radice(arena@, i) == s0
                        &&& reachable(ad, s0 as int, arena@[i].stato as int)
                        &&& (arena@[i].stato as int) < n
                    },
                reachable(ad, s0 as int, g0 as int) ==> exists|q: int, k: nat|
                    testa <= q < frontiera@.len() && #[trigger] dist_at_most(
                        ad,
                        arena@[frontiera@[q] as int].stato as int,
                        g0 as int,
                        k,
                    ),
            decreases usize::MAX - passi,
        {
            if passi == usize::MAX {
                return SearchResult::CutOff;
            }
            passi = passi + 1;
            let idx = frontiera[testa];
            let ghost testa0 = testa as int;
            testa = testa + 1;
            let nodo = arena[idx];
            proof {
                assert((frontiera@[testa0]) as int == idx as int);
                assert((arena@[idx as int].stato as int) < n);
                assert(radice(arena@, idx as int) == s0);
                assert(reachable(ad, s0 as int, arena@[idx as int].stato as int));
            }
            if nodo.stato == g0 {
                proof {
                    assert(dist_at_most(
                        ad,
                        s0 as int,
                        g0 as int,
                        arena@[idx as int].profondita as nat,
                    ));
                }
                let nd = self.costruisci_nodo(&arena, idx);
                return SearchResult::Found(nd);
            }
            let figli = self.espandi(&arena, idx);
            let ghost arena0 = arena@;
            let ghost fr0 = frontiera@;
            let ghost st = nodo.stato;
            let base = arena.len();
            let mut j: usize = 0;
            while j < figli.len()
                invariant
                    self.wf(),
                    az == self.grafo.az(),
                    ad == self.adiacenze(),
                    adj_wf(ad),
                    n == self.grafo.nodi@.len(),
                    az.len() == n,
                    ad.len() == n,
                    s0 == self.stato_iniziale,
                    forall|s2: int, jj: int|
                        0 <= s2 < az.len() && 0 <= jj < az[s2].len() ==> ad[s2].len() == az[
                            s2
                        ].len() && (#[trigger] ad[s2][jj]) == az[s2][jj].risultato,
                    0 <= j <= figli@.len(),
                    (idx as int) < arena0.len(),
                    arena0[idx as int] == nodo,
                    st == nodo.stato,
                    (st as int) < n,
                    radice(arena0, idx as int) == s0,
                    reachable(ad, s0 as int, st as int),
                    figli@.len() == az[st as int].len(),
                    forall|x: int|
                        0 <= x < figli@.len() ==> {
                            let f = #[trigger] figli@[x];
                            &&& f.stato == az[st as int][x].risultato
                            &&& f.genitore == Some(idx)
                            &&& f.costo_cammino as int == sat_add_i32(
                                arena0[idx as int].costo_cammino as int,
                                az[st as int][x].costo as int,
                            )
                            &&& f.profondita as int == sat_inc(
                                arena0[idx as int].profondita as int,
                            )
                        },
                    base == arena0.len(),
                    arena@.len() == arena0.len() + j,
                    forall|k: int| 0 <= k < arena0.len() ==> #[trigger] arena@[k] == arena0[k],
                    forall|x: int| 0 <= x < j ==> #[trigger] arena@[base + x] == figli@[x],
                    arena_ok(az, arena@),
                    prof_limitate(arena@),
                    forall|i: int|
                        0 <= i < arena@.len() ==> dist_at_most(
                            ad,
                            s0 as int,
                            (#[trigger] arena@[i]).stato as int,
                            arena@[i].profondita as nat,
                        ),
                    testa <= frontiera@.len(),
                    frontiera@.len() == fr0.len() + j,
                    forall|q: int| 0 <= q < fr0.len() ==> #[trigger] frontiera@[q] == fr0[q],
                    forall|x: int|
                        0 <= x < j ==> (#[trigger] frontiera@[fr0.len() + x]) as int == base
                            + x,
                    forall|q: int|
                        0 <= q < frontiera@.len() ==> {
                            let i = (#[trigger] frontiera@[q]) as int;
                            &&& i < arena@.len()
                            &&& radice(arena@, i) == s0
                            &&& reachable(ad, s0 as int, arena@[i].stato as int)
                            &&& (arena@[i].stato as int) < n
                        },
                decreases figli@.len() - j,
            {
                let f = figli[j];
                let ni = arena.len();
                let ghost ar_pre = arena@;
                proof {
                    assert(arena@[idx as int].profondita as int <= idx as int);
                    assert((idx as int) < ni as int);
                    assert(f.profondita as int == arena@[idx as int].profondita + 1);
                    assert(dist_at_most(
                        ad,
                        s0 as int,
                        st as int,
                        arena@[idx as int].profondita as nat,
                    ));
                    assert(ad[st as int][j as int] == az[st as int][j as int].risultato);
                    assert(ad[st as int].len() == az[st as int].len());
                    assert(step(ad, st as int, f.stato as int)) by {
                        assert(0 <= (j as int) < ad[st as int].len() && (ad[st as int][
                            j as int
                        ]) as int == f.stato as int);
                    };
                    lemma_dist_extend(
                        ad,
                        s0 as int,
                        st as int,
                        arena@[idx as int].profondita as nat,
                        f.stato as int,
                    );
                    assert(prof_limitate(arena@.push(f))) by {
                        assert forall|i2: int|
                            0 <= i2 < arena@.push(f).len() implies ((#[trigger] arena@.push(
                            f,
                        )[i2]).profondita as int) <= i2 by {
                            if i2 < arena@.len() {
                                assert(arena@.push(f)[i2] == arena@[i2]);
                            } else {
                                assert(arena@.push(f)[i2] == f);
                            }
                        };
                    };
                    assert forall|i2: int|
                        0 <= i2 < arena@.push(f).len() implies dist_at_most(
                        ad,
                        s0 as int,
                        (#[trigger] arena@.push(f)[i2]).stato as int,
                        arena@.push(f)[i2].profondita as nat,
                    ) by {
                        if i2 < arena@.len() {
                            assert(arena@.push(f)[i2] == arena@[i2]);
                        } else {
                            assert(arena@.push(f)[i2] == f);
                        }
                    };
                    assert(link_ok(az, arena@.push(f), arena@.len() as int)) by {
                        assert(arena@[idx as int] == arena0[idx as int]);
                        assert(az[st as int][j as int].risultato == f.stato);
                    };
                    lemma_arena_push(az, arena@, f);
                    lemma_catene(az, arena@);
                    assert(catene_ok(arena0)) by {
                        assert forall|k: int| 0 <= k < arena0.len() implies match (
                        #[trigger] arena0[k]).genitore {
                            Option::None => true,
                            Option::Some(p) => 0 <= (p as int) < k,
                        } by {
                            assert(arena@[k] == arena0[k]);
                            assert(catene_ok(arena@));
                        }
                    };
                    lemma_radice_stabile(arena0, arena@, idx as int);
                    lemma_radice_stabile(arena@, arena@.push(f), idx as int);
                    assert(ad[st as int][j as int] == az[st as int][j as int].risultato);
                    assert(ad[st as int].len() == az[st as int].len());
                    assert(step(ad, st as int, f.stato as int)) by {
                        assert(0 <= (j as int) < ad[st as int].len() && (ad[st as int][
                            j as int
                        ]) as int == f.stato as int);
                    };
                    assert(reachable(ad, s0 as int, f.stato as int)) by {
                        let k = choose|k: nat| dist_at_most(ad, s0 as int, st as int, k);
                        lemma_dist_extend(ad, s0 as int, st as int, k, f.stato as int);
                    };
                }
                arena.push(f);
                proof {
                    assert(radice(arena@, ni as int) == radice(arena@, idx as int));
                    lemma_catene(az, ar_pre);
                    assert forall|q: int| 0 <= q < frontiera@.len() implies {
                        let i = (#[trigger] frontiera@[q]) as int;
                        &&& i < arena@.len()
                        &&& radice(arena@, i) == s0
                        &&& reachable(ad, s0 as int, arena@[i].stato as int)
                        &&& (arena@[i].stato as int) < n
                    } by {
                        let i = (frontiera@[q]) as int;
                        assert(i < ar_pre.len());
                        assert(arena@[i] == ar_pre[i]);
                        lemma_radice_stabile(ar_pre, arena@, i);
                    };
                }
                frontiera.push(ni);
                j = j + 1;
            }
            proof {
                if reachable(ad, s0 as int, g0 as int) {
                    let (q, k): (int, nat) = choose|q: int, k: nat|
                        testa0 <= q < fr0.len() && #[trigger] dist_at_most(
                            ad,
                            arena0[fr0[q] as int].stato as int,
                            g0 as int,
                            k,
                        );
                    if q > testa0 {
                        assert(frontiera@[q] == fr0[q]);
                        assert(arena@[fr0[q] as int] == arena0[fr0[q] as int]);
                        assert(testa <= q < frontiera@.len() && dist_at_most(
                            ad,
                            arena@[frontiera@[q] as int].stato as int,
                            g0 as int,
                            k,
                        ));
                    } else {
                        assert(fr0[q] == idx);
                        assert(dist_at_most(ad, st as int, g0 as int, k));
                        assert(st != g0);
                        lemma_dist_last_step(ad, st as int, g0 as int, k);
                        assert(k > 0);
                        let m = choose|m: int|
                            #[trigger] step(ad, st as int, m) && dist_at_most(
                                ad,
                                m,
                                g0 as int,
                                (k - 1) as nat,
                            );
                        let aq = choose|aq: int|
                            0 <= aq < ad[st as int].len() && (#[trigger] ad[st as int][aq]) == m;
                        let qn = fr0.len() + aq;
                        assert((frontiera@[qn]) as int == base + aq);
                        assert(arena@[base + aq] == figli@[aq]);
                        assert(figli@[aq].stato == az[st as int][aq].risultato);
                        assert((figli@[aq].stato) as int == m);
                        assert(testa <= qn < frontiera@.len() && dist_at_most(
                            ad,
                            arena@[frontiera@[qn] as int].stato as int,
                            g0 as int,
                            (k - 1) as nat,
                        ));
                    }
                }
            }
        }
        proof {
            if reachable(ad, s0 as int, g0 as int) {
                let (q, k): (int, nat) = choose|q: int, k: nat|
                    testa <= q < frontiera@.len() && #[trigger] dist_at_most(
                        ad,
                        arena@[frontiera@[q] as int].stato as int,
                        g0 as int,
                        k,
                    );
                assert(false);
            }
        }
        SearchResult::Failure
    }

    /// Expands one node of one side of the bidirectional search: children
    /// whose states are not yet in this side's reached table are recorded
    /// and enqueued; there is no goal check.
    #[verifier::rlimit(100)]
    #[verifier::spinoff_prover]
    fn bidir_espandi_lato(
        &self,
        arena: &mut Vec<SearchNode>,
        raggiunti: &mut Vec<Option<usize>>,
        frontiera: &mut Vec<usize>,
        idx: usize,
        r0_g: Ghost<State>,
    )
        requires
            self.wf(),
            old(raggiunti)@.len() == self.grafo.nodi@.len(),
            arena_ok(self.grafo.az(), old(arena)@),
            (idx as int) < old(arena)@.len(),
            radice(old(arena)@, idx as int) == r0_g@,
            reachable(self.adiacenze(), r0_g@ as int, old(arena)@[idx as int].stato as int),
            raggiunti_radicati(self.adiacenze(), r0_g@, old(arena)@, old(raggiunti)@),
            frontiera_radicata(
                self.adiacenze(),
                r0_g@,
                old(arena)@,
                old(raggiunti)@,
                old(frontiera)@,
            ),
            prof_limitate(old(arena)@),
        ensures
            final(raggiunti)@.len() == old(raggiunti)@.len(),
            final(frontiera)@.len() >= old(frontiera)@.len(),
            final(arena)@.len() >= old(arena)@.len(),
            forall|k: int| 0 <= k < old(arena)@.len() ==> #[trigger] final(arena)@[k] == old(
                arena,
            )@[k],
            forall|q: int|
                0 <= q < old(frontiera)@.len() ==> #[trigger] final(frontiera)@[q] == old(
                    frontiera,
                )@[q],
            prof_limitate(final(arena)@),
            chiuso_b(
                self.adiacenze(),
                final(raggiunti)@,
                old(arena)@[idx as int].stato as int,
            ),
            forall|s: int|
                0 <= s < old(raggiunti)@.len() && old(raggiunti)@[s] is None && (
                #[trigger] final(raggiunti)@[s]) is Some ==> exists|q: int|
                    old(frontiera)@.len() <= q < final(frontiera)@.len() && (final(arena)@[(
                    #[trigger] final(frontiera)@[q]) as int].stato as int) == s,
            arena_ok(self.grafo.az(), final(arena)@),
            raggiunti_radicati(self.adiacenze(), r0_g@, final(arena)@, final(raggiunti)@),
            frontiera_radicata(
                self.adiacenze(),
                r0_g@,
                final(arena)@,
                final(raggiunti)@,
                final(frontiera)@,
            ),
            forall|s: int|
                0 <= s < old(raggiunti)@.len() && (#[trigger] old(raggiunti)@[s]) is Some
                    ==> final(raggiunti)@[s] is Some,
            conta_vuoti(final(raggiunti)@) <= conta_vuoti(old(raggiunti)@),
            conta_vuoti(final(raggiunti)@) + final(frontiera)@.len() == conta_vuoti(
                old(raggiunti)@,
            ) + old(frontiera)@.len(),
    {
        let ghost az = self.grafo.az();
        let ghost ad = self.adiacenze();
        let ghost r0 = r0_g@;
        let n = self.grafo.nodi.len();
        proof {
            lemma_adiacenze_wf(self.grafo);
            assert forall|s2: int, jj: int|
                0 <= s2 < az.len() && 0 <= jj < az[s2].len() implies ad[s2].len() == az[s2].len()
                    && (#[trigger] ad[s2][jj]) == az[s2][jj].risultato by {
                lemma_passo_da_azione(self.grafo, s2, jj);
            };
        }
        proof {
            assert(link_ok(az, arena@, idx as int));
        }
        let figli = self.espandi(&arena, idx);
        let ghost arena0 = arena@;
        let ghost st = arena0[idx as int].stato;
        let ghost conta0 = conta_vuoti(raggiunti@);
        let ghost flen0 = frontiera@.len();
        let ghost fr_inizio = frontiera@;
        let mut j: usize = 0;
        while j < figli.len()
            invariant
                self.wf(),
                az == self.grafo.az(),
                ad == self.adiacenze(),
                adj_wf(ad),
                n == self.grafo.nodi@.len(),
                az.len() == n,
                ad.len() == n,
                forall|s2: int, jj: int|
                    0 <= s2 < az.len() && 0 <= jj < az[s2].len() ==> ad[s2].len() == az[
                        s2
                    ].len() && (#[trigger] ad[s2][jj]) == az[s2][jj].risultato,
                0 <= j <= figli@.len(),
                raggiunti@.len() == n,
                old(raggiunti)@.len() == n,
                (idx as int) < arena0.len(),
                arena0[idx as int].stato == st,
                0 <= (st as int) < n,
                radice(arena0, idx as int) == r0,
                reachable(ad, r0 as int, st as int),
                figli@.len() == az[st as int].len(),
                forall|x: int|
                    0 <= x < figli@.len() ==> {
                        let f = #[trigger] figli@[x];
                        &&& f.stato == az[st as int][x].risultato
                        &&& f.genitore == Some(idx)
                        &&& f.costo_cammino as int == sat_add_i32(
                            arena0[idx as int].costo_cammino as int,
                            az[st as int][x].costo as int,
                        )
                        &&& f.profondita as int == sat_inc(arena0[idx as int].profondita as int)
                    },
                arena@.len() >= arena0.len(),
                forall|k: int| 0 <= k < arena0.len() ==> #[trigger] arena@[k] == arena0[k],
                arena_ok(az, arena@),
                prof_limitate(arena@),
                raggiunti_radicati(ad, r0, arena@, raggiunti@),
                frontiera_radicata(ad, r0, arena@, raggiunti@, frontiera@),
                forall|s: int|
                    0 <= s < old(raggiunti)@.len() && (#[trigger] old(raggiunti)@[s]) is Some
                        ==> raggiunti@[s] is Some,
                forall|jj: int|
                    0 <= jj < j ==> {
                        let t = (#[trigger] ad[st as int][jj]) as int;
                        &&& 0 <= t < n
                        &&& raggiunti@[t] is Some
                    },
                frontiera@.len() >= flen0,
                forall|q: int| 0 <= q < flen0 ==> #[trigger] frontiera@[q] == fr_inizio[q],
                forall|s: int|
                    0 <= s < n && old(raggiunti)@[s] is None && (#[trigger] raggiunti@[s])
                        is Some ==> exists|q: int|
                        flen0 <= q < frontiera@.len() && (arena@[(#[trigger] frontiera@[q]) as int].stato as int)
                            == s,
                conta_vuoti(raggiunti@) <= conta0,
                conta_vuoti(raggiunti@) + frontiera@.len() == conta0 + flen0,
            decreases figli@.len() - j,
        {
            let f = figli[j];
            proof {
                assert(ad[st as int][j as int] == f.stato);
                assert((f.stato as int) < n);
            }
            let s_us = f.stato as usize;
            let gia = raggiunti[s_us];
            match gia {
                None => {
                    let ghost ar_prima = arena@;
                    let ghost rg_prima = raggiunti@;
                    let ghost fr_prima = frontiera@;
                    let ni = arena.len();
                    proof {
                        assert(link_ok(az, arena@.push(f), arena@.len() as int)) by {
                            assert(arena@[idx as int] == arena0[idx as int]);
                            assert(az[st as int][j as int].risultato == f.stato);
                        };
                        lemma_arena_push(az, arena@, f);
                        lemma_catene(az, arena@);
                        assert(catene_ok(arena0)) by {
                            assert forall|k: int| 0 <= k < arena0.len() implies match (
                            #[trigger] arena0[k]).genitore {
                                Option::None => true,
                                Option::Some(p) => 0 <= (p as int) < k,
                            } by {
                                assert(arena@[k] == arena0[k]);
                                assert(catene_ok(arena@));
                            }
                        };
                        lemma_radice_stabile(arena0, arena@, idx as int);
                        lemma_radice_stabile(arena@, arena@.push(f), idx as int);
                        assert(step(ad, st as int, f.stato as int)) by {
                            assert(0 <= (j as int) < ad[st as int].len());
                        };
                        assert(reachable(ad, r0 as int, f.stato as int)) by {
                            let k = choose|k: nat| dist_at_most(ad, r0 as int, st as int, k);
                            lemma_dist_extend(ad, r0 as int, st as int, k, f.stato as int);
                        };
                        lemma_conta_vuoti_riempi(raggiunti@, f.stato as int, ni);
                    }
                    arena.push(f);
                    raggiunti[s_us] = Some(ni);
                    frontiera.push(ni);
                    proof {
                        assert(radice(arena@, ni as int) == radice(arena@, idx as int));
                        assert(prof_limitate(arena@)) by {
                            assert forall|k: int|
                                0 <= k < arena@.len() implies ((#[trigger] arena@[k]).profondita as int)
                                    <= k by {
                                if k < ar_prima.len() {
                                    assert(arena@[k] == ar_prima[k]);
                                } else {
                                    assert(arena@[k] == f);
                                    assert(arena0[idx as int].profondita as int <= idx as int);
                                }
                            };
                        };
                        assert forall|s: int|
                            0 <= s < n && old(raggiunti)@[s] is None && (
                            #[trigger] raggiunti@[s]) is Some implies exists|q: int|
                            flen0 <= q < frontiera@.len() && (arena@[(
                            #[trigger] frontiera@[q]) as int].stato as int) == s by {
                            if s == f.stato as int {
                                assert(frontiera@[frontiera@.len() - 1] == ni);
                                assert(arena@[ni as int].stato as int == s);
                            } else {
                                let q = choose|q: int|
                                    flen0 <= q < fr_prima.len() && (ar_prima[(
                                    #[trigger] fr_prima[q]) as int].stato as int) == s;
                                assert(frontiera@[q] == fr_prima[q]);
                                assert((fr_prima[q] as int) < ar_prima.len());
                                assert(arena@[fr_prima[q] as int] == ar_prima[fr_prima[q] as int]);
                            }
                        };
                        assert forall|s: int|
                            0 <= s < raggiunti@.len() && (#[trigger] raggiunti@[s]) is Some
                                implies {
                            let i = raggiunti@[s].unwrap() as int;
                            &&& 0 <= i < arena@.len()
                            &&& arena@[i].stato == s
                            &&& radice(arena@, i) == r0
                            &&& reachable(ad, r0 as int, s)
                        } by {
                            if s == f.stato as int {
                            } else {
                                let i = rg_prima[s].unwrap() as int;
                                assert(arena@[i] == ar_prima[i]);
                                assert(catene_ok(ar_prima)) by {
                                    lemma_catene(az, ar_prima);
                                };
                                lemma_radice_stabile(ar_prima, arena@, i);
                            }
                        };
                        assert forall|q: int| 0 <= q < frontiera@.len() implies {
                            let i = (#[trigger] frontiera@[q]) as int;
                            &&& i < arena@.len()
                            &&& (arena@[i].stato as int) < raggiunti@.len()
                            &&& raggiunti@[arena@[i].stato as int] is Some
                            &&& radice(arena@, i) == r0
                            &&& reachable(ad, r0 as int, arena@[i].stato as int)
                        } by {
                            if q < fr_prima.len() {
                                assert(frontiera@[q] == fr_prima[q]);
                                let i = fr_prima[q] as int;
                                assert(arena@[i] == ar_prima[i]);
                                assert(catene_ok(ar_prima)) by {
                                    lemma_catene(az, ar_prima);
                                };
                                lemma_radice_stabile(ar_prima, arena@, i);
                            } else {
                                assert(frontiera@[q] == ni);
                            }
                        };
                    }
                },
                Some(_) => {
                },
            }
            j = j + 1;
        }
        proof {
            assert(chiuso_b(ad, raggiunti@, st as int)) by {
                assert(ad[st as int].len() == figli@.len());
            };
        }
    }

    /// Walks a goal-side chain to its root and returns the root node with
    /// the meeting node's counters folded in, as the bidirectional
    /// reconstruction prescribes: the cost stays the meeting node's cost
    /// (the root's own cost is 0), and a meeting node of depth `d >= 1`
    /// yields depth `2 * d + 1`; the resulting node has no predecessor
    /// chain of its own.
    fn ricostruisci(&self, ar: &Vec<SearchNode>, mi: usize) -> (nd: Node)
        requires
            self.wf(),
            arena_ok(self.grafo.az(), ar@),
            prof_limitate(ar@),
            (mi as int) < ar@.len(),
        ensures
            nd.stato == radice(ar@, mi as int),
            nd.genitore is None,
            (nd.stato as int) < self.grafo.az().len(),
            nd.azioni@ == self.grafo.az()[nd.stato as int],
            nd.costo_cammino == ar@[mi as int].costo_cammino,
            nd.profondita as int == (if ar@[mi as int].profondita == 0 {
                0int
            } else {
                sat_add_usize(
                    ar@[mi as int].profondita as int,
                    ar@[mi as int].profondita as int + 1,
                )
            }),
    {
        let ghost az = self.grafo.az();
        let lunghezza = ar.len();
        let comune = ar[mi];
        let mut cur: usize = mi;
        let mut contatore: usize = 1;
        loop
            invariant
                self.wf(),
                az == self.grafo.az(),
                arena_ok(az, ar@),
                prof_limitate(ar@),
                ar@.len() == lunghezza,
                (mi as int) < ar@.len(),
                (cur as int) < ar@.len(),
                radice(ar@, cur as int) == radice(ar@, mi as int),
                contatore as int == ar@[mi as int].profondita - ar@[cur as int].profondita + 1,
            ensures
                (cur as int) < ar@.len(),
                ar@[cur as int].genitore is None,
                radice(ar@, cur as int) == radice(ar@, mi as int),
                contatore as int == ar@[mi as int].profondita + 1,
            decreases cur,
        {
            proof {
                assert(link_ok(az, ar@, cur as int));
            }
            match ar[cur].genitore {
                Some(p) => {
                    proof {
                        assert((p as int) < cur as int);
                        assert(ar@[p as int].profondita as int <= p as int);
                        assert(ar@[cur as int].profondita as int == sat_inc(
                            ar@[p as int].profondita as int,
                        ));
                        assert(ar@[cur as int].profondita as int == ar@[p as int].profondita
                            + 1);
                        assert(ar@[mi as int].profondita as int <= mi as int);
                    }
                    cur = p;
                    contatore = contatore.saturating_add(1);
                },
                None => {
                    proof {
                        assert(ar@[cur as int].profondita == 0);
                    }
                    break;
                },
            }
        }
        proof {
            assert(link_ok(az, ar@, cur as int));
            assert(radice(ar@, cur as int) == ar@[cur as int].stato);
            assert(ar@[cur as int].costo_cammino == 0);
        }
        let stato = ar[cur].stato;
        let azioni = copia_azioni(&self.grafo.nodi[stato as usize].azioni);
        match ar[mi].genitore {
            None => {
                proof {
                    assert(link_ok(az, ar@, mi as int));
                }
                Node {
                    stato,
                    azioni,
                    genitore: None,
                    costo_cammino: comune.costo_cammino,
                    profondita: comune.profondita,
                }
            },
            Some(_) => {
                proof {
                    assert(link_ok(az, ar@, mi as int));
                    assert(comune.profondita >= 1);
                }
                Node {
                    stato,
                    azioni,
                    genitore: None,
                    costo_cammino: add_costo(comune.costo_cammino, ar[cur].costo_cammino),
                    profondita: comune.profondita.saturating_add(contatore),
                }
            },
        }
    }

    /// Bidirectional search: when start and goal coincide the start node is
    /// returned at once, with depth 0 and cost 0 and nothing expanded.
    /// Otherwise two FIFO frontiers explore forward from the start and
    /// forward from the goal, inserting unseen children only; as soon as a
    /// state is reached from both sides, the goal-side record for it is
    /// walked to its root — the goal — and that node is returned with the
    /// meeting node's counters folded in, without splicing the start-side
    /// path. The search gives up only when a frontier empties, which cannot
    /// happen while the goal is reachable from the start and the start from
    /// the goal: success is owed on every such pair. On a one-way pair a
    /// failure is possible — the goal side explores forward edges too, so
    /// its frontier can empty early on a directed graph.
    #[verifier::loop_isolation(false)]
    #[verifier::rlimit(100)]
    #[verifier::spinoff_prover]
    pub fn bi_directional_search(&mut self) -> (r: SearchResult)
        requires
            old(self).wf(),
        ensures
            *final(self) == *old(self),
            !(r is CutOff),
            (reachable(
                old(self).adiacenze(),
                old(self).stato_iniziale as int,
                old(self).stato_finale as int,
            ) && reachable(
                old(self).adiacenze(),
                old(self).stato_finale as int,
                old(self).stato_iniziale as int,
            )) ==> r is Found,
            old(self).stato_iniziale == old(self).stato_finale ==> match r {
                SearchResult::Found(nd) => {
                    &&& nd.stato == old(self).stato_iniziale
                    &&& nd.profondita == 0
                    &&& nd.costo_cammino == 0
                    &&& nd.genitore is None
                    &&& node_wf(old(self).grafo.az(), nd)
                },
                _ => false,
            },
            match r {
                SearchResult::Found(nd) => {
                    &&& nd.stato == old(self).stato_finale
                    &&& nd.genitore is None
                    &&& nd.azioni@ == old(self).grafo.az()[old(self).stato_finale as int]
                    &&& exists|m: Node|
                        {
                            &&& #[trigger] node_wf(old(self).grafo.az(), m)
                            &&& node_root(m) == old(self).stato_finale
                            &&& reachable(
                                old(self).adiacenze(),
                                old(self).stato_iniziale as int,
                                m.stato as int,
                            )
                            &&& reachable(
                                old(self).adiacenze(),
                                old(self).stato_finale as int,
                                m.stato as int,
                            )
                            &&& nd.costo_cammino == m.costo_cammino
                            &&& nd.profondita as int == (if m.profondita == 0 {
                                0int
                            } else {
                                sat_add_usize(
                                    m.profondita as int,
                                    m.profondita as int + 1,
                                )
                            })
                        }
                },
                _ => true,
            },
    {
        let ghost az = self.grafo.az();
        let ghost ad = self.adiacenze();
        let s0 = self.stato_iniziale;
        let g0 = self.stato_finale;
        let n = self.grafo.nodi.len();
        proof {
            lemma_adiacenze_wf(self.grafo);
        }
        if s0 == g0 {
            let azioni = copia_azioni(&self.grafo.nodi[s0 as usize].azioni);
            let nd = Node { stato: s0, azioni, genitore: None, costo_cammino: 0, profondita: 0 };
            proof {
                assert(dist_at_most(ad, s0 as int, s0 as int, 0nat));
                assert(reachable(ad, s0 as int, s0 as int));
                assert(node_wf(az, nd));
                assert(node_root(nd) == g0 && reachable(ad, s0 as int, nd.stato as int)
                    && reachable(ad, g0 as int, nd.stato as int) && nd.costo_cammino
                    == nd.costo_cammino);
            }
            return SearchResult::Found(nd);
        }
        let mut arena_i: Vec<SearchNode> = Vec::new();
        arena_i.push(SearchNode { stato: s0, genitore: None, costo_cammino: 0, profondita: 0 });
        let mut arena_f: Vec<SearchNode> = Vec::new();
        arena_f.push(SearchNode { stato: g0, genitore: None, costo_cammino: 0, profondita: 0 });
        let mut raggiunti_i = nessuno_vec(n);
        raggiunti_i[s0 as usize] = Some(0usize);
        let mut raggiunti_f = nessuno_vec(n);
        raggiunti_f[g0 as usize] = Some(0usize);
        let mut frontiera_i: Vec<usize> = Vec::new();
        frontiera_i.push(0usize);
        let mut frontiera_f: Vec<usize> = Vec::new();
        frontiera_f.push(0usize);
        let mut testa_i: usize = 0;
        let mut testa_f: usize = 0;
        proof {
            assert(arena_ok(az, arena_i@)) by {
                assert(link_ok(az, arena_i@, 0));
            }
            assert(arena_ok(az, arena_f@)) by {
                assert(link_ok(az, arena_f@, 0));
            }
            assert(radice(arena_i@, 0) == s0);
            assert(radice(arena_f@, 0) == g0);
            assert(dist_at_most(ad, s0 as int, s0 as int, 0nat));
            assert(dist_at_most(ad, g0 as int, g0 as int, 0nat));
            assert(reachable(ad, s0 as int, s0 as int));
            assert(reachable(ad, g0 as int, g0 as int));
            assert(stato_in_frontiera(arena_i@, frontiera_i@.skip(0), s0 as int)) by {
                assert((arena_i@[(frontiera_i@.skip(0)[0]) as int].stato as int) == s0 as int);
            };
            assert(stato_in_frontiera(arena_f@, frontiera_f@.skip(0), g0 as int)) by {
                assert((arena_f@[(frontiera_f@.skip(0)[0]) as int].stato as int) == g0 as int);
            };
        }
        while testa_i < frontiera_i.len() && testa_f < frontiera_f.len()
            invariant
                testa_i <= frontiera_i@.len(),
                testa_f <= frontiera_f@.len(),
                raggiunti_i@.len() == n,
                raggiunti_f@.len() == n,
                arena_ok(az, arena_i@),
                arena_ok(az, arena_f@),
                prof_limitate(arena_i@),
                prof_limitate(arena_f@),
                raggiunti_radicati(ad, s0, arena_i@, raggiunti_i@),
                raggiunti_radicati(ad, g0, arena_f@, raggiunti_f@),
                frontiera_radicata(ad, s0, arena_i@, raggiunti_i@, frontiera_i@),
                frontiera_radicata(ad, g0, arena_f@, raggiunti_f@, frontiera_f@),
                raggiunti_i@[s0 as int] is Some,
                raggiunti_f@[g0 as int] is Some,
                forall|s: int|
                    0 <= s < n ==> !((#[trigger] raggiunti_i@[s]) is Some && raggiunti_f@[s]
                        is Some),
                forall|s: int|
                    0 <= s < n && (#[trigger] raggiunti_i@[s]) is Some && !stato_in_frontiera(
                        arena_i@,
                        frontiera_i@.skip(testa_i as int),
                        s,
                    ) ==> chiuso_b(ad, raggiunti_i@, s),
                forall|s: int|
                    0 <= s < n && (#[trigger] raggiunti_f@[s]) is Some && !stato_in_frontiera(
                        arena_f@,
                        frontiera_f@.skip(testa_f as int),
                        s,
                    ) ==> chiuso_b(ad, raggiunti_f@, s),
            decreases
                    conta_vuoti(raggiunti_i@) + conta_vuoti(raggiunti_f@),
                    (frontiera_i@.len() - testa_i) + (frontiera_f@.len() - testa_f),
        {
            let ghost ar_i0 = arena_i@;
            let ghost rg_i0 = raggiunti_i@;
            let ghost fr_i0 = frontiera_i@;
            let ghost testa_i0 = testa_i as int;
            let ghost ar_f0 = arena_f@;
            let ghost rg_f0 = raggiunti_f@;
            let ghost fr_f0 = frontiera_f@;
            let ghost testa_f0 = testa_f as int;
            let idx_i = frontiera_i[testa_i];
            testa_i = testa_i + 1;
            let idx_f = frontiera_f[testa_f];
            testa_f = testa_f + 1;
            self.bidir_espandi_lato(
                &mut arena_i,
                &mut raggiunti_i,
                &mut frontiera_i,
                idx_i,
                Ghost(s0),
            );
            proof {
                assert forall|q: int|
                    0 <= q < fr_i0.len() implies ((#[trigger] fr_i0[q]) as int)
                        < ar_i0.len() by {};
                assert forall|q: int|
                    0 <= q < frontiera_i@.len() implies ((#[trigger] frontiera_i@[q]) as int)
                        < arena_i@.len() by {};
                lemma_bidir_chiusura(
                    ad,
                    ar_i0,
                    rg_i0,
                    fr_i0,
                    testa_i0,
                    arena_i@,
                    raggiunti_i@,
                    frontiera_i@,
                    testa_i as int,
                    ar_i0[idx_i as int].stato as int,
                );
            }
            self.bidir_espandi_lato(
                &mut arena_f,
                &mut raggiunti_f,
                &mut frontiera_f,
                idx_f,
                Ghost(g0),
            );
            proof {
                assert forall|q: int|
                    0 <= q < fr_f0.len() implies ((#[trigger] fr_f0[q]) as int)
                        < ar_f0.len() by {};
                assert forall|q: int|
                    0 <= q < frontiera_f@.len() implies ((#[trigger] frontiera_f@[q]) as int)
                        < arena_f@.len() by {};
                lemma_bidir_chiusura(
                    ad,
                    ar_f0,
                    rg_f0,
                    fr_f0,
                    testa_f0,
                    arena_f@,
                    raggiunti_f@,
                    frontiera_f@,
                    testa_f as int,
                    ar_f0[idx_f as int].stato as int,
                );
            }
            let mut s_scan: usize = 0;
            while s_scan < n
                invariant
                    0 <= s_scan <= n,
                    raggiunti_i@.len() == n,
                    raggiunti_f@.len() == n,
                    arena_ok(az, arena_f@),
                    prof_limitate(arena_f@),
                    raggiunti_radicati(ad, s0, arena_i@, raggiunti_i@),
                    raggiunti_radicati(ad, g0, arena_f@, raggiunti_f@),
                    forall|s: int|
                        0 <= s < s_scan ==> !((#[trigger] raggiunti_i@[s]) is Some
                            && raggiunti_f@[s] is Some),
                decreases n - s_scan,
            {
                let in_i = raggiunti_i[s_scan].is_some();
                let in_f = match raggiunti_f[s_scan] {
                    Some(_) => true,
                    None => false,
                };
                if in_i && in_f {
                    let mi = match raggiunti_f[s_scan] {
                        Some(v) => v,
                        None => 0,
                    };
                    proof {
                        assert(raggiunti_f@[s_scan as int] is Some);
                        assert(radice(arena_f@, mi as int) == g0);
                        assert(reachable(ad, s0 as int, s_scan as int) && reachable(
                            ad,
                            g0 as int,
                            s_scan as int,
                        ));
                    }
                    let testimone = self.costruisci_nodo(&arena_f, mi);
                    let nd = self.ricostruisci(&arena_f, mi);
                    proof {
                        assert(testimone.stato == arena_f@[mi as int].stato);
                        assert(node_root(testimone) == g0);
                        assert(reachable(ad, s0 as int, testimone.stato as int));
                        assert(reachable(ad, g0 as int, testimone.stato as int));
                        assert(nd.costo_cammino == testimone.costo_cammino);
                        assert(node_wf(az, testimone) && node_root(testimone) == g0
                            && reachable(ad, s0 as int, testimone.stato as int) && reachable(
                            ad,
                            g0 as int,
                            testimone.stato as int,
                        ) && nd.costo_cammino == testimone.costo_cammino
                            && nd.profondita as int == (if testimone.profondita == 0 {
                            0int
                        } else {
                            sat_add_usize(
                                testimone.profondita as int,
                                testimone.profondita as int + 1,
                            )
                        }));
                    }
                    return SearchResult::Found(nd);
                }
                s_scan = s_scan + 1;
            }
        }
        proof {
            if reachable(ad, s0 as int, g0 as int) && reachable(ad, g0 as int, s0 as int) {
                if testa_i >= frontiera_i@.len() {
                    assert(frontiera_i@.skip(testa_i as int).len() == 0);
                    assert forall|s: int|
                        0 <= s < raggiunti_i@.len() && (#[trigger] raggiunti_i@[s]) is Some
                            implies chiuso_b(ad, raggiunti_i@, s) by {
                        assert(!stato_in_frontiera(
                            arena_i@,
                            frontiera_i@.skip(testa_i as int),
                            s,
                        ));
                    };
                    lemma_lato_chiuso_raggiunge(ad, s0, g0 as int, raggiunti_i@);
                    assert(raggiunti_i@[g0 as int] is Some && raggiunti_f@[g0 as int] is Some);
                } else {
                    assert(frontiera_f@.skip(testa_f as int).len() == 0);
                    assert forall|s: int|
                        0 <= s < raggiunti_f@.len() && (#[trigger] raggiunti_f@[s]) is Some
                            implies chiuso_b(ad, raggiunti_f@, s) by {
                        assert(!stato_in_frontiera(
                            arena_f@,
                            frontiera_f@.skip(testa_f as int),
                            s,
                        ));
                    };
                    lemma_lato_chiuso_raggiunge(ad, g0, s0 as int, raggiunti_f@);
                    assert(raggiunti_f@[s0 as int] is Some && raggiunti_i@[s0 as int] is Some);
                }
                assert(false);
            }
        }
        SearchResult::Failure
    }
}


/// The depth of the arena entry a reached or frontier index points at.
pub(crate) open spec fn ar_prof(ar: Seq<SearchNode>, i: usize) -> nat {
    ar[i as int].profondita as nat
}

} // verus!
