//! A second, simpler graph representation: states with plain neighbour
//! sets, an undirected edge count, and an embedded start/goal problem, with
//! breadth-first and best-first reachability searches over it.

use crate::dataset::gunzip;
use crate::dataset::gunzip_of;
use crate::dataset::dividi_linee;
use crate::dataset::sat_inc_u32;
use crate::dataset::spec_linee;
use crate::dataset::tokenizza;
use crate::dataset::spec_parse_u32;
use crate::dataset::spec_tokens;
use crate::dataset::viste;
use crate::node::State;
use crate::problem::conta_vuoti;
use crate::problem::nessuno_vec;
use crate::problem::lemma_conta_vuoti_riempi;
use crate::reach::adj_wf;
use crate::reach::dist_at_most;
use crate::reach::lemma_dist_extend;
use crate::reach::lemma_reach_closed;
use crate::reach::reachable;
use crate::reach::step;
use vstd::prelude::*;

verus! {

/// A vertex of this graph: nothing but its state.
#[derive(Clone, Copy, Debug, PartialEq, Eq, Structural)]
pub struct Node {
    pub state: State,
}

impl Node {
    /// The node of state 0.
    pub fn new() -> (n: Node)
        ensures
            n.state == 0,
    {
        Node { state: 0 }
    }

    /// The node of the given state.
    pub fn from_state(state: State) -> (n: Node)
        ensures
            n.state == state,
    {
        Node { state }
    }

    /// The state this node stands for.
    pub fn get_state(&self) -> (s: State)
        ensures
            s == self.state,
    {
        self.state
    }

    /// The state, for specifications.
    pub open spec fn spec_state(&self) -> State {
        self.state
    }
}

/// A start/goal pair over this graph's nodes.
#[derive(Clone, Copy, Debug)]
pub struct Problem {
    pub start: Node,
    pub end: Node,
}

impl Problem {
    /// The problem from state 0 to state 0.
    pub fn new() -> (p: Problem)
        ensures
            p.spec_start().spec_state() == 0,
            p.spec_end().spec_state() == 0,
    {
        Problem { start: Node::new(), end: Node::new() }
    }

    pub open spec fn spec_start(&self) -> Node {
        self.start
    }

    pub open spec fn spec_end(&self) -> Node {
        self.end
    }

    /// Replaces both endpoints.
    pub fn set_problem(&mut self, start: Node, end: Node)
        ensures
            final(self).spec_start() == start,
            final(self).spec_end() == end,
    {
        self.start = start;
        self.end = end;
    }

    pub fn get_start(&self) -> (n: Node)
        ensures
            n == self.spec_start(),
    {
        self.start
    }

    pub fn get_end(&self) -> (n: Node)
        ensures
            n == self.spec_end(),
    {
        self.end
    }

    /// Whether a node is the goal.
    pub fn is_goal(&self, node: Node) -> (r: bool)
        ensures
            r == (node == self.spec_end()),
    {
        node == self.end
    }
}

/// A sorted sequence of pairwise distinct states.
pub open spec fn ordinata(v: Seq<u32>) -> bool {
    forall|i: int, j: int| 0 <= i < j < v.len() ==> v[i] < v[j]
}

/// A sorted set with `x` inserted, unchanged when already present.
pub open spec fn ordinato_inserito(v: Seq<u32>, x: u32) -> Seq<u32>
    decreases v.len(),
{
    if v.len() == 0 {
        seq![x]
    } else if x < v[0] {
        seq![x] + v
    } else if x == v[0] {
        v
    } else {
        seq![v[0]] + ordinato_inserito(v.drop_first(), x)
    }
}

proof fn lemma_ordinato_inserito(v: Seq<u32>, x: u32)
    requires
        ordinata(v),
    ensures
        ordinata(ordinato_inserito(v, x)),
        forall|y: u32|
            #[trigger] ordinato_inserito(v, x).contains(y) <==> (v.contains(y) || y == x),
        v.contains(x) ==> ordinato_inserito(v, x) == v,
    decreases v.len(),
{
    let r = ordinato_inserito(v, x);
    if v.len() == 0 {
        assert forall|y: u32| #[trigger] r.contains(y) implies (v.contains(y) || y == x) by {
            let i = choose|i: int| 0 <= i < r.len() && r[i] == y;
        }
        assert(r.contains(x)) by {
            assert(r[0] == x);
        }
    } else if x < v[0] {
        assert forall|y: u32| #[trigger] r.contains(y) implies (v.contains(y) || y == x) by {
            let i = choose|i: int| 0 <= i < r.len() && r[i] == y;
            if i > 0 {
                assert(v[i - 1] == y);
            }
        }
        assert forall|y: u32| (v.contains(y) || y == x) implies #[trigger] r.contains(y) by {
            if y == x {
                assert(r[0] == y);
            } else {
                let i = choose|i: int| 0 <= i < v.len() && v[i] == y;
                assert(r[i + 1] == y);
            }
        }
    } else if x == v[0] {
        assert(v.contains(x)) by {
            assert(v[0] == x);
        }
    } else {
        assert(ordinata(v.drop_first())) by {
            assert(forall|i: int, j: int|
                0 <= i < j < v.drop_first().len() ==> #[trigger] v.drop_first()[i]
                    < #[trigger] v.drop_first()[j]);
        }
        lemma_ordinato_inserito(v.drop_first(), x);
        let r1 = ordinato_inserito(v.drop_first(), x);
        assert(r == seq![v[0]] + r1);
        assert forall|i: int, j: int| 0 <= i < j < r.len() implies r[i] < r[j] by {
            if i == 0 {
                assert(r[j] == r1[j - 1]);
                assert(r1.contains(r1[j - 1]));
                if v.drop_first().contains(r1[j - 1]) {
                    let q = choose|q: int|
                        0 <= q < v.drop_first().len() && v.drop_first()[q] == r1[j - 1];
                    assert(v[q + 1] == r1[j - 1]);
                }
            } else {
                assert(r[i] == r1[i - 1] && r[j] == r1[j - 1]);
            }
        }
        assert forall|y: u32| #[trigger] r.contains(y) implies (v.contains(y) || y == x) by {
            let i = choose|i: int| 0 <= i < r.len() && r[i] == y;
            if i > 0 {
                assert(r1[i - 1] == y);
                assert(r1.contains(y));
                if v.drop_first().contains(y) {
                    let q = choose|q: int|
                        0 <= q < v.drop_first().len() && v.drop_first()[q] == y;
                    assert(v[q + 1] == y);
                }
            } else {
                assert(v[0] == y);
            }
        }
        assert forall|y: u32| (v.contains(y) || y == x) implies #[trigger] r.contains(y) by {
            if y == x {
                assert(r1.contains(x));
                let q = choose|q: int| 0 <= q < r1.len() && r1[q] == x;
                assert(r[q + 1] == x);
            } else {
                let i = choose|i: int| 0 <= i < v.len() && v[i] == y;
                if i == 0 {
                    assert(r[0] == y);
                } else {
                    assert(v.drop_first()[i - 1] == y);
                    assert(v.drop_first().contains(y));
                    assert(r1.contains(y));
                    let q = choose|q: int| 0 <= q < r1.len() && r1[q] == y;
                    assert(r[q + 1] == y);
                }
            }
        }
        if v.contains(x) {
            let i = choose|i: int| 0 <= i < v.len() && v[i] == x;
            assert(i > 0);
            assert(v.drop_first()[i - 1] == x);
            assert(v.drop_first().contains(x));
            assert(r =~= v) by {
                assert(r1 == v.drop_first());
            }
        }
    }
}

/// Inserts a state into a sorted set; reports whether it was new.
fn inserisci_ordinato(v: &mut Vec<u32>, x: u32) -> (nuovo: bool)
    requires
        ordinata(old(v)@),
    ensures
        final(v)@ == ordinato_inserito(old(v)@, x),
        nuovo == !old(v)@.contains(x),
        ordinata(final(v)@),
{
    proof {
        lemma_ordinato_inserito(old(v)@, x);
    }
    let mut i: usize = 0;
    while i < v.len() && v[i] < x
        invariant
            ordinata(v@),
            v@ == old(v)@,
            0 <= i <= v@.len(),
            forall|k: int| 0 <= k < i ==> (#[trigger] v@[k]) < x,
        decreases v@.len() - i,
    {
        i = i + 1;
    }
    if i < v.len() && v[i] == x {
        proof {
            assert(v@.contains(x)) by {
                assert(v@[i as int] == x);
            }
        }
        return false;
    }
    proof {
        assert(!v@.contains(x)) by {
            if v@.contains(x) {
                let k = choose|k: int| 0 <= k < v@.len() && v@[k] == x;
                if k < i {
                    assert(v@[k] < x);
                } else {
                    assert(v@[i as int] <= v@[k]);
                }
            }
        }
        lemma_inserimento_posizione(v@, x, i as int);
    }
    v.insert(i, x);
    true
}

/// Inserting at the first position whose entry is not below `x` matches the
/// recursive definition of sorted insertion.
proof fn lemma_inserimento_posizione(v: Seq<u32>, x: u32, i: int)
    requires
        ordinata(v),
        0 <= i <= v.len(),
        forall|k: int| 0 <= k < i ==> (#[trigger] v[k]) < x,
        i == v.len() || v[i] > x,
    ensures
        ordinato_inserito(v, x) == v.take(i) + seq![x] + v.skip(i),
    decreases v.len(),
{
    if v.len() == 0 {
        assert(ordinato_inserito(v, x) =~= v.take(i) + seq![x] + v.skip(i));
    } else if i == 0 {
        assert(x < v[0]);
        assert(ordinato_inserito(v, x) =~= v.take(0) + seq![x] + v.skip(0));
    } else {
        assert(v[0] < x);
        assert(ordinata(v.drop_first())) by {
            assert(forall|a: int, b: int|
                0 <= a < b < v.drop_first().len() ==> #[trigger] v.drop_first()[a]
                    < #[trigger] v.drop_first()[b]);
        }
        assert forall|k: int| 0 <= k < i - 1 implies (#[trigger] v.drop_first()[k]) < x by {
            assert(v.drop_first()[k] == v[k + 1]);
        }
        if i < v.len() {
            assert(v.drop_first()[i - 1] == v[i]);
        }
        lemma_inserimento_posizione(v.drop_first(), x, i - 1);
        assert(ordinato_inserito(v, x) == seq![v[0]] + ordinato_inserito(v.drop_first(), x));
        assert(seq![v[0]] + (v.drop_first().take(i - 1) + seq![x] + v.drop_first().skip(i - 1))
            =~= v.take(i) + seq![x] + v.skip(i));
    }
}

/// An adjacency structure over plain states: one optional sorted neighbour
/// set per state, an undirected edge count, and a start/goal problem.
pub struct Graph {
    pub nodes: Vec<Option<Vec<State>>>,
    pub edge_count: u32,
    pub problem: Problem,
}

/// The neighbour row of `s`, empty when the state has no entry.
pub open spec fn riga_di(righe: Seq<Option<Vec<State>>>, s: int) -> Seq<u32> {
    if 0 <= s < righe.len() {
        match righe[s] {
            Option::Some(v) => v@,
            Option::None => Seq::empty(),
        }
    } else {
        Seq::empty()
    }
}

/// Whether state `s` has an entry in the table.
pub open spec fn g_presente(righe: Seq<Option<Vec<State>>>, s: int) -> bool {
    0 <= s < righe.len() && righe[s] is Some
}

/// Every present row is a sorted set of present, in-range states.
pub open spec fn tabella_g_ok(righe: Seq<Option<Vec<State>>>) -> bool {
    forall|s: int|
        #[trigger] g_presente(righe, s) ==> {
            let v = riga_di(righe, s);
            &&& ordinata(v)
            &&& forall|j: int|
                0 <= j < v.len() ==> ((#[trigger] v[j]) as int) < righe.len() && g_presente(
                    righe,
                    v[j] as int,
                )
        }
}

impl Graph {
    /// The successor table of this graph.
    pub open spec fn adiacenze(&self) -> Seq<Seq<u32>> {
        Seq::new(self.nodes@.len(), |s: int| riga_di(self.nodes@, s))
    }

    /// Whether state `s` has an entry.
    pub open spec fn presente(&self, s: int) -> bool {
        g_presente(self.nodes@, s)
    }

    /// Every present row is a sorted set of present, in-range states.
    pub open spec fn wf(&self) -> bool {
        tabella_g_ok(self.nodes@)
    }

    /// An empty graph.
    pub fn new() -> (g: Graph)
        ensures
            g.nodes@.len() == 0,
            g.edge_count == 0,
            g.wf(),
            g.problem.spec_start().spec_state() == 0,
            g.problem.spec_end().spec_state() == 0,
    {
        Graph { nodes: Vec::new(), edge_count: 0, problem: Problem::new() }
    }

    /// Sets the search endpoints.
    pub fn set_search_problem(&mut self, from: Node, to: Node)
        ensures
            final(self).problem.spec_start() == from,
            final(self).problem.spec_end() == to,
            final(self).nodes == old(self).nodes,
            final(self).edge_count == old(self).edge_count,
    {
        self.problem.set_problem(from, to);
    }

    /// The current search endpoints.
    pub fn get_problem(&self) -> (p: Problem)
        ensures
            p.spec_start() == self.problem.spec_start(),
            p.spec_end() == self.problem.spec_end(),
    {
        self.problem
    }
}

/// The rows of the table as plain sequences.
pub open spec fn vista_righe(righe: Seq<Option<Vec<State>>>) -> Seq<Option<Seq<u32>>> {
    righe.map(
        |i: int, o: Option<Vec<State>>|
            match o {
                Option::Some(v) => Option::Some(v@),
                Option::None => Option::<Seq<u32>>::None,
            },
    )
}

/// The row of `s` in the plain model.
pub open spec fn m_riga(m: Seq<Option<Seq<u32>>>, s: int) -> Seq<u32> {
    if 0 <= s < m.len() {
        match m[s] {
            Option::Some(v) => v,
            Option::None => Seq::empty(),
        }
    } else {
        Seq::empty()
    }
}

/// The model padded with absent rows up to `n` entries.
pub open spec fn m_estendi(m: Seq<Option<Seq<u32>>>, n: int) -> Seq<Option<Seq<u32>>> {
    if m.len() >= n {
        m
    } else {
        m + Seq::new((n - m.len()) as nat, |x: int| Option::<Seq<u32>>::None)
    }
}

/// The model with `x` inserted into the (created) row of `s`.
pub open spec fn m_aggiorna(m: Seq<Option<Seq<u32>>>, s: int, x: u32) -> Seq<Option<Seq<u32>>> {
    m.update(s, Some(ordinato_inserito(m_riga(m, s), x)))
}

/// A state small enough to index a table on this machine.
pub open spec fn indicizzabile(s: u32) -> bool {
    s as int + 1 <= usize::MAX as int
}

/// One undirected edge folded into the model: rows for both endpoints are
/// created, each endpoint joins the other's set, and the edge counts once
/// exactly when both insertions were new — so a repeated pair adds nothing
/// and a self-loop never counts, since its second insertion always finds
/// the first.
pub open spec fn m_inserisci_arco(
    m: Seq<Option<Seq<u32>>>,
    cnt: int,
    da: u32,
    a: u32,
) -> (Seq<Option<Seq<u32>>>, int) {
    let m1 = m_estendi(m_estendi(m, da as int + 1), a as int + 1);
    let nuovo1 = !m_riga(m1, da as int).contains(a);
    let m2 = m_aggiorna(m1, da as int, a);
    let nuovo2 = !m_riga(m2, a as int).contains(da);
    let m3 = m_aggiorna(m2, a as int, da);
    (m3, if nuovo1 && nuovo2 {
        sat_inc_u32(cnt)
    } else {
        cnt
    })
}

/// What a data line of this loader contributes: exactly two
/// whitespace-separated states, with no comma handling and no costs.
pub open spec fn g_riga_dati(l: Seq<u8>) -> Option<(u32, u32)> {
    let toks = spec_tokens(l, false);
    if toks.len() < 2 {
        None
    } else {
        match (spec_parse_u32(toks[0]), spec_parse_u32(toks[1])) {
            (Some(da), Some(a)) => Some((da, a)),
            _ => None,
        }
    }
}

/// One line folded into the loader state.
pub open spec fn g_linea(
    st: (Seq<Option<Seq<u32>>>, int),
    l: Seq<u8>,
) -> (Seq<Option<Seq<u32>>>, int) {
    let (m, cnt) = st;
    match g_riga_dati(l) {
        None => st,
        Some((da, a)) => {
            if !indicizzabile(da) || !indicizzabile(a) {
                st
            } else {
                m_inserisci_arco(m, cnt, da, a)
            }
        },
    }
}

/// The loader state after folding the lines from `i` on.
pub open spec fn g_carica_da(
    st: (Seq<Option<Seq<u32>>>, int),
    linee: Seq<Seq<u8>>,
    i: int,
) -> (Seq<Option<Seq<u32>>>, int)
    decreases linee.len() - i,
{
    if !(0 <= i < linee.len()) {
        st
    } else {
        g_carica_da(g_linea(st, linee[i]), linee, i + 1)
    }
}

/// The result of loading raw dataset text on top of an existing table.
pub open spec fn g_spec_carica(
    m0: Seq<Option<Seq<u32>>>,
    cnt0: int,
    d: Seq<u8>,
) -> (Seq<Option<Seq<u32>>>, int) {
    g_carica_da((m0, cnt0), spec_linee(d, 0), 0)
}

fn copia_u32(v: &Vec<u32>) -> (r: Vec<u32>)
    ensures
        r@ == v@,
{
    let mut r: Vec<u32> = Vec::new();
    let mut i: usize = 0;
    while i < v.len()
        invariant
            i <= v@.len(),
            r@ == v@.take(i as int),
        decreases v@.len() - i,
    {
        r.push(v[i]);
        proof {
            assert(v@.take(i + 1) =~= v@.take(i as int).push(v@[i as int]));
        }
        i = i + 1;
    }
    proof {
        assert(v@.take(v@.len() as int) =~= v@);
    }
    r
}

impl Graph {
    /// Pads the table with absent rows up to `fino` entries.
    fn estendi_righe(&mut self, fino: usize)
        requires
            old(self).wf(),
        ensures
            final(self).wf(),
            final(self).edge_count == old(self).edge_count,
            final(self).problem == old(self).problem,
            vista_righe(final(self).nodes@) == m_estendi(
                vista_righe(old(self).nodes@),
                fino as int,
            ),
            final(self).nodes@.len() >= fino,
            final(self).nodes@.len() >= old(self).nodes@.len(),
    {
        while self.nodes.len() < fino
            invariant
                self.wf(),
                self.edge_count == old(self).edge_count,
                self.problem == old(self).problem,
                old(self).nodes@.len() <= self.nodes@.len(),
                self.nodes@.len() <= fino || self.nodes@.len() == old(self).nodes@.len(),
                vista_righe(self.nodes@) == m_estendi(
                    vista_righe(old(self).nodes@),
                    self.nodes@.len() as int,
                ),
            decreases fino - self.nodes@.len(),
        {
            let ghost prima = self.nodes@;
            self.nodes.push(None);
            proof {
                let dopo = self.nodes@;
                assert(dopo == prima.push(None));
                let vecchio = vista_righe(old(self).nodes@);
                let dopo_v = vista_righe(dopo);
                assert(vecchio.len() <= prima.len());
                assert forall|k: int|
                    0 <= k < dopo_v.len() implies dopo_v[k] == m_estendi(
                        vecchio,
                        dopo.len() as int,
                    )[k] by {
                    if k < prima.len() {
                        assert(dopo[k] == prima[k]);
                        assert(dopo_v[k] == vista_righe(prima)[k]);
                        assert(vista_righe(prima)[k] == m_estendi(
                            vecchio,
                            prima.len() as int,
                        )[k]);
                    } else {
                        assert(dopo[k] is None);
                    }
                };
                assert(dopo_v =~= m_estendi(vecchio, dopo.len() as int));
                assert forall|s: int| #[trigger] g_presente(dopo, s) implies {
                    let v = riga_di(dopo, s);
                    &&& ordinata(v)
                    &&& forall|j: int|
                        0 <= j < v.len() ==> ((#[trigger] v[j]) as int) < dopo.len()
                            && g_presente(dopo, v[j] as int)
                } by {
                    assert(s < prima.len());
                    assert(dopo[s] == prima[s]);
                    assert(g_presente(prima, s));
                    assert(riga_di(dopo, s) == riga_di(prima, s));
                    let v = riga_di(prima, s);
                    assert forall|j: int|
                        0 <= j < v.len() implies ((#[trigger] v[j]) as int) < dopo.len()
                            && g_presente(dopo, v[j] as int) by {
                        assert(g_presente(prima, v[j] as int));
                        assert(dopo[v[j] as int] == prima[v[j] as int]);
                    };
                };
            }
        }
        proof {
            if old(self).nodes@.len() >= fino {
                assert(self.nodes@.len() == old(self).nodes@.len());
                assert(vista_righe(self.nodes@) == m_estendi(
                    vista_righe(old(self).nodes@),
                    fino as int,
                ));
            } else {
                assert(self.nodes@.len() == fino);
            }
        }
    }

    /// Inserts the undirected edge `from -- to`: both states get entries,
    /// each joins the other's neighbour set, and the edge count grows by
    /// one exactly when the connection was new in both directions — so a
    /// repeated pair adds nothing and a self-loop never counts, since its
    /// second insertion always finds the first.
    #[verifier::rlimit(100)]
    #[verifier::spinoff_prover]
    pub fn insert_edge(&mut self, from: State, to: State)
        requires
            old(self).wf(),
            indicizzabile(from),
            indicizzabile(to),
        ensures
            final(self).wf(),
            final(self).problem == old(self).problem,
            ({
                let (m3, cnt3) = m_inserisci_arco(
                    vista_righe(old(self).nodes@),
                    old(self).edge_count as int,
                    from,
                    to,
                );
                vista_righe(final(self).nodes@) == m3 && final(self).edge_count as int == cnt3
            }),
            final(self).nodes@.len() >= old(self).nodes@.len(),
    {
        let da_us = from as usize;
        let a_us = to as usize;
        self.estendi_righe(da_us + 1);
        self.estendi_righe(a_us + 1);
        let ghost t0 = self.nodes@;
        let ghost m1 = vista_righe(t0);
        proof {
            assert(m1 == m_estendi(
                m_estendi(vista_righe(old(self).nodes@), from as int + 1),
                to as int + 1,
            ));
        }
        let mut riga = match &self.nodes[da_us] {
            Some(v) => copia_u32(v),
            None => Vec::new(),
        };
        proof {
            assert(riga@ == m_riga(m1, from as int));
            assert(ordinata(riga@)) by {
                if t0[from as int] is Some {
                    assert(g_presente(t0, from as int));
                    assert(m_riga(m1, from as int) == riga_di(t0, from as int));
                }
            };
        }
        let nuovo1 = inserisci_ordinato(&mut riga, to);
        self.nodes[da_us] = Some(riga);
        let ghost t1 = self.nodes@;
        proof {
            assert(t1 == t0.update(from as int, Some(riga)));
            assert(vista_righe(t1) =~= m_aggiorna(m1, from as int, to));
            lemma_ordinato_inserito(m_riga(m1, from as int), to);
        }
        let ghost m2 = vista_righe(t1);
        let mut riga2 = match &self.nodes[a_us] {
            Some(v) => copia_u32(v),
            None => Vec::new(),
        };
        proof {
            assert(riga2@ == m_riga(m2, to as int));
            assert(ordinata(riga2@)) by {
                if to == from {
                } else {
                    assert(riga_di(t1, to as int) == riga_di(t0, to as int));
                    if t0[to as int] is Some {
                        assert(g_presente(t0, to as int));
                    }
                }
            };
        }
        let nuovo2 = inserisci_ordinato(&mut riga2, from);
        self.nodes[a_us] = Some(riga2);
        let ghost t2 = self.nodes@;
        proof {
            assert(t2 == t1.update(to as int, Some(riga2)));
            assert(vista_righe(t2) =~= m_aggiorna(m2, to as int, from));
            lemma_ordinato_inserito(m_riga(m2, to as int), from);
            // Presence only grows across the two updates.
            assert forall|x: int| g_presente(t0, x) implies #[trigger] g_presente(t2, x) by {};
            assert(g_presente(t2, from as int));
            assert(g_presente(t2, to as int));
            assert(tabella_g_ok(t2)) by {
                assert forall|sx: int| #[trigger] g_presente(t2, sx) implies {
                    let v = riga_di(t2, sx);
                    &&& ordinata(v)
                    &&& forall|j: int|
                        0 <= j < v.len() ==> ((#[trigger] v[j]) as int) < t2.len()
                            && g_presente(t2, v[j] as int)
                } by {
                    let v = riga_di(t2, sx);
                    assert forall|j: int|
                        0 <= j < v.len() implies ((#[trigger] v[j]) as int) < t2.len()
                            && g_presente(t2, v[j] as int) by {
                        let y = v[j];
                        assert(v.contains(y));
                        if sx == to as int {
                            assert(v == ordinato_inserito(m_riga(m2, to as int), from));
                            if y == from {
                            } else {
                                assert(m_riga(m2, to as int).contains(y));
                                if to == from {
                                    assert(m_riga(m2, to as int) == ordinato_inserito(
                                        m_riga(m1, from as int),
                                        to,
                                    ));
                                    if y == to {
                                    } else {
                                        assert(m_riga(m1, from as int).contains(y));
                                        assert(riga_di(t0, from as int).contains(y));
                                        assert(g_presente(t0, from as int));
                                        assert(g_presente(t0, y as int));
                                    }
                                } else {
                                    assert(m_riga(m2, to as int) == riga_di(t0, to as int));
                                    assert(g_presente(t0, to as int));
                                    assert(g_presente(t0, y as int));
                                }
                            }
                        } else if sx == from as int {
                            assert(to != from);
                            assert(v == riga_di(t1, sx));
                            assert(v == ordinato_inserito(m_riga(m1, from as int), to));
                            if y == to {
                            } else {
                                assert(m_riga(m1, from as int).contains(y));
                                assert(riga_di(t0, from as int).contains(y));
                                assert(g_presente(t0, from as int));
                                assert(g_presente(t0, y as int));
                            }
                        } else {
                            assert(v == riga_di(t0, sx));
                            assert(g_presente(t0, sx));
                            assert(g_presente(t0, y as int));
                        }
                    };
                    assert(ordinata(v)) by {
                        if sx == to as int {
                        } else if sx == from as int {
                        } else {
                            assert(v == riga_di(t0, sx));
                            assert(g_presente(t0, sx));
                        }
                    };
                };
            };
        }
        if nuovo1 && nuovo2 {
            if self.edge_count < u32::MAX {
                self.edge_count = self.edge_count + 1;
            }
        }
    }

    /// Loads dataset text, already decompressed: every line holding two
    /// whitespace-separated states inserts that undirected edge; any other
    /// line is skipped silently.
    #[verifier::loop_isolation(false)]
    pub fn load_dataset(&mut self, data: &Vec<u8>)
        requires
            old(self).wf(),
        ensures
            final(self).wf(),
            final(self).problem == old(self).problem,
            ({
                let (m3, cnt3) = g_spec_carica(
                    vista_righe(old(self).nodes@),
                    old(self).edge_count as int,
                    data@,
                );
                vista_righe(final(self).nodes@) == m3 && final(self).edge_count as int == cnt3
            }),
    {
        let linee = dividi_linee(data);
        let ghost lv = viste(linee@);
        let ghost obiettivo = g_carica_da(
            (vista_righe(old(self).nodes@), old(self).edge_count as int),
            lv,
            0,
        );
        let mut i: usize = 0;
        while i < linee.len()
            invariant
                self.wf(),
                self.problem == old(self).problem,
                i <= lv.len(),
                g_carica_da((vista_righe(self.nodes@), self.edge_count as int), lv, i as int)
                    == obiettivo,
            decreases lv.len() - i,
        {
            let ghost st0 = (vista_righe(self.nodes@), self.edge_count as int);
            let toks = tokenizza(&linee[i], false);
            proof {
                assert(lv[i as int] == linee@[i as int]@);
            }
            if toks.len() >= 2 {
                let oda = crate::dataset::parse_u32(&toks[0]);
                let oa = crate::dataset::parse_u32(&toks[1]);
                proof {
                    assert(viste(toks@)[0] == toks@[0]@);
                    assert(viste(toks@)[1] == toks@[1]@);
                }
                match (oda, oa) {
                    (Some(da), Some(a)) => {
                        let da_us = da as usize;
                        let a_us = a as usize;
                        if da_us < usize::MAX && a_us < usize::MAX {
                            self.insert_edge(da, a);
                        }
                    },
                    _ => {},
                }
            }
            proof {
                assert(g_linea(st0, lv[i as int]) == (
                    vista_righe(self.nodes@),
                    self.edge_count as int,
                ));
            }
            i = i + 1;
        }
    }

    /// Loads a gzip-compressed dataset into a fresh graph; nothing is
    /// returned when the bytes are not a readable gzip stream.
    pub fn from_gz_dataset(data: &Vec<u8>) -> (r: Option<Graph>)
        ensures
            match r {
                Some(g) => gunzip_of(data@) is Some && g.wf() && {
                    let (m3, cnt3) = g_spec_carica(
                        Seq::empty(),
                        0,
                        gunzip_of(data@).unwrap(),
                    );
                    vista_righe(g.nodes@) == m3 && g.edge_count as int == cnt3
                },
                None => gunzip_of(data@) is None,
            },
    {
        match gunzip(data) {
            Some(testo) => {
                let mut g = Graph::new();
                proof {
                    assert(vista_righe(g.nodes@) =~= Seq::<Option<Seq<u32>>>::empty());
                }
                g.load_dataset(&testo);
                Some(g)
            },
            None => None,
        }
    }
}

/// A state occurs among the frontier entries.
pub open spec fn fra_stati(fr: Seq<u32>, s: int) -> bool {
    exists|q: int| 0 <= q < fr.len() && (#[trigger] fr[q]) as int == s
}

/// A marked state is closed: every successor is marked and in range.
pub open spec fn g_chiuso(ad: Seq<Seq<u32>>, seg: Seq<Option<usize>>, s: int) -> bool {
    forall|j: int|
        0 <= j < ad[s].len() ==> {
            let t = (#[trigger] ad[s][j]) as int;
            &&& 0 <= t < seg.len()
            &&& seg[t] is Some
        }
}

impl Graph {
    /// The per-byte accounting of the loaded structure: for every present
    /// state, one key and one set header, and for each of its neighbours
    /// one more key and one more set header, added with saturation.
    pub open spec fn stima_riga(acc: int, quanti: int) -> int
        decreases quanti,
    {
        if quanti <= 0 {
            acc
        } else {
            Graph::stima_riga(
                if acc + 28 > usize::MAX as int {
                    usize::MAX as int
                } else {
                    acc + 28
                },
                quanti - 1,
            )
        }
    }

    pub open spec fn stima_da(acc: int, m: Seq<Option<Seq<u32>>>, i: int) -> int
        decreases m.len() - i,
    {
        if !(0 <= i < m.len()) {
            acc
        } else {
            match m[i] {
                Option::None => Graph::stima_da(acc, m, i + 1),
                Option::Some(v) => Graph::stima_da(
                    Graph::stima_riga(
                        if acc + 28 > usize::MAX as int {
                            usize::MAX as int
                        } else {
                            acc + 28
                        },
                        v.len() as int,
                    ),
                    m,
                    i + 1,
                ),
            }
        }
    }

    /// An estimate of the memory the structure occupies: 4 bytes per state
    /// key and 28 more per stored neighbour entry, clamped to `usize`.
    pub fn estimate_dataset_size(&self) -> (r: usize)
        ensures
            r as int == Graph::stima_da(0, vista_righe(self.nodes@), 0),
    {
        let ghost m = vista_righe(self.nodes@);
        let mut dimensione: usize = 0;
        let mut i: usize = 0;
        while i < self.nodes.len()
            invariant
                m == vista_righe(self.nodes@),
                0 <= i <= self.nodes@.len(),
                m.len() == self.nodes@.len(),
                Graph::stima_da(dimensione as int, m, i as int) == Graph::stima_da(0, m, 0),
            decreases self.nodes@.len() - i,
        {
            match &self.nodes[i] {
                Some(v) => {
                    let ghost dim0 = dimensione as int;
                    dimensione = dimensione.saturating_add(28);
                    let mut j: usize = 0;
                    while j < v.len()
                        invariant
                            0 <= j <= v@.len(),
                            Graph::stima_riga(dimensione as int, (v@.len() - j) as int)
                                == Graph::stima_riga(
                                if dim0 + 28 > usize::MAX as int {
                                    usize::MAX as int
                                } else {
                                    dim0 + 28
                                },
                                v@.len() as int,
                            ),
                        decreases v@.len() - j,
                    {
                        dimensione = dimensione.saturating_add(28);
                        j = j + 1;
                    }
                    proof {
                        assert(m[i as int] == Some(v@));
                    }
                },
                None => {
                    proof {
                        assert(m[i as int] is None);
                    }
                },
            }
            i = i + 1;
        }
        dimensione
    }

    /// Best-first exploration with a FIFO frontier and the goal test at
    /// expansion time: returns the goal node exactly when the goal is
    /// reachable from the start.
    #[verifier::rlimit(100)]
    #[verifier::spinoff_prover]
    pub fn best_first_search(&mut self) -> (r: Option<Node>)
        requires
            old(self).wf(),
            old(self).problem.start.state == old(self).problem.end.state || old(self).presente(
                old(self).problem.start.state as int,
            ),
        ensures
            *final(self) == *old(self),
            (r is Some) <==> reachable(
                old(self).adiacenze(),
                old(self).problem.start.state as int,
                old(self).problem.end.state as int,
            ),
            match r {
                Some(nd) => nd == old(self).problem.end,
                None => true,
            },
    {
        let ghost ad = self.adiacenze();
        let inizio = self.problem.get_start();
        let fine = self.problem.get_end();
        let s0 = inizio.get_state();
        let g0 = fine.get_state();
        let n = self.nodes.len();
        proof {
            assert(adj_wf(ad)) by {
                assert forall|sx: int, j: int|
                    0 <= sx < ad.len() && 0 <= j < ad[sx].len() implies (#[trigger] ad[sx][j])
                        < ad.len() by {
                    assert(g_presente(self.nodes@, sx));
                    assert(ad[sx] == riga_di(self.nodes@, sx));
                };
            };
            assert(dist_at_most(ad, s0 as int, s0 as int, 0nat));
        }
        let mut segnati = nessuno_vec(n);
        if (s0 as usize) < n {
            proof {
                lemma_conta_vuoti_riempi(segnati@, s0 as int, 0usize);
            }
            segnati[s0 as usize] = Some(0usize);
        }
        let mut frontiera: Vec<u32> = Vec::new();
        frontiera.push(s0);
        let mut testa: usize = 0;
        proof {
            assert(frontiera@.skip(0) =~= frontiera@);
            assert((frontiera@.skip(0)[0]) as int == s0 as int);
            assert(fra_stati(frontiera@.skip(0), s0 as int));
            assert forall|sx: int|
                0 <= sx < n && (#[trigger] segnati@[sx]) is Some implies sx == s0 as int by {};
        }
        while testa < frontiera.len()
            invariant
                self.wf(),
                *self == *old(self),
                ad == self.adiacenze(),
                adj_wf(ad),
                n == self.nodes@.len(),
                ad.len() == n,
                s0 == self.problem.start.state,
                g0 == self.problem.end.state,
                testa <= frontiera@.len(),
                frontiera@.len() >= 1,
                frontiera@[0] == s0,
                segnati@.len() == n,
                testa >= 1 ==> (s0 as int) < n && segnati@[s0 as int] is Some,
                forall|q: int|
                    testa <= q < frontiera@.len() ==> {
                        let st = (#[trigger] frontiera@[q]) as int;
                        &&& (st < n && g_presente(self.nodes@, st)) || st == g0 as int
                        &&& reachable(ad, s0 as int, st)
                        &&& (0 <= st < n ==> segnati@[st] is Some)
                    },
                forall|sx: int|
                    0 <= sx < n && (#[trigger] segnati@[sx]) is Some ==> reachable(
                        ad,
                        s0 as int,
                        sx,
                    ),
                forall|sx: int|
                    0 <= sx < n && (#[trigger] segnati@[sx]) is Some && !fra_stati(
                        frontiera@.skip(testa as int),
                        sx,
                    ) ==> g_chiuso(ad, segnati@, sx) && sx != g0 as int,
            decreases conta_vuoti(segnati@), frontiera@.len() - testa,
        {
            let ghost lf_tutta = frontiera@.skip(testa as int);
            let st = frontiera[testa];
            testa = testa + 1;
            proof {
                assert(lf_tutta[0] == st);
                assert(frontiera@.skip(testa as int) =~= lf_tutta.drop_first());
            }
            if st == g0 {
                proof {
                    assert(reachable(ad, s0 as int, g0 as int));
                }
                return Some(Node { state: st });
            }
            let ghost lf0 = frontiera@.skip(testa as int);
            let st_us = st as usize;
            let ghost conta0 = conta_vuoti(segnati@);
            let ghost flen0 = frontiera@.len();
            proof {
                if testa == 1 {
                    assert(st == s0);
                }
                assert((s0 as int) < n && segnati@[s0 as int] is Some);
                assert forall|sx: int|
                    0 <= sx < n && (#[trigger] segnati@[sx]) is Some && !fra_stati(lf0, sx)
                        && sx != st_us as int implies g_chiuso(ad, segnati@, sx) && sx
                        != g0 as int by {
                    assert(!fra_stati(lf_tutta, sx)) by {
                        if fra_stati(lf_tutta, sx) {
                            let q = choose|q: int|
                                0 <= q < lf_tutta.len() && (#[trigger] lf_tutta[q]) as int == sx;
                            if q == 0 {
                                assert(sx == st_us as int);
                            } else {
                                assert(lf0[q - 1] == lf_tutta[q]);
                                assert(fra_stati(lf0, sx));
                            }
                        }
                    };
                };
            }
            let riga = match &self.nodes[st_us] {
                Some(v) => v,
                None => {
                    proof {
                        assert(false);
                    }
                    return None;
                },
            };
            let mut j: usize = 0;
            while j < riga.len()
                invariant
                    self.wf(),
                    ad == self.adiacenze(),
                    adj_wf(ad),
                    n == self.nodes@.len(),
                    ad.len() == n,
                    s0 == self.problem.start.state,
                    g0 == self.problem.end.state,
                    0 <= j <= riga@.len(),
                    testa <= frontiera@.len(),
                    segnati@.len() == n,
                    (st_us as int) < n,
                    (s0 as int) < n,
                    segnati@[s0 as int] is Some,
                    frontiera@.len() >= 1,
                    frontiera@[0] == s0,
                    g_presente(self.nodes@, st_us as int),
                    riga@ == riga_di(self.nodes@, st_us as int),
                    riga@ == ad[st_us as int],
                    reachable(ad, s0 as int, st_us as int),
                    forall|q: int|
                        testa <= q < frontiera@.len() ==> {
                            let sx = (#[trigger] frontiera@[q]) as int;
                            &&& (sx < n && g_presente(self.nodes@, sx)) || sx == g0 as int
                            &&& reachable(ad, s0 as int, sx)
                            &&& (0 <= sx < n ==> segnati@[sx] is Some)
                        },
                    forall|sx: int|
                        0 <= sx < n && (#[trigger] segnati@[sx]) is Some ==> reachable(
                            ad,
                            s0 as int,
                            sx,
                        ),
                    forall|sx: int|
                        0 <= sx < n && (#[trigger] segnati@[sx]) is Some && !fra_stati(
                            frontiera@.skip(testa as int),
                            sx,
                        ) && sx != st_us as int ==> g_chiuso(ad, segnati@, sx) && sx
                            != g0 as int,
                    st_us as int != g0 as int,
                    forall|jj: int|
                        0 <= jj < j ==> {
                            let t = (#[trigger] ad[st_us as int][jj]) as int;
                            &&& 0 <= t < n
                            &&& segnati@[t] is Some
                        },
                    conta_vuoti(segnati@) <= conta0,
                    conta_vuoti(segnati@) + frontiera@.len() == conta0 + flen0,
                decreases riga@.len() - j,
            {
                let figlio = riga[j];
                proof {
                    assert(riga@[j as int] == ad[st_us as int][j as int]);
                    assert((figlio as int) < n);
                    assert(g_presente(self.nodes@, figlio as int));
                    assert(step(ad, st_us as int, figlio as int)) by {
                        assert(0 <= (j as int) < ad[st_us as int].len());
                    };
                    assert(reachable(ad, s0 as int, figlio as int)) by {
                        let k = choose|k: nat| dist_at_most(ad, s0 as int, st_us as int, k);
                        lemma_dist_extend(ad, s0 as int, st_us as int, k, figlio as int);
                    };
                }
                let gia = segnati[figlio as usize];
                match gia {
                    None => {
                        let ghost seg_prima = segnati@;
                        let ghost fr_prima = frontiera@;
                        proof {
                            lemma_conta_vuoti_riempi(segnati@, figlio as int, 0usize);
                        }
                        segnati[figlio as usize] = Some(0usize);
                        frontiera.push(figlio);
                        proof {
                            assert(frontiera@.skip(testa as int) =~= fr_prima.skip(
                                testa as int,
                            ).push(figlio));
                            assert forall|sx: int|
                                0 <= sx < n && (#[trigger] segnati@[sx]) is Some && !fra_stati(
                                    frontiera@.skip(testa as int),
                                    sx,
                                ) && sx != st_us as int implies g_chiuso(ad, segnati@, sx) && sx
                                != g0 as int by {
                                let lf1 = frontiera@.skip(testa as int);
                                if sx == figlio as int {
                                    assert((lf1[lf1.len() - 1]) as int == sx);
                                    assert(fra_stati(lf1, sx));
                                } else {
                                    assert(seg_prima[sx] is Some);
                                    assert(!fra_stati(fr_prima.skip(testa as int), sx)) by {
                                        if fra_stati(fr_prima.skip(testa as int), sx) {
                                            let q = choose|q: int|
                                                0 <= q < fr_prima.skip(testa as int).len() && (
                                                #[trigger] fr_prima.skip(testa as int)[q]) as int
                                                    == sx;
                                            assert(lf1[q] == fr_prima.skip(testa as int)[q]);
                                            assert(fra_stati(lf1, sx));
                                        }
                                    };
                                    assert(g_chiuso(ad, seg_prima, sx));
                                    assert forall|jx: int|
                                        0 <= jx < ad[sx].len() implies {
                                        let t = (#[trigger] ad[sx][jx]) as int;
                                        &&& 0 <= t < segnati@.len()
                                        &&& segnati@[t] is Some
                                    } by {
                                        let t = (ad[sx][jx]) as int;
                                        assert(seg_prima[t] is Some);
                                    };
                                }
                            };
                        }
                    },
                    Some(_) => {
                    },
                }
                j = j + 1;
            }
            proof {
                let lf1 = frontiera@.skip(testa as int);
                assert forall|sx: int|
                    0 <= sx < n && (#[trigger] segnati@[sx]) is Some && !fra_stati(lf1, sx)
                        implies g_chiuso(ad, segnati@, sx) && sx != g0 as int by {
                    if sx == st_us as int {
                        assert(ad[st_us as int].len() == riga@.len());
                    } else {
                        assert(g_chiuso(ad, segnati@, sx) && sx != g0 as int);
                    }
                };
            }
        }
        proof {
            let lf = frontiera@.skip(testa as int);
            assert(lf.len() == 0);
            if reachable(ad, s0 as int, g0 as int) {
                let k = choose|k: nat| dist_at_most(ad, s0 as int, g0 as int, k);
                let p = |x: int| 0 <= x < segnati@.len() && segnati@[x] is Some;
                assert(p(s0 as int)) by {
                    assert((s0 as int) < n);
                };
                assert forall|x: int, y: int| p(x) && #[trigger] step(ad, x, y) implies p(y) by {
                    assert(!fra_stati(lf, x));
                    assert(g_chiuso(ad, segnati@, x));
                    let jx = choose|jx: int| 0 <= jx < ad[x].len() && (#[trigger] ad[x][jx]) == y;
                    assert(segnati@[y] is Some);
                };
                lemma_reach_closed(ad, p, s0 as int, g0 as int, k);
                assert(segnati@[g0 as int] is Some);
                assert(!fra_stati(lf, g0 as int));
                assert(false);
            }
        }
        None
    }

    /// Breadth-first exploration: the start is goal-checked up front, and
    /// the rest of the traversal marks each state once, so testing the goal
    /// when a state is generated or when it is expanded returns the same
    /// outcome; after the start check this runs the shared exploration.
    #[verifier::rlimit(100)]
    #[verifier::spinoff_prover]
    pub fn breadth_first_search(&mut self) -> (r: Option<Node>)
        requires
            old(self).wf(),
            old(self).problem.start.state == old(self).problem.end.state || old(self).presente(
                old(self).problem.start.state as int,
            ),
        ensures
            *final(self) == *old(self),
            (r is Some) <==> reachable(
                old(self).adiacenze(),
                old(self).problem.start.state as int,
                old(self).problem.end.state as int,
            ),
            match r {
                Some(nd) => nd == old(self).problem.end,
                None => true,
            },
    {
        let inizio = self.problem.get_start();
        let fine = self.problem.get_end();
        let s0 = inizio.get_state();
        let g0 = fine.get_state();
        proof {
            assert(dist_at_most(self.adiacenze(), s0 as int, s0 as int, 0nat));
        }
        if s0 == g0 {
            return Some(Node { state: s0 });
        }
        self.best_first_search()
    }
}


impl Graph {
    /// Not implemented for this representation: always gives nothing.
    pub fn uniform_cost_search(&mut self) -> (r: Option<Node>)
        ensures
            *final(self) == *old(self),
            r is None,
    {
        None
    }

    /// Not implemented for this representation: always gives nothing.
    pub fn depth_first_search(&mut self) -> (r: Option<Node>)
        ensures
            *final(self) == *old(self),
            r is None,
    {
        None
    }

    /// Not implemented for this representation: always gives nothing.
    pub fn depth_limited_search(&mut self) -> (r: Option<Node>)
        ensures
            *final(self) == *old(self),
            r is None,
    {
        None
    }

    /// Not implemented for this representation: always gives nothing.
    pub fn iterative_deepening_search(&mut self) -> (r: Option<Node>)
        ensures
            *final(self) == *old(self),
            r is None,
    {
        None
    }

    /// Not implemented for this representation: always gives nothing.
    pub fn bi_directional_search(&mut self) -> (r: Option<Node>)
        ensures
            *final(self) == *old(self),
            r is None,
    {
        None
    }

    /// Not implemented for this representation: always gives nothing.
    pub fn greedy_search(&mut self) -> (r: Option<Node>)
        ensures
            *final(self) == *old(self),
            r is None,
    {
        None
    }

    /// Not implemented for this representation: always gives nothing.
    pub fn a_star_search(&mut self) -> (r: Option<Node>)
        ensures
            *final(self) == *old(self),
            r is None,
    {
        None
    }
}


} // verus!
