//! The Node / Action data model of the search tree.

use vstd::prelude::*;

verus! {

/// A state is an opaque vertex identifier in the search graph.
pub type State = u32;

/// A directed transition: the target state and the edge cost.
#[derive(Clone, Copy, Debug)]
pub struct Action {
    pub risultato: State,
    pub costo: i32,
}

/// A search-tree element: a state, a snapshot of that state's outgoing
/// actions, an optional exclusively-owned predecessor, the accumulated path
/// cost and the depth. The predecessor chain is acyclic by construction and
/// ends in a root of depth 0.
#[derive(Debug)]
pub struct Node {
    pub stato: State,
    pub azioni: Vec<Action>,
    pub genitore: Option<Box<Node>>,
    pub costo_cammino: i32,
    pub profondita: usize,
}

/// Saturating addition on the range of `i32`: path costs accumulate with this
/// operation, so the searches never abort on extreme inputs.
pub open spec fn sat_add_i32(a: int, b: int) -> int {
    if a + b > i32::MAX {
        i32::MAX as int
    } else if a + b < i32::MIN {
        i32::MIN as int
    } else {
        a + b
    }
}

/// Saturating addition on the range of `usize`.
pub open spec fn sat_add_usize(a: int, b: int) -> int {
    if a + b > usize::MAX {
        usize::MAX as int
    } else {
        a + b
    }
}

/// Saturating increment on the range of `usize`: depths grow with this
/// operation. On any input the searches actually accept, the sum stays far
/// below the bound and the increment is exact.
pub open spec fn sat_inc(d: int) -> int {
    if d + 1 > usize::MAX {
        usize::MAX as int
    } else {
        d + 1
    }
}

/// Adds an action cost to an accumulated path cost, saturating at the bounds
/// of `i32`.
pub fn add_costo(a: i32, b: i32) -> (r: i32)
    ensures
        r == sat_add_i32(a as int, b as int),
{
    match a.checked_add(b) {
        Some(v) => v,
        None => {
            if b >= 0 {
                i32::MAX
            } else {
                i32::MIN
            }
        },
    }
}

/// Increments a depth, saturating at the bound of `usize`.
pub fn inc_profondita(d: usize) -> (r: usize)
    ensures
        r == sat_inc(d as int),
{
    d.saturating_add(1)
}

/// Well-formedness of a node against an adjacency table `az`: the state is in
/// range, the action list is the table's snapshot for that state, and the
/// predecessor chain steps along actual edges, adding exactly one to the
/// depth and the linking action's cost to the path cost at each link; the
/// chain ends in a root with depth 0 and cost 0.
pub open spec fn node_wf(az: Seq<Seq<Action>>, n: Node) -> bool
    decreases n,
{
    &&& (n.stato as int) < az.len()
    &&& n.azioni@ == az[n.stato as int]
    &&& match n.genitore {
        Option::None => n.profondita == 0 && n.costo_cammino == 0,
        Option::Some(p) => {
            &&& node_wf(az, *p)
            &&& exists|j: int|
                0 <= j < az[p.stato as int].len()
                    && (#[trigger] az[p.stato as int][j]).risultato == n.stato
                    && n.costo_cammino == sat_add_i32(
                    p.costo_cammino as int,
                    az[p.stato as int][j].costo as int,
                )
            &&& n.profondita == sat_inc(p.profondita as int)
        },
    }
}

/// The state at the root of a node's predecessor chain.
pub open spec fn node_root(n: Node) -> State
    decreases n,
{
    match n.genitore {
        Option::None => n.stato,
        Option::Some(p) => node_root(*p),
    }
}

/// Copies an action list element by element.
pub fn copia_azioni(v: &Vec<Action>) -> (r: Vec<Action>)
    ensures
        r@ == v@,
{
    let mut r: Vec<Action> = Vec::new();
    let mut i: usize = 0;
    while i < v.len()
        invariant
            i <= v.len(),
            r@ == v@.take(i as int),
        decreases v.len() - i,
    {
        r.push(v[i]);
        proof {
            assert(v@.take(i + 1 as int) == v@.take(i as int).push(v@[i as int]));
        }
        i = i + 1;
    }
    proof {
        assert(v@.take(v@.len() as int) == v@);
    }
    r
}

} // verus!
