//! Reachability and bounded-distance specifications shared by the search
//! algorithms, over an adjacency table given as lists of successor states.

use vstd::prelude::*;
use vstd::set_lib::set_int_range;

verus! {

/// There is an edge from `s` to `t` in the adjacency table.
pub open spec fn step(adj: Seq<Seq<u32>>, s: int, t: int) -> bool {
    &&& 0 <= s < adj.len()
    &&& exists|j: int| 0 <= j < adj[s].len() && (#[trigger] adj[s][j]) == t
}

/// There is a path of length at most `k` from `s` to `t`.
pub open spec fn dist_at_most(adj: Seq<Seq<u32>>, s: int, t: int, k: nat) -> bool
    decreases k,
{
    ||| s == t
    ||| (k > 0 && exists|m: int|
        #[trigger] step(adj, s, m) && dist_at_most(adj, m, t, (k - 1) as nat))
}

/// `t` can be reached from `s` by some path.
pub open spec fn reachable(adj: Seq<Seq<u32>>, s: int, t: int) -> bool {
    exists|k: nat| dist_at_most(adj, s, t, k)
}

/// There is a path of length exactly `rem` from `s` that avoids `goal` at
/// every vertex, including `s` itself.
pub open spec fn cut_at(adj: Seq<Seq<u32>>, s: int, goal: int, rem: nat) -> bool
    decreases rem,
{
    &&& s != goal
    &&& (rem == 0 || exists|m: int|
        #[trigger] step(adj, s, m) && cut_at(adj, m, goal, (rem - 1) as nat))
}

/// Every edge target of the adjacency table is itself in range.
pub open spec fn adj_wf(adj: Seq<Seq<u32>>) -> bool {
    forall|s: int, j: int|
        0 <= s < adj.len() && 0 <= j < adj[s].len() ==> (#[trigger] adj[s][j]) < adj.len()
}

/// A path of length at most `k1` is also a path of length at most any `k2 >= k1`.
pub proof fn lemma_dist_monotone(adj: Seq<Seq<u32>>, s: int, t: int, k1: nat, k2: nat)
    requires
        dist_at_most(adj, s, t, k1),
        k1 <= k2,
    ensures
        dist_at_most(adj, s, t, k2),
    decreases k1,
{
    if s != t {
        let m = choose|m: int|
            #[trigger] step(adj, s, m) && dist_at_most(adj, m, t, (k1 - 1) as nat);
        lemma_dist_monotone(adj, m, t, (k1 - 1) as nat, (k2 - 1) as nat);
        assert(step(adj, s, m) && dist_at_most(adj, m, t, (k2 - 1) as nat));
    }
}

/// Appending one edge to the end of a path extends its length bound by one.
pub proof fn lemma_dist_extend(adj: Seq<Seq<u32>>, s: int, t: int, k: nat, u: int)
    requires
        dist_at_most(adj, s, t, k),
        step(adj, t, u),
    ensures
        dist_at_most(adj, s, u, (k + 1) as nat),
    decreases k,
{
    if s == t {
        assert(dist_at_most(adj, u, u, k));
        assert(step(adj, s, u) && dist_at_most(adj, u, u, ((k + 1) - 1) as nat));
    } else {
        let m = choose|m: int|
            #[trigger] step(adj, s, m) && dist_at_most(adj, m, t, (k - 1) as nat);
        lemma_dist_extend(adj, m, t, (k - 1) as nat, u);
        assert(step(adj, s, m) && dist_at_most(adj, m, u, ((k + 1) - 1) as nat));
    }
}

/// A path of length at most `k` to a distinct target has a next-to-last
/// vertex: some `m` within `k - 1` of `s` with an edge from `m` to `t`.
pub proof fn lemma_dist_last_step(adj: Seq<Seq<u32>>, s: int, t: int, k: nat)
    requires
        dist_at_most(adj, s, t, k),
        s != t,
    ensures
        k > 0,
        exists|m: int|
            dist_at_most(adj, s, m, (k - 1) as nat) && #[trigger] step(adj, m, t),
    decreases k,
{
    let m = choose|m: int|
        #[trigger] step(adj, s, m) && dist_at_most(adj, m, t, (k - 1) as nat);
    if m == t {
        assert(dist_at_most(adj, s, s, (k - 1) as nat));
        assert(dist_at_most(adj, s, s, (k - 1) as nat) && step(adj, s, t));
    } else {
        lemma_dist_last_step(adj, m, t, (k - 1) as nat);
        let w = choose|w: int|
            dist_at_most(adj, m, w, (k - 2) as nat) && #[trigger] step(adj, w, t);
        assert(step(adj, s, m) && dist_at_most(adj, m, w, ((k - 1) - 1) as nat));
        assert(dist_at_most(adj, s, w, (k - 1) as nat));
        assert(dist_at_most(adj, s, w, (k - 1) as nat) && step(adj, w, t));
    }
}

/// A predicate that holds of `s` and is closed under edges holds of every
/// vertex reachable from `s`.
pub proof fn lemma_reach_closed(
    adj: Seq<Seq<u32>>,
    p: spec_fn(int) -> bool,
    s: int,
    t: int,
    k: nat,
)
    requires
        p(s),
        forall|x: int, y: int| p(x) && #[trigger] step(adj, x, y) ==> p(y),
        dist_at_most(adj, s, t, k),
    ensures
        p(t),
    decreases k,
{
    if s != t {
        let m = choose|m: int|
            #[trigger] step(adj, s, m) && dist_at_most(adj, m, t, (k - 1) as nat);
        assert(p(m));
        lemma_reach_closed(adj, p, m, t, (k - 1) as nat);
    }
}

/// Every vertex on a path from an in-range vertex is in range, when the
/// table is well formed.
pub proof fn lemma_dist_target_range(adj: Seq<Seq<u32>>, s: int, t: int, k: nat)
    requires
        adj_wf(adj),
        0 <= s < adj.len(),
        dist_at_most(adj, s, t, k),
    ensures
        0 <= t < adj.len(),
    decreases k,
{
    if s != t {
        let m = choose|m: int|
            #[trigger] step(adj, s, m) && dist_at_most(adj, m, t, (k - 1) as nat);
        let j = choose|j: int| 0 <= j < adj[s].len() && (#[trigger] adj[s][j]) == m;
        lemma_dist_target_range(adj, m, t, (k - 1) as nat);
    }
}

/// The set of vertices within distance `k` of `s`.
pub open spec fn ball(adj: Seq<Seq<u32>>, s: int, k: nat) -> Set<int> {
    Set::new(|t: int| dist_at_most(adj, s, t, k))
}

/// Balls grow with the distance bound.
proof fn lemma_ball_monotone(adj: Seq<Seq<u32>>, s: int, k1: nat, k2: nat)
    requires
        k1 <= k2,
    ensures
        ball(adj, s, k1).subset_of(ball(adj, s, k2)),
{
    assert forall|t: int| #[trigger] ball(adj, s, k1).contains(t) implies ball(adj, s, k2).contains(t) by {
        lemma_dist_monotone(adj, s, t, k1, k2);
    }
}

/// A ball around an in-range vertex is a finite set of at most `adj.len()`
/// vertices.
proof fn lemma_ball_bounded(adj: Seq<Seq<u32>>, s: int, k: nat)
    requires
        adj_wf(adj),
        0 <= s < adj.len(),
    ensures
        ball(adj, s, k).finite(),
        ball(adj, s, k).len() <= adj.len(),
{
    let range = set_int_range(0, adj.len() as int);
    assert forall|t: int| #[trigger] ball(adj, s, k).contains(t) implies range.contains(t) by {
        lemma_dist_target_range(adj, s, t, k);
    }
    vstd::set_lib::lemma_int_range(0, adj.len() as int);
    vstd::set_lib::lemma_len_subset(ball(adj, s, k), range);
}

/// Once two consecutive balls coincide, the next ball coincides as well.
proof fn lemma_ball_fix_step(adj: Seq<Seq<u32>>, s: int, k: nat)
    requires
        ball(adj, s, k) == ball(adj, s, (k + 1) as nat),
    ensures
        ball(adj, s, (k + 1) as nat) == ball(adj, s, (k + 2) as nat),
{
    assert forall|t: int| #[trigger] ball(adj, s, (k + 2) as nat).contains(t) implies ball(
        adj,
        s,
        (k + 1) as nat,
    ).contains(t) by {
        if t != s {
            lemma_dist_last_step(adj, s, t, (k + 2) as nat);
            let m = choose|m: int|
                dist_at_most(adj, s, m, ((k + 2) - 1) as nat) && #[trigger] step(adj, m, t);
            assert(ball(adj, s, (k + 1) as nat).contains(m));
            assert(ball(adj, s, k).contains(m));
            lemma_dist_extend(adj, s, m, k, t);
        }
    }
    lemma_ball_monotone(adj, s, (k + 1) as nat, (k + 2) as nat);
    assert(ball(adj, s, (k + 1) as nat) =~= ball(adj, s, (k + 2) as nat));
}

/// A fixed point of the ball chain persists at every later bound.
proof fn lemma_ball_fix_from(adj: Seq<Seq<u32>>, s: int, k: nat, j: nat)
    requires
        ball(adj, s, k) == ball(adj, s, (k + 1) as nat),
    ensures
        ball(adj, s, k) == ball(adj, s, (k + j) as nat),
    decreases j,
{
    if j > 0 {
        lemma_ball_fix_step(adj, s, k);
        lemma_ball_fix_from(adj, s, (k + 1) as nat, (j - 1) as nat);
        assert((k + 1 + (j - 1)) as nat == (k + j) as nat);
    }
}

/// Either some ball of radius below `j` is already a fixed point, or the
/// ball of radius `j` holds more than `j` vertices.
proof fn lemma_ball_growth(adj: Seq<Seq<u32>>, s: int, j: nat)
    requires
        adj_wf(adj),
        0 <= s < adj.len(),
    ensures
        (exists|i: nat|
            i < j && #[trigger] ball(adj, s, i) == ball(adj, s, (i + 1) as nat)) || ball(
            adj,
            s,
            j,
        ).len() >= j + 1,
    decreases j,
{
    lemma_ball_bounded(adj, s, j);
    if j == 0 {
        assert(ball(adj, s, 0).contains(s));
        assert(ball(adj, s, 0).remove(s).insert(s) =~= ball(adj, s, 0));
        vstd::set_lib::lemma_len_subset(ball(adj, s, 0).remove(s), ball(adj, s, 0));
        assert(ball(adj, s, 0).len() >= 1);
    } else {
        lemma_ball_growth(adj, s, (j - 1) as nat);
        if exists|i: nat| i < j - 1 && #[trigger] ball(adj, s, i) == ball(adj, s, (i + 1) as nat) {
            let i = choose|i: nat|
                i < j - 1 && #[trigger] ball(adj, s, i) == ball(adj, s, (i + 1) as nat);
            assert(i < j && ball(adj, s, i) == ball(adj, s, (i + 1) as nat));
        } else {
            assert(ball(adj, s, (j - 1) as nat).len() >= j);
            if ball(adj, s, (j - 1) as nat) == ball(adj, s, j) {
                let i = (j - 1) as nat;
                assert(i < j && ball(adj, s, i) == ball(adj, s, (i + 1) as nat));
            } else {
                lemma_ball_monotone(adj, s, (j - 1) as nat, j);
                lemma_ball_bounded(adj, s, (j - 1) as nat);
                if forall|t: int|
                    ball(adj, s, j).contains(t) ==> #[trigger] ball(
                        adj,
                        s,
                        (j - 1) as nat,
                    ).contains(t) {
                    assert(ball(adj, s, (j - 1) as nat) =~= ball(adj, s, j));
                }
                let x = choose|x: int|
                    ball(adj, s, j).contains(x) && !(#[trigger] ball(
                        adj,
                        s,
                        (j - 1) as nat,
                    ).contains(x));
                let grown = ball(adj, s, (j - 1) as nat).insert(x);
                assert(grown.len() == ball(adj, s, (j - 1) as nat).len() + 1);
                assert(grown.subset_of(ball(adj, s, j)));
                vstd::set_lib::lemma_len_subset(grown, ball(adj, s, j));
            }
        }
    }
}

/// Any path can be shortened to one whose length is below the number of
/// vertices: a distance bound of `adj.len() - 1` always suffices.
pub proof fn lemma_dist_bound(adj: Seq<Seq<u32>>, s: int, t: int, k: nat)
    requires
        adj_wf(adj),
        0 <= s < adj.len(),
        dist_at_most(adj, s, t, k),
    ensures
        dist_at_most(adj, s, t, (adj.len() - 1) as nat),
{
    let n = adj.len() as nat;
    lemma_ball_growth(adj, s, n);
    lemma_ball_bounded(adj, s, n);
    let i = choose|i: nat| i < n && #[trigger] ball(adj, s, i) == ball(adj, s, (i + 1) as nat);
    if k <= (n - 1) as nat {
        lemma_dist_monotone(adj, s, t, k, (n - 1) as nat);
    } else {
        lemma_ball_fix_from(adj, s, i, (k - i) as nat);
        assert(ball(adj, s, k).contains(t));
        assert(ball(adj, s, i).contains(t));
        lemma_dist_monotone(adj, s, t, i, (n - 1) as nat);
    }
}

/// A vertex that can reach `goal` at all, but not within `lim` steps, starts
/// a goal-avoiding path of length exactly `lim`.
pub proof fn lemma_cut_from_far_path(adj: Seq<Seq<u32>>, s: int, goal: int, lim: nat, k: nat)
    requires
        !dist_at_most(adj, s, goal, lim),
        dist_at_most(adj, s, goal, k),
    ensures
        cut_at(adj, s, goal, lim),
    decreases lim,
{
    assert(s != goal);
    if lim > 0 {
        let m = choose|m: int|
            #[trigger] step(adj, s, m) && dist_at_most(adj, m, goal, (k - 1) as nat);
        assert(!dist_at_most(adj, m, goal, (lim - 1) as nat)) by {
            if dist_at_most(adj, m, goal, (lim - 1) as nat) {
                assert(step(adj, s, m) && dist_at_most(adj, m, goal, (lim - 1) as nat));
                assert(dist_at_most(adj, s, goal, lim));
            }
        }
        lemma_cut_from_far_path(adj, m, goal, (lim - 1) as nat, (k - 1) as nat);
        assert(step(adj, s, m) && cut_at(adj, m, goal, (lim - 1) as nat));
    }
}

} // verus!
