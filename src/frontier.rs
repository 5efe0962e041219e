//! Reachability and optimality facts about a search forest over a grid
//! problem: walks from the starts, relaxed moves, and the open frontier.
use vstd::prelude::*;

use crate::maze_2d::clamp_int;
use crate::maze_2d::cost_to;
use crate::maze_2d::free_walk;
use crate::maze_2d::grid_free;
use crate::maze_2d::lemma_cost_monotone;
use crate::maze_2d::lemma_walk_prefix;
use crate::maze_2d::spec_apply;
use crate::maze_2d::spec_cost;
use crate::maze_2d::walk_to;
use crate::maze_2d::Maze2DAction;
use crate::maze_2d::Maze2DProblem;
use crate::maze_2d::Maze2DState;
use crate::search::sat_add;
use crate::search::SearchRank;
use crate::search::SearchTree;

verus! {

/// A walk from a start of `p` over empty cells that ends at `t`.
pub open spec fn start_walk(
    p: Maze2DProblem,
    s0: Maze2DState,
    acts: Seq<Maze2DAction>,
    t: Maze2DState,
) -> bool {
    &&& p.starts@.contains(s0)
    &&& free_walk(p.space@, s0, acts)
    &&& walk_to(s0, acts, acts.len() as int) == Some(t)
}

/// No walk from a start reaches a closed node's state for less than its cost.
pub open spec fn closed_optimal<R: SearchRank>(t: SearchTree<R>, p: Maze2DProblem) -> bool {
    forall|n: int|
        0 <= n < t.nodes@.len() && (#[trigger] t.nodes@[n]).is_closed ==> forall|
            s0: Maze2DState,
            acts: Seq<Maze2DAction>,
        |
            #[trigger] start_walk(p, s0, acts, t.nodes@[n].state) ==> t.nodes@[n].g <= clamp_int(
                cost_to(acts, acts.len() as int),
            )
}

/// Move `a` out of node `n` has been relaxed: the empty cell it leads to is
/// filed, and closed or no costlier than through `n`.
pub open spec fn relaxed<R: SearchRank>(
    t: SearchTree<R>,
    p: Maze2DProblem,
    n: int,
    a: Maze2DAction,
) -> bool {
    match spec_apply(t.nodes@[n].state, a) {
        Some(s) => grid_free(p.space@, s) ==> match t.lookup(s) {
            Some(m) => t.nodes@[m].is_closed || t.nodes@[m].g <= sat_add(
                t.nodes@[n].g,
                spec_cost(a),
            ),
            None => false,
        },
        None => true,
    }
}

/// Every closed node but `x` has had all its moves relaxed.
pub open spec fn closed_relaxed_except<R: SearchRank>(
    t: SearchTree<R>,
    p: Maze2DProblem,
    x: int,
) -> bool {
    forall|n: int, a: Maze2DAction|
        0 <= n < t.nodes@.len() && t.nodes@[n].is_closed && n != x ==> #[trigger] relaxed(
            t,
            p,
            n,
            a,
        )
}

/// Every start is filed with cost zero.
pub open spec fn starts_filed<R: SearchRank>(t: SearchTree<R>, p: Maze2DProblem) -> bool {
    forall|s: Maze2DState| #[trigger]
        p.starts@.contains(s) ==> t.lookup(s) is Some && t.nodes@[t.lookup(s)->0].g == 0
}

/// `t2` came from `t1` by filing nodes, lowering the costs of open nodes and
/// closing nodes that were open or `x`.
pub open spec fn evolves<R: SearchRank>(t1: SearchTree<R>, t2: SearchTree<R>, x: int) -> bool {
    &&& t1.nodes@.len() <= t2.nodes@.len()
    &&& forall|n: int|
        0 <= n < t1.nodes@.len() ==> {
            &&& (#[trigger] t2.nodes@[n]).state == t1.nodes@[n].state
            &&& t2.nodes@[n].g <= t1.nodes@[n].g
            &&& t1.nodes@[n].is_closed ==> t2.nodes@[n].is_closed && t2.nodes@[n].g
                == t1.nodes@[n].g
        }
    &&& forall|n: int|
        0 <= n < t2.nodes@.len() && (#[trigger] t2.nodes@[n]).is_closed ==> n < t1.nodes@.len()
            && (t1.nodes@[n].is_closed || n == x)
    &&& forall|s: Maze2DState| #[trigger] t1.lookup(s) is Some ==> t2.lookup(s) == t1.lookup(s)
}

pub proof fn lemma_evolve_relaxed<R: SearchRank>(
    t1: SearchTree<R>,
    t2: SearchTree<R>,
    p: Maze2DProblem,
    x: int,
    n: int,
    a: Maze2DAction,
)
    requires
        t1.wf(),
        evolves(t1, t2, x),
        0 <= n < t1.nodes@.len(),
        t1.nodes@[n].is_closed,
        relaxed(t1, p, n, a),
    ensures
        relaxed(t2, p, n, a),
{
    let _ = t2.nodes@[n];
    match spec_apply(t1.nodes@[n].state, a) {
        Some(s) => {
            if grid_free(p.space@, s) {
                t1.lemma_lookup(s);
                let m = t1.lookup(s)->0;
                assert(t2.lookup(s) == t1.lookup(s));
                if t1.nodes@[m].is_closed {
                } else {
                    assert(t2.nodes@[m].g <= t1.nodes@[m].g);
                }
            }
        },
        None => {},
    }
}

pub proof fn lemma_evolve<R: SearchRank>(
    t1: SearchTree<R>,
    t2: SearchTree<R>,
    p: Maze2DProblem,
    x1: int,
    x2: int,
)
    requires
        t1.wf(),
        evolves(t1, t2, x2),
        x1 == x2 || x1 == -1,
        closed_relaxed_except(t1, p, x1),
        starts_filed(t1, p),
        x2 >= 0 ==> x2 < t1.nodes@.len() && (t1.nodes@[x2].is_closed || x1 == -1),
    ensures
        closed_relaxed_except(t2, p, x2),
        starts_filed(t2, p),
        x1 == x2 && closed_optimal(t1, p) ==> closed_optimal(t2, p),
        closed_optimal(t1, p) ==> forall|n: int|
            0 <= n < t2.nodes@.len() && (#[trigger] t2.nodes@[n]).is_closed && n != x2 ==> {
                &&& t1.nodes@[n].is_closed
                &&& forall|s0: Maze2DState, acts: Seq<Maze2DAction>|
                    #[trigger] start_walk(p, s0, acts, t2.nodes@[n].state) ==> t2.nodes@[n].g
                        <= clamp_int(cost_to(acts, acts.len() as int))
            },
{
    assert forall|n: int, a: Maze2DAction|
        0 <= n < t2.nodes@.len() && t2.nodes@[n].is_closed && n != x2 implies #[trigger] relaxed(
        t2,
        p,
        n,
        a,
    ) by {
        assert(t1.nodes@[n].is_closed);
        assert(relaxed(t1, p, n, a));
        lemma_evolve_relaxed(t1, t2, p, x2, n, a);
    }
    assert forall|s: Maze2DState| #[trigger] p.starts@.contains(s) implies t2.lookup(s) is Some
        && t2.nodes@[t2.lookup(s)->0].g == 0 by {
        assert(t1.lookup(s) is Some);
        t1.lemma_lookup(s);
        let m = t1.lookup(s)->0;
        assert(t2.nodes@[m].g <= t1.nodes@[m].g);
    }
    if closed_optimal(t1, p) {
        assert forall|n: int|
            0 <= n < t2.nodes@.len() && (#[trigger] t2.nodes@[n]).is_closed && n != x2 implies {
            &&& t1.nodes@[n].is_closed
            &&& forall|s0: Maze2DState, acts: Seq<Maze2DAction>|
                #[trigger] start_walk(p, s0, acts, t2.nodes@[n].state) ==> t2.nodes@[n].g
                    <= clamp_int(cost_to(acts, acts.len() as int))
        } by {
            assert(t1.nodes@[n].is_closed);
            assert(t2.nodes@[n].state == t1.nodes@[n].state);
        }
    }
    if x1 == x2 && closed_optimal(t1, p) {
        assert forall|n: int|
            0 <= n < t2.nodes@.len() && (#[trigger] t2.nodes@[n]).is_closed implies forall|
            s0: Maze2DState,
            acts: Seq<Maze2DAction>,
        |
            #[trigger] start_walk(p, s0, acts, t2.nodes@[n].state) ==> t2.nodes@[n].g <= clamp_int(
                cost_to(acts, acts.len() as int),
            ) by {
            assert(t1.nodes@[n].is_closed);
            assert(t2.nodes@[n].state == t1.nodes@[n].state);
        }
    }
}

/// Along any walk from a start over empty cells, either the state reached
/// after `j` moves is closed at no more than the walk's cost so far, or some
/// open node costs no more than the walk so far.
pub proof fn lemma_frontier<R: SearchRank>(
    t: SearchTree<R>,
    p: Maze2DProblem,
    s0: Maze2DState,
    acts: Seq<Maze2DAction>,
    j: int,
)
    requires
        t.wf(),
        closed_optimal(t, p),
        closed_relaxed_except(t, p, -1),
        starts_filed(t, p),
        p.starts@.contains(s0),
        free_walk(p.space@, s0, acts),
        0 <= j <= acts.len(),
    ensures
        walk_to(s0, acts, j) is Some,
        ({
            let w = walk_to(s0, acts, j)->0;
            ||| (t.lookup(w) is Some && t.nodes@[t.lookup(w)->0].is_closed
                && t.nodes@[t.lookup(w)->0].g <= clamp_int(cost_to(acts, j)))
            ||| exists|u: int|
                0 <= u < t.nodes@.len() && !(#[trigger] t.nodes@[u]).is_closed && t.nodes@[u].g
                    <= clamp_int(cost_to(acts, j))
        }),
    decreases j,
{
    if j == 0 {
        t.lemma_lookup(s0);
        let n = t.lookup(s0)->0;
        if !t.nodes@[n].is_closed {
            assert(!t.nodes@[n].is_closed && t.nodes@[n].g <= clamp_int(cost_to(acts, j)));
        }
    } else {
        lemma_frontier(t, p, s0, acts, j - 1);
        lemma_cost_monotone(acts, j - 1, j);
        assert(walk_to(s0, acts, j) is Some && grid_free(p.space@, walk_to(s0, acts, j)->0));
        let prev = walk_to(s0, acts, j - 1)->0;
        let w = walk_to(s0, acts, j)->0;
        let a = acts[j - 1];
        assert(spec_apply(prev, a) == Some(w));
        if t.lookup(prev) is Some && t.nodes@[t.lookup(prev)->0].is_closed && t.nodes@[t.lookup(
            prev,
        )->0].g <= clamp_int(cost_to(acts, j - 1)) {
            let n = t.lookup(prev)->0;
            t.lemma_lookup(prev);
            assert(relaxed(t, p, n, a));
            t.lemma_lookup(w);
            let m = t.lookup(w)->0;
            if t.nodes@[m].is_closed {
                let pre = acts.take(j);
                lemma_walk_prefix(s0, acts, j, j);
                assert forall|i: int| 1 <= i <= pre.len() implies #[trigger] walk_to(s0, pre, i) is Some
                    && grid_free(p.space@, walk_to(s0, pre, i)->0) by {
                    lemma_walk_prefix(s0, acts, j, i);
                    assert(walk_to(s0, acts, i) is Some);
                }
                assert(start_walk(p, s0, pre, t.nodes@[m].state));
            } else {
                assert(t.nodes@[m].g <= sat_add(t.nodes@[n].g, spec_cost(a)));
                assert(!t.nodes@[m].is_closed && t.nodes@[m].g <= clamp_int(cost_to(acts, j)));
            }
        }
    }
}


/// Along any walk from a start over empty cells, the state reached after `j`
/// moves is filed and closed, or some node is still open.
pub proof fn lemma_reach<R: SearchRank>(
    t: SearchTree<R>,
    p: Maze2DProblem,
    s0: Maze2DState,
    acts: Seq<Maze2DAction>,
    j: int,
)
    requires
        t.wf(),
        closed_relaxed_except(t, p, -1),
        starts_filed(t, p),
        p.starts@.contains(s0),
        free_walk(p.space@, s0, acts),
        0 <= j <= acts.len(),
    ensures
        walk_to(s0, acts, j) is Some,
        (t.lookup(walk_to(s0, acts, j)->0) is Some && t.nodes@[t.lookup(
            walk_to(s0, acts, j)->0,
        )->0].is_closed) || exists|u: int|
            0 <= u < t.nodes@.len() && !(#[trigger] t.nodes@[u]).is_closed,
    decreases j,
{
    if j == 0 {
        t.lemma_lookup(s0);
        let n = t.lookup(s0)->0;
        if !t.nodes@[n].is_closed {
            assert(!t.nodes@[n].is_closed);
        }
    } else {
        lemma_reach(t, p, s0, acts, j - 1);
        assert(walk_to(s0, acts, j) is Some && grid_free(p.space@, walk_to(s0, acts, j)->0));
        let prev = walk_to(s0, acts, j - 1)->0;
        let w = walk_to(s0, acts, j)->0;
        let a = acts[j - 1];
        assert(spec_apply(prev, a) == Some(w));
        t.lemma_lookup(prev);
        if t.lookup(prev) is Some && t.nodes@[t.lookup(prev)->0].is_closed {
            let n = t.lookup(prev)->0;
            assert(relaxed(t, p, n, a));
            t.lemma_lookup(w);
            let m = t.lookup(w)->0;
            if !t.nodes@[m].is_closed {
                assert(!t.nodes@[m].is_closed);
            }
        }
    }
}

/// With every move of every closed node relaxed, the starts filed, no node
/// open and no goal closed, no goal can be reached from a start.
pub proof fn lemma_unreachable<R: SearchRank>(
    t: SearchTree<R>,
    p: Maze2DProblem,
    goals: Set<u64>,
    x: Maze2DState,
    s0: Maze2DState,
    acts: Seq<Maze2DAction>,
)
    requires
        t.wf(),
        closed_relaxed_except(t, p, -1),
        starts_filed(t, p),
        t.open@.len() == 0,
        closed_not_goal(t, goals),
        goals.contains(crate::maze_2d::state_key(x)),
    ensures
        !start_walk(p, s0, acts, x),
{
    if start_walk(p, s0, acts, x) {
        lemma_reach(t, p, s0, acts, acts.len() as int);
        t.lemma_open_links();
        t.lemma_lookup(x);
        let n = t.lookup(x)->0;
        assert(t.nodes@[n].is_closed);
    }
}

/// No closed node stands on a goal still sought.
pub open spec fn closed_not_goal<R: SearchRank>(t: SearchTree<R>, goals: Set<u64>) -> bool {
    forall|n: int|
        0 <= n < t.nodes@.len() && (#[trigger] t.nodes@[n]).is_closed ==> !goals.contains(
            crate::maze_2d::state_key(t.nodes@[n].state),
        )
}

/// Every node reached by a move stands on an empty cell.
pub open spec fn children_free<R: SearchRank>(t: SearchTree<R>, p: Maze2DProblem) -> bool {
    forall|n: int|
        0 <= n < t.nodes@.len() && (#[trigger] t.nodes@[n]).parent is Some ==> grid_free(
            p.space@,
            t.nodes@[n].state,
        )
}

/// Closed nodes off the goals and moved-to nodes on empty cells survive a
/// step that closes at most `x`, off the smaller goal set.
pub proof fn lemma_evolve_side<R: SearchRank>(
    t1: SearchTree<R>,
    t2: SearchTree<R>,
    p: Maze2DProblem,
    x: int,
    g1: Set<u64>,
    g2: Set<u64>,
)
    requires
        evolves(t1, t2, x),
        children_free(t1, p),
        closed_not_goal(t1, g1),
        g2.subset_of(g1),
        x >= 0 ==> x < t1.nodes@.len() && !g2.contains(
            crate::maze_2d::state_key(t1.nodes@[x].state),
        ),
        forall|n: int|
            0 <= n < t2.nodes@.len() && (#[trigger] t2.nodes@[n]).parent is Some ==> (n
                < t1.nodes@.len() && t1.nodes@[n].parent is Some) || grid_free(
                p.space@,
                t2.nodes@[n].state,
            ),
    ensures
        children_free(t2, p),
        closed_not_goal(t2, g2),
{
    assert forall|n: int|
        0 <= n < t2.nodes@.len() && (#[trigger] t2.nodes@[n]).parent is Some implies grid_free(
        p.space@,
        t2.nodes@[n].state,
    ) by {
        if n < t1.nodes@.len() && t1.nodes@[n].parent is Some {
            assert(t1.nodes@[n].state == t2.nodes@[n].state);
        }
    }
    assert forall|n: int|
        0 <= n < t2.nodes@.len() && (#[trigger] t2.nodes@[n]).is_closed implies !g2.contains(
        crate::maze_2d::state_key(t2.nodes@[n].state),
    ) by {
        assert(t1.nodes@[n].state == t2.nodes@[n].state);
        if n != x {
            assert(t1.nodes@[n].is_closed);
        }
    }
}

/// The forest as a search starts it: one open root of cost zero for each
/// distinct start, and nothing else.
pub open spec fn seeded<R: SearchRank>(t: SearchTree<R>, starts: Seq<Maze2DState>) -> bool {
    &&& t.nodes@.len() == starts.to_set().len()
    &&& t.open@.len() == t.nodes@.len()
    &&& forall|s: Maze2DState| #[trigger]
        starts.contains(s) ==> t.lookup(s) is Some && !t.nodes@[t.lookup(s)->0].is_closed
            && t.nodes@[t.lookup(s)->0].g == 0 && t.nodes@[t.lookup(s)->0].parent is None
    &&& forall|n: int|
        0 <= n < t.nodes@.len() ==> starts.contains((#[trigger] t.nodes@[n]).state)
            && !t.nodes@[n].is_closed && t.nodes@[n].g == 0 && t.nodes@[n].parent is None
}

/// No walk from a start costing less than `u32::MAX - b` reaches a closed
/// node's state for less than its cost.
pub open spec fn closed_optimal_below<R: SearchRank>(t: SearchTree<R>, p: Maze2DProblem, b: int) -> bool {
    forall|n: int|
        0 <= n < t.nodes@.len() && (#[trigger] t.nodes@[n]).is_closed ==> forall|
            s0: Maze2DState,
            acts: Seq<Maze2DAction>,
        |
            #[trigger] start_walk(p, s0, acts, t.nodes@[n].state) && cost_to(acts, acts.len() as int)
                + b < u32::MAX ==> t.nodes@[n].g <= cost_to(acts, acts.len() as int)
}

/// Along a walk from a start over empty cells that costs less than
/// `u32::MAX - b`, either the state after `j` moves is closed at no more than
/// the walk's cost so far, or an open node stands on the walk, after `i <= j`
/// moves, at no more than the cost of those moves.
pub proof fn lemma_frontier_at<R: SearchRank>(
    t: SearchTree<R>,
    p: Maze2DProblem,
    b: int,
    s0: Maze2DState,
    acts: Seq<Maze2DAction>,
    j: int,
)
    requires
        t.wf(),
        b >= 0,
        closed_optimal_below(t, p, b),
        closed_relaxed_except(t, p, -1),
        starts_filed(t, p),
        p.starts@.contains(s0),
        free_walk(p.space@, s0, acts),
        cost_to(acts, acts.len() as int) + b < u32::MAX,
        0 <= j <= acts.len(),
    ensures
        walk_to(s0, acts, j) is Some,
        ({
            let w = walk_to(s0, acts, j)->0;
            ||| (t.lookup(w) is Some && t.nodes@[t.lookup(w)->0].is_closed
                && t.nodes@[t.lookup(w)->0].g <= cost_to(acts, j))
            ||| exists|i: int, u: int|
                #![trigger t.nodes@[u], walk_to(s0, acts, i)]
                0 <= i <= j && 0 <= u < t.nodes@.len() && !t.nodes@[u].is_closed
                    && walk_to(s0, acts, i) == Some(t.nodes@[u].state) && t.nodes@[u].g <= cost_to(
                    acts,
                    i,
                )
        }),
    decreases j,
{
    lemma_cost_monotone(acts, j, acts.len() as int);
    if j == 0 {
        t.lemma_lookup(s0);
        let n = t.lookup(s0)->0;
        if !t.nodes@[n].is_closed {
            assert(walk_to(s0, acts, 0) == Some(t.nodes@[n].state));
        }
    } else {
        lemma_frontier_at(t, p, b, s0, acts, j - 1);
        lemma_cost_monotone(acts, j - 1, j);
        assert(walk_to(s0, acts, j) is Some && grid_free(p.space@, walk_to(s0, acts, j)->0));
        let prev = walk_to(s0, acts, j - 1)->0;
        let w = walk_to(s0, acts, j)->0;
        let a = acts[j - 1];
        assert(spec_apply(prev, a) == Some(w));
        if t.lookup(prev) is Some && t.nodes@[t.lookup(prev)->0].is_closed && t.nodes@[t.lookup(
            prev,
        )->0].g <= cost_to(acts, j - 1) {
            let n = t.lookup(prev)->0;
            t.lemma_lookup(prev);
            assert(relaxed(t, p, n, a));
            t.lemma_lookup(w);
            let m = t.lookup(w)->0;
            if t.nodes@[m].is_closed {
                let pre = acts.take(j);
                lemma_walk_prefix(s0, acts, j, j);
                assert forall|i: int| 1 <= i <= pre.len() implies #[trigger] walk_to(s0, pre, i) is Some
                    && grid_free(p.space@, walk_to(s0, pre, i)->0) by {
                    lemma_walk_prefix(s0, acts, j, i);
                    assert(walk_to(s0, acts, i) is Some);
                }
                assert(start_walk(p, s0, pre, t.nodes@[m].state));
            } else {
                assert(t.nodes@[m].g <= sat_add(t.nodes@[n].g, spec_cost(a)));
                assert(!t.nodes@[m].is_closed && walk_to(s0, acts, j) == Some(t.nodes@[m].state)
                    && t.nodes@[m].g <= cost_to(acts, j));
            }
        }
    }
}

/// Optimality below `b` survives a step that closes at most `x`, where `x`,
/// if it is newly closed, is itself optimal below `b`.
pub proof fn lemma_evolve_below<R: SearchRank>(
    t1: SearchTree<R>,
    t2: SearchTree<R>,
    p: Maze2DProblem,
    x: int,
    b: int,
)
    requires
        evolves(t1, t2, x),
        closed_optimal_below(t1, p, b),
        x >= 0 && !t1.nodes@[x].is_closed ==> forall|s0: Maze2DState, acts: Seq<Maze2DAction>|
            #[trigger] start_walk(p, s0, acts, t1.nodes@[x].state) && cost_to(acts, acts.len() as int)
                + b < u32::MAX ==> t1.nodes@[x].g <= cost_to(acts, acts.len() as int),
    ensures
        closed_optimal_below(t2, p, b),
{
    assert forall|n: int|
        0 <= n < t2.nodes@.len() && (#[trigger] t2.nodes@[n]).is_closed implies forall|
        s0: Maze2DState,
        acts: Seq<Maze2DAction>,
    |
        #[trigger] start_walk(p, s0, acts, t2.nodes@[n].state) && cost_to(acts, acts.len() as int)
            + b < u32::MAX ==> t2.nodes@[n].g <= cost_to(acts, acts.len() as int) by {
        assert(t2.nodes@[n].state == t1.nodes@[n].state);
        assert(t2.nodes@[n].g <= t1.nodes@[n].g);
    }
}

} // verus!
