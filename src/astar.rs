//! Heuristic search: nodes are expanded in order of `f = g + h`, ties broken
//! towards lower `h`, where `h` is the least heuristic value over the goals
//! still sought. When a goal is reached, the remaining open entries are
//! re-ranked against the smaller goal set.
use rustc_hash::FxHashSet;
use std::marker::PhantomData;

use vstd::prelude::*;

use crate::derank::Ranked;
use crate::fx::fx_map_get;
use crate::fx::fx_map_len;
use crate::fx::fx_set_contains;
use crate::fx::fx_set_insert;
use crate::fx::fx_set_remove;
use crate::frontier::children_free;
use crate::frontier::closed_not_goal;
use crate::frontier::closed_optimal_below;
use crate::frontier::lemma_evolve_below;
use crate::frontier::lemma_frontier_at;
use crate::frontier::closed_relaxed_except;
use crate::frontier::evolves;
use crate::frontier::lemma_evolve;
use crate::frontier::lemma_evolve_relaxed;
use crate::frontier::lemma_evolve_side;
use crate::frontier::lemma_unreachable;
use crate::frontier::relaxed;
use crate::frontier::seeded;
use crate::frontier::start_walk;
use crate::frontier::starts_filed;
use crate::heap_primitives::lemma_insert_members;
use crate::heap_primitives::lemma_remove_members;
use crate::heap_primitives::lemma_same_members;
use crate::maze_2d::action_order;
use crate::maze_2d::cost_to;
use crate::maze_2d::spec_cost;
use crate::maze_2d::walk_to;
use crate::maze_2d::free_walk;
use crate::maze_2d::lemma_action_in_order;
use crate::maze_2d::Maze2DAction;
use crate::maze_2d::grid_free;
use crate::maze_2d::keys_of;
use crate::maze_2d::lemma_problem_universe;
use crate::maze_2d::problem_size_ok;
use crate::maze_2d::problem_universe;
use crate::maze_2d::spec_apply;
use crate::maze_2d::state_key;
use crate::maze_2d::Maze2DProblem;
use crate::maze_2d::Maze2DState;
use crate::maze_2d::ObjectiveHeuristic;
use crate::maze_2d::diagonal_distance;
use crate::maze_2d::Maze2DHeuristicDiagonalDistance;
use crate::path::path_follows;
use crate::search::sat_add;
use crate::search::saturating_add;
use crate::search::HeapEntry;
use crate::path::Path;
use crate::search::SearchRank;
use crate::search::SearchTree;

verus! {

/// The rank of heuristic search: `f = g + h` (saturating), then `h`; lower is better.
#[derive(Copy, Clone, Debug, PartialEq, Eq, Structural, PartialOrd, Ord)]
pub struct AStarRank {
    pub f: u32,
    pub h: u32,
}

impl AStarRank {
    pub fn new(g: u32, h: u32) -> (r: Self)
        ensures
            r.f == sat_add(g, h),
            r.h == h,
    {
        Self { f: saturating_add(g, h), h }
    }

    /// Raises `h` to `new_h` when that is larger, keeping the cost that `f`
    /// was derived from; returns whether anything changed.
    pub fn worsen_h(&mut self, new_h: u32) -> (r: bool)
        requires
            old(self).f >= old(self).h,
        ensures
            r == (new_h > old(self).h),
            r ==> final(self).h == new_h && final(self).f == sat_add(
                (old(self).f - old(self).h) as u32,
                new_h,
            ),
            !r ==> *final(self) == *old(self),
            forall|g: u32| old(self).agrees_with(g) ==> #[trigger] final(self).agrees_with(g),
            final(self).f >= final(self).h,
            final(self).rank_key() >= old(self).rank_key(),
    {
        if new_h > self.h {
            let g = self.f - self.h;
            self.h = new_h;
            self.f = saturating_add(g, new_h);
            return true;
        }
        false
    }
}

impl Ranked for AStarRank {
    open spec fn rank_key(&self) -> int {
        self.f as int * 0x1_0000_0000 + self.h as int
    }

    fn rank_le(&self, other: &Self) -> (r: bool) {
        self.f < other.f || (self.f == other.f && self.h <= other.h)
    }
}

impl SearchRank for AStarRank {
    open spec fn agrees_with(&self, g: u32) -> bool {
        self.f == sat_add(g, self.h)
    }

    open spec fn tie(&self) -> int {
        self.h as int
    }

    fn improve_g(&mut self, new_g: u32) {
        self.f = saturating_add(new_g, self.h);
    }
}

/// An entry of the heuristic open list.
pub type AStarHeapNode = HeapEntry<AStarRank>;

/// The least heuristic value from `s` to any of `goals`; `u32::MAX` for none.
pub open spec fn min_h<OH: ObjectiveHeuristic>(goals: Seq<Maze2DState>, s: Maze2DState) -> u32
    decreases goals.len(),
{
    if goals.len() == 0 {
        u32::MAX
    } else {
        let rest = min_h::<OH>(goals.drop_last(), s);
        let x = OH::spec_h(s, goals.last());
        if x < rest {
            x
        } else {
            rest
        }
    }
}

/// The heuristic never drops by more than a move costs: for every goal `x`,
/// `h(a, x) <= cost(move) + h(b, x)` when the move leads from `a` to `b`.
pub open spec fn heuristic_consistent<OH: ObjectiveHeuristic>() -> bool {
    forall|a: Maze2DState, m: Maze2DAction, x: Maze2DState|
        #![trigger spec_apply(a, m), OH::spec_h(a, x)]
        spec_apply(a, m) is Some ==> OH::spec_h(a, x) <= spec_cost(m) + OH::spec_h(
            spec_apply(a, m)->0,
            x,
        )
}

/// The heuristic value from any start or empty cell of `p` to any goal of
/// `p` is at most `b`.
pub open spec fn heuristic_bounded<OH: ObjectiveHeuristic>(p: Maze2DProblem, b: int) -> bool {
    forall|s: Maze2DState, x: Maze2DState|
        (p.starts@.contains(s) || grid_free(p.space@, s)) && p.goals@.contains(x) ==> #[trigger] OH::spec_h(
            s,
            x,
        ) <= b
}

/// The diagonal distance never drops by more than a move costs.
pub proof fn lemma_diagonal_consistent()
    ensures
        heuristic_consistent::<Maze2DHeuristicDiagonalDistance>(),
{
    assert forall|a: Maze2DState, m: Maze2DAction, x: Maze2DState|
        #![trigger spec_apply(a, m), Maze2DHeuristicDiagonalDistance::spec_h(a, x)]
        spec_apply(a, m) is Some implies Maze2DHeuristicDiagonalDistance::spec_h(a, x) <= spec_cost(
        m,
    ) + Maze2DHeuristicDiagonalDistance::spec_h(spec_apply(a, m)->0, x) by {
        let b = spec_apply(a, m)->0;
        let da = diagonal_distance(a, x);
        let db = diagonal_distance(b, x);
        assert(da <= spec_cost(m) + db);
    }
}

/// The least value over goals is no more than the value for any one of them.
pub proof fn lemma_min_h_member<OH: ObjectiveHeuristic>(l: Seq<Maze2DState>, s: Maze2DState, y: Maze2DState)
    requires
        l.contains(y),
    ensures
        min_h::<OH>(l, s) <= OH::spec_h(s, y),
    decreases l.len(),
{
    if l.last() != y {
        let k = choose|k: int| 0 <= k < l.len() && l[k] == y;
        assert(l.drop_last()[k] == y);
        lemma_min_h_member::<OH>(l.drop_last(), s, y);
    }
}

/// Fewer goals never give a smaller least value.
pub proof fn lemma_min_h_subset<OH: ObjectiveHeuristic>(l1: Seq<Maze2DState>, l2: Seq<Maze2DState>, s: Maze2DState)
    requires
        forall|k: int| 0 <= k < l2.len() ==> l1.contains(#[trigger] l2[k]),
    ensures
        min_h::<OH>(l1, s) <= min_h::<OH>(l2, s),
    decreases l2.len(),
{
    if l2.len() > 0 {
        assert(l1.contains(l2[l2.len() - 1]));
        lemma_min_h_member::<OH>(l1, s, l2.last());
        assert forall|k: int| 0 <= k < l2.drop_last().len() implies l1.contains(
            #[trigger] l2.drop_last()[k],
        ) by {
            assert(l2.drop_last()[k] == l2[k]);
        }
        lemma_min_h_subset::<OH>(l1, l2.drop_last(), s);
    }
}

/// With a consistent heuristic, the least value over goals is consistent too.
pub proof fn lemma_min_h_consistent<OH: ObjectiveHeuristic>(l: Seq<Maze2DState>, a: Maze2DState, m: Maze2DAction)
    requires
        heuristic_consistent::<OH>(),
        spec_apply(a, m) is Some,
    ensures
        min_h::<OH>(l, a) <= spec_cost(m) + min_h::<OH>(l, spec_apply(a, m)->0),
    decreases l.len(),
{
    if l.len() > 0 {
        lemma_min_h_consistent::<OH>(l.drop_last(), a, m);
        let _ = OH::spec_h(a, l.last());
        assert(OH::spec_h(a, l.last()) <= spec_cost(m) + OH::spec_h(spec_apply(a, m)->0, l.last()));
    }
}

/// Along a walk, the least value over goals drops by at most what the rest of
/// the walk costs.
pub proof fn lemma_min_h_along<OH: ObjectiveHeuristic>(
    l: Seq<Maze2DState>,
    s0: Maze2DState,
    acts: Seq<Maze2DAction>,
    i: int,
)
    requires
        heuristic_consistent::<OH>(),
        0 <= i <= acts.len(),
        walk_to(s0, acts, acts.len() as int) is Some,
    ensures
        walk_to(s0, acts, i) is Some,
        min_h::<OH>(l, walk_to(s0, acts, i)->0) <= cost_to(acts, acts.len() as int) - cost_to(
            acts,
            i,
        ) + min_h::<OH>(l, walk_to(s0, acts, acts.len() as int)->0),
    decreases acts.len() - i,
{
    lemma_walk_defined(s0, acts, i, acts.len() as int);
    if i < acts.len() {
        lemma_min_h_along::<OH>(l, s0, acts, i + 1);
        let w = walk_to(s0, acts, i)->0;
        assert(walk_to(s0, acts, i + 1) == spec_apply(w, acts[i]));
        lemma_min_h_consistent::<OH>(l, w, acts[i]);
    }
}

proof fn lemma_walk_defined(s0: Maze2DState, acts: Seq<Maze2DAction>, i: int, j: int)
    requires
        0 <= i <= j,
        walk_to(s0, acts, j) is Some,
    ensures
        walk_to(s0, acts, i) is Some,
    decreases j - i,
{
    if i < j {
        lemma_walk_defined(s0, acts, i + 1, j);
        lemma_walk_defined(s0, acts, i, j - 1);
    }
}

proof fn lemma_swap_remove_keys(l: Seq<Maze2DState>, j: int)
    requires
        0 <= j < l.len(),
        keys_of(l).no_duplicates(),
    ensures
        keys_of(l.update(j, l.last()).drop_last()).to_set() == keys_of(l).to_set().remove(
            state_key(l[j]),
        ),
        keys_of(l.update(j, l.last()).drop_last()).no_duplicates(),
{
    let l2 = l.update(j, l.last()).drop_last();
    let k = keys_of(l);
    let k2 = keys_of(l2);
    let n = l.len() - 1;
    assert(forall|i: int| 0 <= i < l2.len() ==> k2[i] == k[if i == j {
        n
    } else {
        i
    }]);
    assert forall|v: u64| k2.to_set().contains(v) <==> k.to_set().remove(state_key(l[j])).contains(
        v,
    ) by {
        if k2.to_set().contains(v) {
            let i = choose|i: int| 0 <= i < k2.len() && k2[i] == v;
            let o = if i == j {
                n
            } else {
                i
            };
            assert(k[o] == v);
            assert(o != j);
            assert(k[j] == state_key(l[j]));
        }
        if k.to_set().remove(state_key(l[j])).contains(v) {
            let i = choose|i: int| 0 <= i < k.len() && k[i] == v;
            assert(i != j);
            if i == n {
                assert(k2[j] == v);
            } else {
                assert(k2[i] == v);
            }
        }
    }
    assert(k2.to_set() =~= k.to_set().remove(state_key(l[j])));
    assert forall|a: int, b: int| 0 <= a < k2.len() && 0 <= b < k2.len() && a != b implies k2[a]
        != k2[b] by {
        let oa = if a == j {
            n
        } else {
            a
        };
        let ob = if b == j {
            n
        } else {
            b
        };
        assert(oa != ob);
    }
}


/// The goals in their order, each key once (the first occurrence kept).
pub open spec fn distinct_goals(s: Seq<Maze2DState>) -> Seq<Maze2DState>
    decreases s.len(),
{
    if s.len() == 0 {
        Seq::empty()
    } else {
        let d = distinct_goals(s.drop_last());
        if keys_of(d).contains(state_key(s.last())) {
            d
        } else {
            d.push(s.last())
        }
    }
}

/// An entry whose heuristic value is raised to `h` where that is larger,
/// keeping the cost that `f` was derived from.
pub open spec fn rerank(e: AStarHeapNode, h: u32) -> AStarHeapNode {
    if h > e.rank.h {
        HeapEntry {
            rank: AStarRank { f: sat_add((e.rank.f - e.rank.h) as u32, h), h },
            node_index: e.node_index,
        }
    } else {
        e
    }
}

/// Every entry of `open` reranked against the goals `goals`.
pub open spec fn reranked<OH: ObjectiveHeuristic>(
    open: Seq<AStarHeapNode>,
    t: SearchTree<AStarRank>,
    goals: Seq<Maze2DState>,
) -> Seq<AStarHeapNode> {
    open.map_values(
        |e: AStarHeapNode| rerank(e, min_h::<OH>(goals, t.nodes@[e.node_index as int].state)),
    )
}

/// Heuristic search over a grid problem, with heuristic `OH`.
pub struct AStarSearch<OH> {
    search_tree: SearchTree<AStarRank>,
    remaining_goals_list: Vec<Maze2DState>,
    remaining_goals_set: FxHashSet<u64>,
    problem: Maze2DProblem,
    heuristic: PhantomData<OH>,
}

impl<OH: ObjectiveHeuristic> AStarSearch<OH> {
    /// The forest, open list and directory agree and are those of this
    /// problem; the goal list and goal set hold the same goals once each.
    pub closed spec fn wf(&self) -> bool {
        &&& self.wf_base()
        &&& closed_not_goal(self.search_tree, self.remaining_goals_set@)
        &&& !self.remaining_goals_set@.is_empty() ==> closed_relaxed_except(
            self.search_tree,
            self.problem,
            -1,
        )
        &&& !self.remaining_goals_set@.is_empty() ==> self.optimal_below()
    }

    /// With a consistent heuristic bounded by `b`, closed nodes cost no more
    /// than any walk to them that costs less than `u32::MAX - b`.
    closed spec fn optimal_below(&self) -> bool {
        heuristic_consistent::<OH>() ==> forall|b: int|
            #[trigger] heuristic_bounded::<OH>(self.problem, b) && b >= 0 ==> closed_optimal_below(
                self.search_tree,
                self.problem,
                b,
            )
    }

    /// Every open entry's `h` is the least heuristic value over the goals left.
    closed spec fn ranks_current(&self) -> bool {
        forall|i: int|
            0 <= i < self.search_tree.open@.len() ==> (#[trigger] self.search_tree.open@[i]).rank.h
                == min_h::<OH>(
                self.remaining_goals_list@,
                self.search_tree.nodes@[self.search_tree.open@[i].node_index as int].state,
            )
    }

    /// What holds between `wf` states, and while goal `k` is being dropped.
    pub closed spec fn wf_except_goal(&self, k: u64) -> bool {
        &&& self.wf_base()
        &&& closed_not_goal(self.search_tree, self.remaining_goals_set@.remove(k))
        &&& !self.remaining_goals_set@.remove(k).is_empty() ==> closed_relaxed_except(
            self.search_tree,
            self.problem,
            -1,
        )
        &&& !self.remaining_goals_set@.remove(k).is_empty() ==> self.optimal_below()
    }

    /// A well-formed search may drop any goal.
    pub proof fn lemma_wf_except_goal(&self, k: u64)
        requires
            self.wf(),
        ensures
            self.wf_except_goal(k),
    {
        assert forall|n: int|
            0 <= n < self.search_tree.nodes@.len() && (
            #[trigger] self.search_tree.nodes@[n]).is_closed implies !self.remaining_goals_set@.remove(
            k,
        ).contains(state_key(self.search_tree.nodes@[n].state)) by {}
        if !self.remaining_goals_set@.remove(k).is_empty() {
            let x = self.remaining_goals_set@.remove(k).choose();
            assert(self.remaining_goals_set@.remove(k).contains(x));
            assert(self.remaining_goals_set@.contains(x));
        }
    }

    closed spec fn wf_base(&self) -> bool {
        &&& self.search_tree.wf()
        &&& self.problem.space.wf()
        &&& problem_size_ok(&self.problem)
        &&& self.search_tree.starts@ == self.problem.starts@
        &&& self.search_tree.universe@ == problem_universe(&self.problem)
        &&& self.remaining_goals_set@ == keys_of(self.remaining_goals_list@).to_set()
        &&& keys_of(self.remaining_goals_list@).no_duplicates()
        &&& starts_filed(self.search_tree, self.problem)
        &&& children_free(self.search_tree, self.problem)
        &&& self.ranks_current()
        &&& forall|k: int|
            0 <= k < self.remaining_goals_list@.len() ==> self.problem.goals@.contains(
                #[trigger] self.remaining_goals_list@[k],
            )
    }

    /// The problem being solved.
    pub closed spec fn problem_view(&self) -> Maze2DProblem {
        self.problem
    }

    /// Keys of the goals not reported yet.
    pub closed spec fn remaining_goals(&self) -> Set<u64> {
        self.remaining_goals_set@
    }

    /// The open list.
    pub closed spec fn open_view(&self) -> Seq<AStarHeapNode> {
        self.search_tree.open@
    }

    /// The search forest with its open list and directory.
    pub closed spec fn tree_view(&self) -> SearchTree<AStarRank> {
        self.search_tree
    }

    /// A well-formed search has a well-formed forest, so the forest's laws
    /// (`SearchTree::lemma_counts`, `lemma_heap_order`, `lemma_open_links`) apply to it.
    pub proof fn lemma_tree_wf(&self)
        requires
            self.wf(),
        ensures
            self.tree_view().wf(),
            self.open_view() == self.tree_view().open@,
            self.node_count() == self.tree_view().nodes@.len(),
    {
    }

    /// The number of nodes in the forest.
    pub closed spec fn node_count(&self) -> nat {
        self.search_tree.nodes@.len()
    }

    /// The number of nodes in the forest.
    pub fn nodes_len(&self) -> (r: usize)
        ensures
            r == self.node_count(),
    {
        self.search_tree.nodes.len()
    }

    /// The number of entries in the open list.
    pub fn open_len(&self) -> (r: usize)
        ensures
            r == self.open_view().len(),
    {
        self.search_tree.open.len()
    }

    /// The number of entries in the state directory: one per node.
    pub fn directory_len(&self) -> (r: usize)
        requires
            self.wf(),
        ensures
            r == self.node_count(),
    {
        proof {
            self.search_tree.lemma_counts();
        }
        fx_map_len(&self.search_tree.node_map)
    }

    /// The number of nodes expanded (or given up) so far.
    pub fn expanded_len(&self) -> (r: usize)
        requires
            self.wf(),
        ensures
            r == self.node_count() - self.open_view().len(),
    {
        proof {
            self.search_tree.lemma_counts();
        }
        self.search_tree.nodes.len() - self.search_tree.open.len()
    }

    /// The goals still sought, in the order kept for heuristic evaluation.
    pub closed spec fn goal_list(&self) -> Seq<Maze2DState> {
        self.remaining_goals_list@
    }


    /// The least heuristic value from `s` to the goals still sought.
    pub fn h(&self, s: &Maze2DState) -> (r: u32)
        ensures
            r == min_h::<OH>(self.goal_list(), *s),
    {
        let mut h: u32 = u32::MAX;
        let mut j: usize = 0;
        while j < self.remaining_goals_list.len()
            invariant
                j <= self.remaining_goals_list@.len(),
                h == min_h::<OH>(self.remaining_goals_list@.subrange(0, j as int), *s),
            decreases self.remaining_goals_list@.len() - j,
        {
            let x = OH::h(s, &self.remaining_goals_list[j]);
            proof {
                let sub = self.remaining_goals_list@.subrange(0, j + 1);
                assert(sub.drop_last() =~= self.remaining_goals_list@.subrange(0, j as int));
            }
            if x < h {
                h = x;
            }
            j = j + 1;
        }
        proof {
            assert(self.remaining_goals_list@.subrange(0, j as int) =~= self.remaining_goals_list@);
        }
        h
    }

    /// Starts a search: one open node of cost zero for each distinct start,
    /// ranked by its least heuristic value to the goals; the goals are kept
    /// in their order, each once.
    pub fn new(op: Maze2DProblem) -> (r: Self)
        requires
            op.space.wf(),
            problem_size_ok(&op),
        ensures
            r.wf(),
            r.problem_view() == op,
            r.remaining_goals() == keys_of(op.goals@).to_set(),
            r.goal_list() == distinct_goals(op.goals@),
            seeded(r.tree_view(), op.starts@),
            forall|i: int|
                0 <= i < r.open_view().len() ==> {
                    let e = #[trigger] r.open_view()[i];
                    let hs = min_h::<OH>(r.goal_list(), r.tree_view().nodes@[e.node_index as int].state);
                    e.rank.h == hs && e.rank.f == hs
                },
    {
        let ghost universe = problem_universe(&op);
        proof {
            lemma_problem_universe(&op, Maze2DState { x: 0, y: 0 });
        }
        let search_tree = SearchTree::new(Ghost(op.starts@), Ghost(universe));
        let mut goals: FxHashSet<u64> = FxHashSet::default();
        let mut list: Vec<Maze2DState> = Vec::new();
        let mut j: usize = 0;
        while j < op.goals.len()
            invariant
                j <= op.goals@.len(),
                goals@ == keys_of(op.goals@.subrange(0, j as int)).to_set(),
                goals@ == keys_of(list@).to_set(),
                keys_of(list@).no_duplicates(),
                list@ == distinct_goals(op.goals@.subrange(0, j as int)),
                forall|k: int| 0 <= k < list@.len() ==> op.goals@.contains(#[trigger] list@[k]),
            decreases op.goals@.len() - j,
        {
            let goal = op.goals[j];
            let key = goal.key();
            proof {
                assert(keys_of(op.goals@.subrange(0, j + 1)) =~= keys_of(
                    op.goals@.subrange(0, j as int),
                ).push(key));
                keys_of(op.goals@.subrange(0, j as int)).lemma_push_to_set_commute(key);
                assert(op.goals@.subrange(0, j + 1).drop_last() =~= op.goals@.subrange(0, j as int));
            }
            if !fx_set_contains(&goals, key) {
                proof {
                    assert(keys_of(list@.push(goal)) =~= keys_of(list@).push(key));
                    keys_of(list@).lemma_push_to_set_commute(key);
                    assert(!keys_of(list@).contains(key));
                }
                fx_set_insert(&mut goals, key);
                list.push(goal);
                proof {
                    assert(op.goals@[j as int] == goal);
                }
            } else {
                proof {
                    assert(goals@.insert(key) =~= goals@);
                    assert(keys_of(list@).contains(key));
                }
            }
            j = j + 1;
        }
        proof {
            assert(op.goals@.subrange(0, op.goals@.len() as int) =~= op.goals@);
        }
        let mut search = AStarSearch {
            search_tree,
            remaining_goals_list: list,
            remaining_goals_set: goals,
            problem: op,
            heuristic: PhantomData,
        };
        let mut i: usize = 0;
        while i < search.problem.starts.len()
            invariant
                i <= search.problem.starts@.len(),
                search.search_tree.wf(),
                search.problem == op,
                problem_size_ok(&op),
                op.space.wf(),
                search.search_tree.starts@ == op.starts@,
                search.search_tree.universe@ == problem_universe(&op),
                search.remaining_goals_set@ == keys_of(op.goals@).to_set(),
                search.remaining_goals_set@ == keys_of(search.remaining_goals_list@).to_set(),
                keys_of(search.remaining_goals_list@).no_duplicates(),
                search.remaining_goals_list@ == distinct_goals(op.goals@),
                forall|k: int|
                    0 <= k < search.remaining_goals_list@.len() ==> op.goals@.contains(
                        #[trigger] search.remaining_goals_list@[k],
                    ),
                forall|n: int|
                    0 <= n < search.search_tree.nodes@.len() ==> !(
                    #[trigger] search.search_tree.nodes@[n]).is_closed
                        && search.search_tree.nodes@[n].g == 0 && op.starts@.contains(
                        search.search_tree.nodes@[n].state,
                    ) && search.search_tree.nodes@[n].parent is None,
                forall|j: int|
                    0 <= j < i ==> #[trigger] search.search_tree.lookup(op.starts@[j]) is Some,
                search.search_tree.states().to_set() == op.starts@.subrange(0, i as int).to_set(),
                search.search_tree.states().no_duplicates(),
                search.search_tree.open@.len() == search.search_tree.nodes@.len(),
                forall|k: int|
                    0 <= k < search.search_tree.open@.len() ==> {
                        let e = #[trigger] search.search_tree.open@[k];
                        let hs = min_h::<OH>(
                            search.remaining_goals_list@,
                            search.search_tree.nodes@[e.node_index as int].state,
                        );
                        e.node_index < search.search_tree.nodes@.len() && e.rank.h == hs
                            && e.rank.f == hs
                    },
            decreases search.problem.starts@.len() - i,
        {
            let s = search.problem.starts[i];
            let key = s.key();
            let found = fx_map_get(&search.search_tree.node_map, key);
            let ghost before = search.search_tree;
            proof {
                search.search_tree.lemma_lookup(s);
                assert(op.starts@.subrange(0, i + 1) =~= op.starts@.subrange(0, i as int).push(s));
                op.starts@.subrange(0, i as int).lemma_push_to_set_commute(s);
            }
            if found.is_none() {
                proof {
                    assert(op.starts@.contains(s)) by {
                        assert(op.starts@[i as int] == s);
                    }
                    lemma_problem_universe(&op, s);
                    search.search_tree.lemma_sizes(s);
                }
                let h = search.h(&s);
                let rank = AStarRank::new(0, h);
                search.search_tree.push_new(s, None, 0, rank);
                proof {
                    assert(!before.states().contains(s)) by {
                        if before.states().contains(s) {
                            let k = choose|k: int|
                                0 <= k < before.states().len() && before.states()[k] == s;
                            before.lemma_lookup_node(k);
                        }
                    }
                    assert(search.search_tree.states() =~= before.states().push(s));
                    before.states().lemma_push_to_set_commute(s);
                    assert forall|a: int, b: int|
                        0 <= a < b < search.search_tree.states().len() implies search.search_tree.states()[a]
                        != search.search_tree.states()[b] by {
                        if b == before.states().len() {
                            assert(before.states()[a] == search.search_tree.states()[a]);
                        }
                    }
                    let r = before.nodes@.len() as int;
                    lemma_insert_members(
                        before.open@,
                        search.search_tree.open@,
                        HeapEntry { rank, node_index: r as usize },
                    );
                    assert forall|k: int| 0 <= k < search.search_tree.open@.len() implies {
                        let e = #[trigger] search.search_tree.open@[k];
                        let hs = min_h::<OH>(
                            search.remaining_goals_list@,
                            search.search_tree.nodes@[e.node_index as int].state,
                        );
                        e.node_index < search.search_tree.nodes@.len() && e.rank.h == hs
                            && e.rank.f == hs
                    } by {
                        let e = search.search_tree.open@[k];
                        if e != (HeapEntry { rank, node_index: r as usize }) {
                            let kk = choose|kk: int| 0 <= kk < before.open@.len() && before.open@[kk] == e;
                            assert(before.open@[kk] == e);
                        }
                    }
                }
            } else {
                proof {
                    let m = before.lookup(s)->0;
                    assert(before.states()[m] == s);
                    assert(before.states().to_set().insert(s) =~= before.states().to_set());
                }
            }
            proof {
                assert(search.search_tree.lookup(s) is Some);
            }
            i = i + 1;
        }
        proof {
            let t = search.search_tree;
            assert forall|s: Maze2DState| #[trigger] op.starts@.contains(s) implies t.lookup(s) is Some
                && !t.nodes@[t.lookup(s)->0].is_closed && t.nodes@[t.lookup(s)->0].g == 0
                && t.nodes@[t.lookup(s)->0].parent is None by {
                let j = choose|j: int| 0 <= j < op.starts@.len() && op.starts@[j] == s;
                assert(t.lookup(op.starts@[j]) is Some);
                t.lemma_lookup(s);
            }
            assert(op.starts@.subrange(0, op.starts@.len() as int) =~= op.starts@);
            t.states().unique_seq_to_set();
            assert(t.states().len() == t.nodes@.len());
            assert(seeded(t, op.starts@));
            assert(search.ranks_current());
            assert(starts_filed(t, search.problem));
            assert(children_free(t, search.problem));
            assert(closed_not_goal(t, search.remaining_goals_set@));
        }
        search
    }

    /// Whether `s` is a goal still sought.
    pub fn is_goal(&self, s: &Maze2DState) -> (r: bool)
        requires
            self.wf(),
        ensures
            r == self.remaining_goals().contains(state_key(*s)),
    {
        fx_set_contains(&self.remaining_goals_set, s.key())
    }

    /// Stops seeking `goal`. With no goal left, every open node is closed and
    /// the open list is empty. Otherwise every open entry gets the least
    /// heuristic value over the goals left, where it is larger than its own
    /// (`rerank`), and heap order is restored over the whole open list.
    /// Entries whose value becomes `u32::MAX` (no goal within reach of the
    /// heuristic) are kept: their rank puts them behind every other entry.
    /// No node changes its state, cost or parent.
    pub fn remove_goal(&mut self, goal: &Maze2DState)
        requires
            old(self).wf_except_goal(state_key(*goal)),
            old(self).remaining_goals().contains(state_key(*goal)),
        ensures
            final(self).wf(),
            final(self).problem_view() == old(self).problem_view(),
            final(self).remaining_goals() == old(self).remaining_goals().remove(state_key(*goal)),
            final(self).node_count() == old(self).node_count(),
            forall|n: int|
                0 <= n < old(self).node_count() ==> {
                    &&& (#[trigger] final(self).tree_view().nodes@[n]).state == old(
                        self,
                    ).tree_view().nodes@[n].state
                    &&& final(self).tree_view().nodes@[n].g == old(self).tree_view().nodes@[n].g
                    &&& final(self).tree_view().nodes@[n].parent == old(
                        self,
                    ).tree_view().nodes@[n].parent
                },
            keys_of(final(self).goal_list()).to_set() == final(self).remaining_goals(),
            exists|j: int|
                0 <= j < old(self).goal_list().len() && state_key(old(self).goal_list()[j])
                    == state_key(*goal) && final(self).goal_list() == old(
                    self,
                ).goal_list().update(j, old(self).goal_list().last()).drop_last(),
            final(self).goal_list().len() == 0 ==> final(self).open_view().len() == 0,
            final(self).goal_list().len() > 0 ==> final(self).open_view().to_multiset()
                == reranked::<OH>(
                old(self).open_view(),
                old(self).tree_view(),
                final(self).goal_list(),
            ).to_multiset(),
    {
        let ghost t0 = self.search_tree;
        let key = goal.key();
        fx_set_remove(&mut self.remaining_goals_set, key);
        let mut j: usize = 0;
        while j < self.remaining_goals_list.len() && self.remaining_goals_list[j].key() != key
            invariant
                j <= self.remaining_goals_list@.len(),
                forall|i: int| 0 <= i < j ==> state_key(self.remaining_goals_list@[i]) != key,
            decreases self.remaining_goals_list@.len() - j,
        {
            j = j + 1;
        }
        proof {
            let k = keys_of(self.remaining_goals_list@);
            assert(k.to_set().contains(key));
            let i = choose|i: int| 0 <= i < k.len() && k[i] == key;
            assert(j < self.remaining_goals_list@.len()) by {
                if j >= self.remaining_goals_list@.len() {
                    assert(state_key(self.remaining_goals_list@[i]) != key);
                }
            }
            lemma_swap_remove_keys(self.remaining_goals_list@, j as int);
        }
        let ghost old_list = self.remaining_goals_list@;
        self.remaining_goals_list.swap_remove(j);
        let ghost jj = j as int;
        proof {
            assert(state_key(old_list[j as int]) == key);
            assert(old_list == old(self).remaining_goals_list@);
            assert(self.remaining_goals_list@ == old_list.update(jj, old_list.last()).drop_last());
            assert(old(self).goal_list() == old_list);
            assert(state_key(old(self).goal_list()[jj]) == state_key(*goal));
            assert(self.goal_list() == old(self).goal_list().update(jj, old(self).goal_list().last()).drop_last());

        }
        proof {
            assert(self.remaining_goals_set@ =~= keys_of(self.remaining_goals_list@).to_set());
            lemma_problem_universe(&self.problem, *goal);
            self.search_tree.lemma_sizes(*goal);
        }
        if self.remaining_goals_list.len() == 0 {
            self.search_tree.close_all_open();
            proof {
                let t = self.search_tree;
                assert forall|s: Maze2DState| #[trigger]
                    self.problem.starts@.contains(s) implies t.lookup(s) is Some
                    && t.nodes@[t.lookup(s)->0].g == 0 by {
                    t0.lemma_lookup(s);
                }
                assert forall|n: int|
                    0 <= n < t.nodes@.len() && (#[trigger] t.nodes@[n]).parent is Some implies grid_free(
                    self.problem.space@,
                    t.nodes@[n].state,
                ) by {
                    assert(t0.nodes@[n].parent is Some);
                }
                assert(self.remaining_goals_set@ =~= Set::<u64>::empty());
                assert(0 <= jj < old_list.len() && state_key(old_list[jj]) == key);
                assert(old(self).goal_list() == old_list);
                assert(state_key(old(self).goal_list()[jj]) == state_key(*goal));
                assert(self.goal_list() == old(self).goal_list().update(jj, old(self).goal_list().last()).drop_last());
            }
            return;
        }
        let ghost gl = self.remaining_goals_list@;
        proof {
            assert(keys_of(gl)[0] == state_key(gl[0]));
            assert(self.remaining_goals_set@.contains(state_key(gl[0])));
        }
        let len = self.search_tree.open.len();
        let mut i: usize = 0;
        while i < len
            invariant
                i <= len,
                self.remaining_goals_list@ == gl,
                gl.len() > 0,
                self.remaining_goals_set@.contains(state_key(gl[0])),
                len == self.search_tree.open@.len(),
                len == t0.open@.len(),
                len < usize::MAX / 16,
                self.search_tree.wf_unordered(),
                self.search_tree.grows_from(&t0),
                self.search_tree.nodes@ == t0.nodes@,
                self.search_tree.node_map@ == t0.node_map@,
                self.search_tree.closed_keys@ == t0.closed_keys@,
                self.search_tree.depth@ == t0.depth@,
                self.search_tree.starts@ == t0.starts@,
                self.search_tree.universe@ == t0.universe@,
                self.problem == old(self).problem,
                self.remaining_goals_set@ == keys_of(self.remaining_goals_list@).to_set(),
                keys_of(self.remaining_goals_list@).no_duplicates(),
                self.remaining_goals_set@ == old(self).remaining_goals_set@.remove(key),
                forall|k: int|
                    0 <= k < len ==> #[trigger] self.search_tree.open@[k] == if k < i {
                        rerank(
                            t0.open@[k],
                            min_h::<OH>(
                                self.remaining_goals_list@,
                                t0.nodes@[t0.open@[k].node_index as int].state,
                            ),
                        )
                    } else {
                        t0.open@[k]
                    },
            decreases len - i,
        {
            let e = self.search_tree.open[i];
            proof {
                self.search_tree.lemma_entry(i as int);
            }
            let st = self.search_tree.nodes[e.node_index].state;
            let h = self.h(&st);
            let mut rank = e.rank;
            if rank.worsen_h(h) {
                self.search_tree.set_rank(i, rank);
            }
            proof {
                assert(self.search_tree.open@[i as int] == rerank(t0.open@[i as int], h));
            }
            i = i + 1;
        }
        let ghost mid = self.search_tree;
        proof {
            assert(mid.open@ =~= reranked::<OH>(t0.open@, t0, self.remaining_goals_list@));
        }
        self.search_tree.rebuild();
        proof {
            assert(0 <= jj < old_list.len() && state_key(old_list[jj]) == key);
            assert(self.remaining_goals_list@ == old_list.update(jj, old_list.last()).drop_last());
            let t = self.search_tree;
            let p = self.problem;
            assert(evolves(t0, t, -1));
            lemma_evolve(t0, t, p, -1, -1);
            lemma_evolve_side(
                t0,
                t,
                p,
                -1,
                old(self).remaining_goals_set@.remove(key),
                self.remaining_goals_set@,
            );
            if heuristic_consistent::<OH>() {
                assert forall|b: int| #[trigger] heuristic_bounded::<OH>(self.problem, b) && b >= 0 implies closed_optimal_below(
                    t,
                    p,
                    b,
                ) by {
                    lemma_evolve_below(t0, t, p, -1, b);
                }
            }
            lemma_same_members(mid.open@, t.open@);
            let nl = self.remaining_goals_list@;
            assert forall|k: int| 0 <= k < nl.len() implies old_list.contains(#[trigger] nl[k]) by {
                if k == jj {
                    assert(old_list[old_list.len() - 1] == nl[k]);
                } else {
                    assert(old_list[k] == nl[k]);
                }
            }
            assert forall|i: int| 0 <= i < t.open@.len() implies (#[trigger] t.open@[i]).rank.h
                == min_h::<OH>(nl, t.nodes@[t.open@[i].node_index as int].state) by {
                let k = choose|k: int| 0 <= k < mid.open@.len() && mid.open@[k] == t.open@[i];
                let e0 = t0.open@[k];
                let st = t0.nodes@[e0.node_index as int].state;
                lemma_min_h_subset::<OH>(old_list, nl, st);
                t0.lemma_entry(k);
            }
        }
    }

    /// Runs the search until the next goal is reached, and returns the path to it.
    ///
    /// A returned path starts at a start, moves over empty cells of the grid to
    /// a goal not reported before, and costs the sum of its moves; that goal is
    /// then no longer sought. `None` comes when no goal is left to seek (and
    /// then nothing changes), or when no goal still sought can be reached from
    /// a start, once every reachable state has been expanded. Closed nodes are
    /// never reopened.
    pub fn find_next_goal(&mut self) -> (r: Option<Path>)
        requires
            old(self).wf(),
        ensures
            final(self).wf(),
            final(self).problem_view() == old(self).problem_view(),
            old(self).remaining_goals().is_empty() ==> r is None && final(self).tree_view()
                == old(self).tree_view(),
            match r {
                Some(p) => {
                    &&& path_follows(p)
                    &&& free_walk(old(self).problem_view().space@, p.start->0, p.actions@)
                    &&& heuristic_consistent::<OH>() ==> forall|
                        b: int,
                        s0: Maze2DState,
                        acts: Seq<Maze2DAction>,
                    |
                        #[trigger] heuristic_bounded::<OH>(old(self).problem_view(), b) && b >= 0
                            && #[trigger] start_walk(
                            old(self).problem_view(),
                            s0,
                            acts,
                            p.end->0,
                        ) && cost_to(acts, acts.len() as int) + b < u32::MAX ==> p.cost <= cost_to(
                            acts,
                            acts.len() as int,
                        )
                    &&& old(self).problem_view().starts@.contains(p.start->0)
                    &&& old(self).remaining_goals().contains(state_key(p.end->0))
                    &&& final(self).remaining_goals() == old(self).remaining_goals().remove(
                        state_key(p.end->0),
                    )
                },
                None => {
                    &&& final(self).remaining_goals() == old(self).remaining_goals()
                    &&& forall|x: Maze2DState, s0: Maze2DState, acts: Seq<Maze2DAction>|
                        old(self).remaining_goals().contains(state_key(x)) ==> !#[trigger] start_walk(
                            old(self).problem_view(),
                            s0,
                            acts,
                            x,
                        )
                    &&& !old(self).remaining_goals().is_empty() ==> final(self).open_view().len()
                        == 0
                },
            },
    {
        if self.remaining_goals_set.is_empty() {
            return None;
        }
        proof {
            self.search_tree.lemma_sizes(Maze2DState { x: 0, y: 0 });
        }
        loop
            invariant
                self.wf(),
                self.problem == old(self).problem,
                self.remaining_goals_set@ == old(self).remaining_goals_set@,
                self.remaining_goals_list@ == old(self).remaining_goals_list@,
                !old(self).remaining_goals_set@.is_empty(),
                self.search_tree.work_left() >= 0,
            decreases self.search_tree.work_left(),
        {
            proof {
                self.search_tree.lemma_sizes(Maze2DState { x: 0, y: 0 });
                lemma_problem_universe(&self.problem, Maze2DState { x: 0, y: 0 });
            }
            let ghost pre = self.search_tree;
            let ni = match self.search_tree.pop_and_close() {
                Some(i) => i,
                None => {
                    proof {
                        assert(evolves(pre, self.search_tree, -1));
                        lemma_evolve(pre, self.search_tree, self.problem, -1, -1);
                        lemma_evolve_side(
                            pre,
                            self.search_tree,
                            self.problem,
                            -1,
                            self.remaining_goals_set@,
                            self.remaining_goals_set@,
                        );
                        assert forall|x: Maze2DState, s0: Maze2DState, acts: Seq<Maze2DAction>|
                            old(self).remaining_goals_set@.contains(state_key(x)) implies !#[trigger] start_walk(
                            self.problem,
                            s0,
                            acts,
                            x,
                        ) by {
                            lemma_unreachable(
                                self.search_tree,
                                self.problem,
                                self.remaining_goals_set@,
                                x,
                                s0,
                                acts,
                            );
                        }
                    }
                    return None;
                },
            };
            let ghost work = self.search_tree.work_left();
            let node = self.search_tree.nodes[ni];
            let state = node.state;
            let g = node.g;
            proof {
                let post = self.search_tree;
                let p = self.problem;
                assert(evolves(pre, post, ni as int));
                lemma_evolve(pre, post, p, -1, ni as int);
                lemma_evolve_side(
                    pre,
                    post,
                    p,
                    ni as int,
                    self.remaining_goals_set@,
                    self.remaining_goals_set@.remove(state_key(state)),
                );
                lemma_remove_members(pre.open@, post.open@, pre.open@[0]);
                assert forall|i: int| 0 <= i < post.open@.len() implies (#[trigger] post.open@[i]).rank.h
                    == min_h::<OH>(
                    self.remaining_goals_list@,
                    post.nodes@[post.open@[i].node_index as int].state,
                ) by {
                    let e = post.open@[i];
                    let kk = choose|kk: int| 0 <= kk < pre.open@.len() && pre.open@[kk] == e;
                    pre.lemma_entry(kk);
                }
                if heuristic_consistent::<OH>() {
                    pre.lemma_lookup_node(ni as int);
                    pre.lemma_entry(0);
                    pre.lemma_open_links();
                    let l = self.remaining_goals_list@;
                    assert forall|b: int, s0: Maze2DState, acts: Seq<Maze2DAction>|
                        #[trigger] heuristic_bounded::<OH>(self.problem, b) && b >= 0 && #[trigger] start_walk(
                            p,
                            s0,
                            acts,
                            state,
                        ) && cost_to(acts, acts.len() as int) + b < u32::MAX implies g <= cost_to(
                        acts,
                        acts.len() as int,
                    ) by {
                        let len = acts.len() as int;
                        lemma_frontier_at(pre, p, b, s0, acts, len);
                        let (i, u) = choose|i: int, u: int|
                            #![trigger pre.nodes@[u], walk_to(s0, acts, i)]
                            0 <= i <= len && 0 <= u < pre.nodes@.len() && !pre.nodes@[u].is_closed
                                && walk_to(s0, acts, i) == Some(pre.nodes@[u].state)
                                && pre.nodes@[u].g <= cost_to(acts, i);
                        lemma_min_h_along::<OH>(l, s0, acts, i);
                        let hu = pre.nodes@[u].heap_index as int;
                        let eu = pre.open@[hu];
                        let em = pre.open@[0];
                        assert(eu.rank.h == min_h::<OH>(l, pre.nodes@[u].state));
                        assert(em.rank.h == min_h::<OH>(l, state));
                        assert(em.rank_key() <= eu.rank_key());
                        let (fm, hm, fu, hv) = (em.rank.f as int, em.rank.h as int, eu.rank.f as int, eu.rank.h as int);
                        assert(fm <= fu) by (nonlinear_arith)
                            requires
                                fm * 0x1_0000_0000 + hm <= fu * 0x1_0000_0000 + hv,
                                0 <= hm < 0x1_0000_0000,
                                0 <= hv < 0x1_0000_0000,
                        ;
                        assert(min_h::<OH>(l, state) <= b) by {
                            pre.lemma_parent_of(ni as int);
                            if l.len() > 0 {
                                assert(p.goals@.contains(l[l.len() - 1]));
                                assert(OH::spec_h(state, l.last()) <= b);
                            }
                        }
                    }
                    assert forall|b: int| #[trigger] heuristic_bounded::<OH>(self.problem, b) && b >= 0 implies closed_optimal_below(
                        post,
                        p,
                        b,
                    ) by {
                        lemma_evolve_below(pre, post, p, ni as int, b);
                    }
                }
            }
            let neigh = self.problem.space.neighbours(&state);
            let mut k: usize = 0;
            while k < neigh.len()
                invariant
                    self.search_tree.wf(),
                    self.wf_base(),
                    self.optimal_below(),
                    self.problem == old(self).problem,
                    self.remaining_goals_set@ == old(self).remaining_goals_set@,
                    self.remaining_goals_list@ == old(self).remaining_goals_list@,
                    self.search_tree.work_left() == work,
                    work >= 0,
                    k <= neigh@.len(),
                    ni < self.search_tree.nodes@.len(),
                    self.search_tree.nodes@[ni as int].is_closed,
                    self.search_tree.nodes@[ni as int].state == state,
                    self.search_tree.nodes@[ni as int].g == g,
                    closed_relaxed_except(self.search_tree, self.problem, ni as int),
                    closed_not_goal(
                        self.search_tree,
                        self.remaining_goals_set@.remove(state_key(state)),
                    ),
                    forall|j: int|
                        0 <= j < k ==> relaxed(
                            self.search_tree,
                            self.problem,
                            ni as int,
                            #[trigger] neigh@[j].1,
                        ),
                    forall|j: int|
                        0 <= j < 8 ==> match spec_apply(state, #[trigger] action_order()[j]) {
                            Some(t) => grid_free(self.problem.space@, t) ==> exists|m: int|
                                0 <= m < neigh@.len() && (#[trigger] neigh@[m]).1 == action_order()[j],
                            None => true,
                        },
                    forall|j: int|
                        0 <= j < neigh@.len() ==> {
                            &&& spec_apply(state, (#[trigger] neigh@[j]).1) == Some(neigh@[j].0)
                            &&& grid_free(self.problem.space@, neigh@[j].0)
                        },
                decreases neigh@.len() - k,
            {
                let (s, a) = neigh[k];
                let c = self.problem.space.cost(&s, &a);
                let new_g = saturating_add(g, c);
                let key = s.key();
                proof {
                    assert(spec_apply(state, a) == Some(s) && grid_free(self.problem.space@, s)) by {
                        assert(neigh@[k as int] == (s, a));
                    }
                    self.search_tree.lemma_lookup(s);
                    self.search_tree.lemma_sizes(s);
                    lemma_problem_universe(&self.problem, s);
                }
                let ghost t1 = self.search_tree;
                match fx_map_get(&self.search_tree.node_map, key) {
                    Some(m) => {
                        let mn = self.search_tree.nodes[m];
                        if !mn.is_closed && new_g < mn.g {
                            self.search_tree.improve(m, ni, a, new_g);
                            proof {
                                let t2 = self.search_tree;
                                t1.lemma_open_links();
                                assert forall|i: int| 0 <= i < t2.open@.len() implies (
                                #[trigger] t2.open@[i]).rank.h == min_h::<OH>(
                                    self.remaining_goals_list@,
                                    t2.nodes@[t2.open@[i].node_index as int].state,
                                ) by {
                                    let e = t2.open@[i];
                                    if t1.open@.contains(e) {
                                        let kk = choose|kk: int|
                                            0 <= kk < t1.open@.len() && t1.open@[kk] == e;
                                        t1.lemma_entry(kk);
                                    } else {
                                        let _ = t1.nodes@[m as int];
                                    }
                                }
                            }
                        }
                    },
                    None => {
                        let h = self.h(&s);
                        let rank = AStarRank::new(new_g, h);
                        self.search_tree.push_new(s, Some((ni, a)), new_g, rank);
                        proof {
                            let t2 = self.search_tree;
                            let r = t1.nodes@.len() as int;
                            lemma_insert_members(
                                t1.open@,
                                t2.open@,
                                HeapEntry { rank, node_index: r as usize },
                            );
                            assert forall|i: int| 0 <= i < t2.open@.len() implies (
                            #[trigger] t2.open@[i]).rank.h == min_h::<OH>(
                                self.remaining_goals_list@,
                                t2.nodes@[t2.open@[i].node_index as int].state,
                            ) by {
                                let e = t2.open@[i];
                                if e != (HeapEntry { rank, node_index: r as usize }) {
                                    let kk = choose|kk: int|
                                        0 <= kk < t1.open@.len() && t1.open@[kk] == e;
                                    t1.lemma_entry(kk);
                                }
                            }
                        }
                    },
                }
                proof {
                    let t2 = self.search_tree;
                    let p = self.problem;
                    assert(evolves(t1, t2, ni as int));
                    lemma_evolve(t1, t2, p, ni as int, ni as int);
                    assert forall|n: int|
                        0 <= n < t2.nodes@.len() && (#[trigger] t2.nodes@[n]).parent is Some implies (n
                            < t1.nodes@.len() && t1.nodes@[n].parent is Some) || grid_free(
                            p.space@,
                            t2.nodes@[n].state,
                        ) by {
                        if !(n < t1.nodes@.len() && t1.nodes@[n].parent == t2.nodes@[n].parent) {
                            assert(t2.nodes@[n].state == s);
                        }
                    }
                    lemma_evolve_side(
                        t1,
                        t2,
                        p,
                        ni as int,
                        self.remaining_goals_set@.remove(state_key(state)),
                        self.remaining_goals_set@.remove(state_key(state)),
                    );
                    if heuristic_consistent::<OH>() {
                        assert forall|b: int| #[trigger] heuristic_bounded::<OH>(self.problem, b) && b >= 0 implies closed_optimal_below(
                            t2,
                            p,
                            b,
                        ) by {
                            lemma_evolve_below(t1, t2, p, ni as int, b);
                        }
                    }

                    assert forall|j: int| 0 <= j < k + 1 implies relaxed(
                        t2,
                        p,
                        ni as int,
                        #[trigger] neigh@[j].1,
                    ) by {
                        if j < k {
                            lemma_evolve_relaxed(t1, t2, p, ni as int, ni as int, neigh@[j].1);
                        } else {
                            assert(neigh@[j] == (s, a));
                            t2.lemma_lookup(s);
                        }
                    }
                }
                k = k + 1;
            }
            proof {
                let t = self.search_tree;
                let p = self.problem;
                assert forall|n: int, b: Maze2DAction|
                    0 <= n < t.nodes@.len() && t.nodes@[n].is_closed && n != -1 implies #[trigger] relaxed(
                    t,
                    p,
                    n,
                    b,
                ) by {
                    if n == ni {
                        lemma_action_in_order(b);
                        let kb = choose|kb: int| 0 <= kb < 8 && #[trigger] action_order()[kb] == b;
                        match spec_apply(state, b) {
                            Some(tt) => {
                                if grid_free(p.space@, tt) {
                                    let m = choose|m: int|
                                        0 <= m < neigh@.len() && (#[trigger] neigh@[m]).1
                                            == action_order()[kb];
                                    assert(relaxed(t, p, ni as int, neigh@[m].1));
                                }
                            },
                            None => {},
                        }
                    }
                }
            }
            let skey = state.key();
            proof {
                if !self.remaining_goals_set@.contains(skey) {
                    assert(self.remaining_goals_set@.remove(skey) =~= self.remaining_goals_set@);
                }
            }
            if fx_set_contains(&self.remaining_goals_set, skey) {
                proof {
                    self.search_tree.lemma_lookup_node(ni as int);
                    if heuristic_consistent::<OH>() {
                        assert forall|b: int, s0: Maze2DState, acts: Seq<Maze2DAction>|
                            #[trigger] heuristic_bounded::<OH>(self.problem, b) && b >= 0 && #[trigger] start_walk(
                                self.problem,
                                s0,
                                acts,
                                state,
                            ) && cost_to(acts, acts.len() as int) + b < u32::MAX implies g <= cost_to(
                            acts,
                            acts.len() as int,
                        ) by {
                            assert(closed_optimal_below(self.search_tree, self.problem, b));
                            let _ = self.search_tree.nodes@[ni as int];
                        }
                    }
                }
                self.remove_goal(&state);
                let p = self.search_tree.path(ni, &self.problem.space);
                return Some(p);
            }
        }
    }
}

} // verus!
