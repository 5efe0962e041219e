//! Uniform-cost search: nodes are expanded in order of their cost from the
//! nearest start, and goals are reported one at a time as they are reached.
use rustc_hash::FxHashSet;

use vstd::prelude::*;

use crate::derank::Ranked;
use crate::fx::fx_map_get;
use crate::fx::fx_map_len;
use crate::fx::fx_set_contains;
use crate::fx::fx_set_insert;
use crate::fx::fx_set_remove;
use crate::maze_2d::action_order;
use crate::maze_2d::clamp_int;
use crate::maze_2d::cost_to;
use crate::maze_2d::free_walk;
use crate::maze_2d::grid_free;
use crate::maze_2d::lemma_action_in_order;
use crate::maze_2d::lemma_cost_monotone;
use crate::maze_2d::lemma_walk_prefix;
use crate::maze_2d::walk_to;
use crate::maze_2d::Maze2DAction;
use crate::maze_2d::keys_of;
use crate::maze_2d::lemma_problem_universe;
use crate::maze_2d::problem_size_ok;
use crate::maze_2d::problem_universe;
use crate::maze_2d::spec_apply;
use crate::maze_2d::spec_cost;
use crate::maze_2d::state_key;
use crate::maze_2d::Maze2DProblem;
use crate::maze_2d::Maze2DState;
use crate::path::path_follows;
use crate::search::sat_add;
use crate::search::saturating_add;
use crate::search::HeapEntry;
use crate::path::Path;
use crate::search::SearchRank;
use crate::search::SearchTree;
use crate::frontier::children_free;
use crate::frontier::closed_not_goal;
use crate::frontier::closed_optimal;
use crate::frontier::lemma_evolve_side;
use crate::frontier::lemma_unreachable;
use crate::frontier::seeded;
use crate::frontier::closed_relaxed_except;
use crate::frontier::evolves;
use crate::frontier::lemma_evolve;
use crate::frontier::lemma_evolve_relaxed;
use crate::frontier::lemma_frontier;
use crate::frontier::relaxed;
use crate::frontier::start_walk;
use crate::frontier::starts_filed;

verus! {

/// The rank of uniform-cost search: the cost `g`; lower is better.
#[derive(Copy, Clone, Debug, PartialEq, Eq, Structural, PartialOrd, Ord)]
pub struct DijkstraRank {
    pub g: u32,
}

impl DijkstraRank {
    pub fn new(g: u32) -> (r: Self)
        ensures
            r.g == g,
    {
        Self { g }
    }
}

impl Ranked for DijkstraRank {
    open spec fn rank_key(&self) -> int {
        self.g as int
    }

    fn rank_le(&self, other: &Self) -> (r: bool) {
        self.g <= other.g
    }
}

impl SearchRank for DijkstraRank {
    open spec fn agrees_with(&self, g: u32) -> bool {
        self.g == g
    }

    open spec fn tie(&self) -> int {
        0
    }

    fn improve_g(&mut self, new_g: u32) {
        self.g = new_g;
    }
}

/// An entry of the uniform-cost open list.
pub type DijkstraHeapNode = HeapEntry<DijkstraRank>;

/// Uniform-cost search over a grid problem.
pub struct DijkstraSearch {
    search_tree: SearchTree<DijkstraRank>,
    remaining_goals_set: FxHashSet<u64>,
    problem: Maze2DProblem,
    /// Costs of the nodes expanded so far, in order.
    popped: Ghost<Seq<u32>>,
}

impl DijkstraSearch {
    /// The forest, open list and directory agree, and are those of this problem.
    pub closed spec fn wf(&self) -> bool {
        &&& self.search_tree.wf()
        &&& self.problem.space.wf()
        &&& problem_size_ok(&self.problem)
        &&& self.search_tree.starts@ == self.problem.starts@
        &&& self.search_tree.universe@ == problem_universe(&self.problem)
        &&& closed_optimal(self.search_tree, self.problem)
        &&& closed_relaxed_except(self.search_tree, self.problem, -1)
        &&& starts_filed(self.search_tree, self.problem)
        &&& children_free(self.search_tree, self.problem)
        &&& closed_not_goal(self.search_tree, self.remaining_goals_set@)
    }

    /// The problem being solved.
    pub closed spec fn problem_view(&self) -> Maze2DProblem {
        self.problem
    }

    /// The costs of the expanded nodes, in the order they were expanded.
    pub closed spec fn popped_log(&self) -> Seq<u32> {
        self.popped@
    }

    /// Keys of the goals not reported yet.
    pub closed spec fn remaining_goals(&self) -> Set<u64> {
        self.remaining_goals_set@
    }

    /// The open list.
    pub closed spec fn open_view(&self) -> Seq<DijkstraHeapNode> {
        self.search_tree.open@
    }

    /// The search forest with its open list and directory.
    pub closed spec fn tree_view(&self) -> SearchTree<DijkstraRank> {
        self.search_tree
    }

    /// A well-formed search has a well-formed forest, so the forest's laws
    /// (`SearchTree::lemma_counts`, `lemma_heap_order`, `lemma_open_links`) apply to it.
    pub proof fn lemma_tree_wf(&self)
        requires
            self.wf(),
        ensures
            self.tree_view().wf(),
            self.open_view() == self.tree_view().open@,
            self.node_count() == self.tree_view().nodes@.len(),
    {
    }

    /// The number of nodes in the forest.
    pub closed spec fn node_count(&self) -> nat {
        self.search_tree.nodes@.len()
    }

    /// The number of nodes in the forest.
    pub fn nodes_len(&self) -> (r: usize)
        ensures
            r == self.node_count(),
    {
        self.search_tree.nodes.len()
    }

    /// The number of entries in the open list.
    pub fn open_len(&self) -> (r: usize)
        ensures
            r == self.open_view().len(),
    {
        self.search_tree.open.len()
    }

    /// The number of entries in the state directory: one per node.
    pub fn directory_len(&self) -> (r: usize)
        requires
            self.wf(),
        ensures
            r == self.node_count(),
    {
        proof {
            self.search_tree.lemma_counts();
        }
        fx_map_len(&self.search_tree.node_map)
    }

    /// The number of nodes expanded (or given up) so far.
    pub fn expanded_len(&self) -> (r: usize)
        requires
            self.wf(),
        ensures
            r == self.node_count() - self.open_view().len(),
    {
        proof {
            self.search_tree.lemma_counts();
        }
        self.search_tree.nodes.len() - self.search_tree.open.len()
    }

    /// Starts a search: one open node of cost zero for each distinct start.
    pub fn new(op: Maze2DProblem) -> (r: Self)
        requires
            op.space.wf(),
            problem_size_ok(&op),
        ensures
            r.wf(),
            r.problem_view() == op,
            r.remaining_goals() == keys_of(op.goals@).to_set(),
            r.popped_log().len() == 0,
            seeded(r.tree_view(), op.starts@),
    {
        let ghost universe = problem_universe(&op);
        proof {
            lemma_problem_universe(&op, Maze2DState { x: 0, y: 0 });
        }
        let mut search_tree = SearchTree::new(Ghost(op.starts@), Ghost(universe));
        let mut goals: FxHashSet<u64> = FxHashSet::default();
        let mut j: usize = 0;
        while j < op.goals.len()
            invariant
                j <= op.goals@.len(),
                goals@ == keys_of(op.goals@.subrange(0, j as int)).to_set(),
            decreases op.goals@.len() - j,
        {
            let key = op.goals[j].key();
            fx_set_insert(&mut goals, key);
            proof {
                assert(keys_of(op.goals@.subrange(0, j + 1)) =~= keys_of(
                    op.goals@.subrange(0, j as int),
                ).push(key));
                keys_of(op.goals@.subrange(0, j as int)).lemma_push_to_set_commute(key);
            }
            j = j + 1;
        }
        proof {
            assert(op.goals@.subrange(0, op.goals@.len() as int) =~= op.goals@);
        }
        let mut i: usize = 0;
        while i < op.starts.len()
            invariant
                i <= op.starts@.len(),
                search_tree.wf(),
                search_tree.starts@ == op.starts@,
                search_tree.universe@ == universe,
                universe == problem_universe(&op),
                problem_size_ok(&op),
                forall|n: int|
                    0 <= n < search_tree.nodes@.len() ==> !(#[trigger] search_tree.nodes@[n]).is_closed
                        && search_tree.nodes@[n].g == 0,
                forall|j: int|
                    0 <= j < i ==> #[trigger] search_tree.lookup(op.starts@[j]) is Some,
                forall|n: int|
                    0 <= n < search_tree.nodes@.len() ==> op.starts@.contains(
                        (#[trigger] search_tree.nodes@[n]).state,
                    ) && search_tree.nodes@[n].parent is None,
                search_tree.states().to_set() == op.starts@.subrange(0, i as int).to_set(),
                search_tree.states().no_duplicates(),
                search_tree.open@.len() == search_tree.nodes@.len(),
                search_tree.closed_keys@ == Set::<u64>::empty(),
            decreases op.starts@.len() - i,
        {
            let s = op.starts[i];
            let key = s.key();
            let found = fx_map_get(&search_tree.node_map, key);
            let ghost before = search_tree;
            proof {
                search_tree.lemma_lookup(s);
                assert(op.starts@.subrange(0, i + 1) =~= op.starts@.subrange(0, i as int).push(s));
                op.starts@.subrange(0, i as int).lemma_push_to_set_commute(s);
            }
            if found.is_none() {
                proof {
                    assert(op.starts@.contains(s)) by {
                        assert(op.starts@[i as int] == s);
                    }
                    lemma_problem_universe(&op, s);
                    search_tree.lemma_sizes(s);
                }
                search_tree.push_new(s, None, 0, DijkstraRank::new(0));
                proof {
                    assert(!before.states().contains(s)) by {
                        if before.states().contains(s) {
                            let k = choose|k: int| 0 <= k < before.states().len() && before.states()[k] == s;
                            before.lemma_lookup_node(k);
                        }
                    }
                    assert(search_tree.states() =~= before.states().push(s));
                    before.states().lemma_push_to_set_commute(s);
                    assert forall|a: int, b: int|
                        0 <= a < b < search_tree.states().len() implies search_tree.states()[a]
                        != search_tree.states()[b] by {
                        if b == before.states().len() {
                            assert(before.states()[a] == search_tree.states()[a]);
                        }
                    }
                }
            } else {
                proof {
                    let m = before.lookup(s)->0;
                    assert(before.states()[m] == s);
                    assert(before.states().to_set().insert(s) =~= before.states().to_set());
                }
            }
            proof {
                assert(search_tree.lookup(s) is Some);
            }
            i = i + 1;
        }
        proof {
            assert forall|s: Maze2DState| #[trigger] op.starts@.contains(s) implies search_tree.lookup(
                s,
            ) is Some && search_tree.nodes@[search_tree.lookup(s)->0].g == 0 by {
                let j = choose|j: int| 0 <= j < op.starts@.len() && op.starts@[j] == s;
                assert(search_tree.lookup(op.starts@[j]) is Some);
                search_tree.lemma_lookup(s);
            }
            assert(op.starts@.subrange(0, op.starts@.len() as int) =~= op.starts@);
            search_tree.states().unique_seq_to_set();
            assert(search_tree.states().len() == search_tree.nodes@.len());
            assert(search_tree.nodes@.len() == op.starts@.to_set().len());
            assert forall|s: Maze2DState| #[trigger] op.starts@.contains(s) implies search_tree.lookup(
                s,
            ) is Some && !search_tree.nodes@[search_tree.lookup(s)->0].is_closed
                && search_tree.nodes@[search_tree.lookup(s)->0].g == 0
                && search_tree.nodes@[search_tree.lookup(s)->0].parent is None by {
                let j = choose|j: int| 0 <= j < op.starts@.len() && op.starts@[j] == s;
                assert(search_tree.lookup(op.starts@[j]) is Some);
                search_tree.lemma_lookup(s);
            }
            assert(seeded(search_tree, op.starts@));
        }
        DijkstraSearch {
            search_tree,
            remaining_goals_set: goals,
            problem: op,
            popped: Ghost(Seq::empty()),
        }
    }

    /// Runs the search until the next goal is reached, and returns the path to it.
    ///
    /// A returned path starts at a start, follows moves of the grid to a goal
    /// not reported before, and costs the sum of its moves; that goal is then
    /// no longer sought. `None` comes when no goal is left to seek (and then
    /// nothing changes) or when every reachable state has been expanded.
    pub fn find_next_goal(&mut self) -> (r: Option<Path>)
        requires
            old(self).wf(),
        ensures
            final(self).wf(),
            final(self).problem_view() == old(self).problem_view(),
            old(self).popped_log().len() <= final(self).popped_log().len(),
            final(self).popped_log().subrange(0, old(self).popped_log().len() as int)
                == old(self).popped_log(),
            forall|i: int|
                old(self).popped_log().len() <= i < final(self).popped_log().len() - 1 ==> (
                #[trigger] final(self).popped_log()[i]) <= final(self).popped_log()[i + 1],
            old(self).remaining_goals().is_empty() ==> r is None && final(self).tree_view()
                == old(self).tree_view(),
            match r {
                Some(p) => {
                    &&& path_follows(p)
                    &&& free_walk(old(self).problem_view().space@, p.start->0, p.actions@)
                    &&& forall|x: Maze2DState, s0: Maze2DState, acts: Seq<Maze2DAction>|
                        old(self).remaining_goals().contains(state_key(x)) && #[trigger] start_walk(
                            old(self).problem_view(),
                            s0,
                            acts,
                            x,
                        ) ==> p.cost <= clamp_int(cost_to(acts, acts.len() as int))
                    &&& forall|s0: Maze2DState, acts: Seq<Maze2DAction>|
                        #[trigger] start_walk(old(self).problem_view(), s0, acts, p.end->0) ==> p.cost
                            <= clamp_int(cost_to(acts, acts.len() as int))
                    &&& old(self).problem_view().starts@.contains(p.start->0)
                    &&& old(self).remaining_goals().contains(state_key(p.end->0))
                    &&& final(self).remaining_goals() == old(self).remaining_goals().remove(
                        state_key(p.end->0),
                    )
                },
                None => {
                    &&& final(self).remaining_goals() == old(self).remaining_goals()
                    &&& forall|x: Maze2DState, s0: Maze2DState, acts: Seq<Maze2DAction>|
                        old(self).remaining_goals().contains(state_key(x)) ==> !#[trigger] start_walk(
                            old(self).problem_view(),
                            s0,
                            acts,
                            x,
                        )
                    &&& !old(self).remaining_goals().is_empty() ==> final(self).open_view().len()
                        == 0
                },
            },
    {
        if self.remaining_goals_set.is_empty() {
            proof {
                assert(self.popped@.subrange(0, self.popped@.len() as int) =~= self.popped@);
            }
            return None;
        }
        proof {
            self.search_tree.lemma_sizes(Maze2DState { x: 0, y: 0 });
            assert(self.popped@.subrange(0, self.popped@.len() as int) =~= self.popped@);
        }
        let ghost base = self.popped@.len();
        loop
            invariant
                self.wf(),
                self.problem == old(self).problem,
                self.remaining_goals_set@ == old(self).remaining_goals_set@,
                !old(self).remaining_goals_set@.is_empty(),
                self.search_tree.work_left() >= 0,
                base == old(self).popped@.len(),
                base <= self.popped@.len(),
                self.popped@.subrange(0, base as int) == old(self).popped@,
                forall|i: int|
                    base <= i < self.popped@.len() - 1 ==> (#[trigger] self.popped@[i])
                        <= self.popped@[i + 1],
                self.popped@.len() > base ==> forall|n: int|
                    0 <= n < self.search_tree.nodes@.len() && !(
                    #[trigger] self.search_tree.nodes@[n]).is_closed ==> self.search_tree.nodes@[n].g
                        >= self.popped@.last(),
            decreases self.search_tree.work_left(),
        {
            proof {
                self.search_tree.lemma_sizes(Maze2DState { x: 0, y: 0 });
                lemma_problem_universe(&self.problem, Maze2DState { x: 0, y: 0 });
            }
            let ghost pre = self.search_tree;
            proof {
                pre.lemma_open_links();
                if pre.open@.len() > 0 {
                    pre.lemma_entry(0);
                }
            }
            let ni = match self.search_tree.pop_and_close() {
                Some(i) => i,
                None => {
                    proof {
                        assert(evolves(pre, self.search_tree, -1));
                        lemma_evolve(pre, self.search_tree, self.problem, -1, -1);
                        lemma_evolve_side(
                            pre,
                            self.search_tree,
                            self.problem,
                            -1,
                            self.remaining_goals_set@,
                            self.remaining_goals_set@,
                        );
                        assert forall|x: Maze2DState, s0: Maze2DState, acts: Seq<Maze2DAction>|
                            old(self).remaining_goals_set@.contains(state_key(x)) implies !#[trigger] start_walk(
                            self.problem,
                            s0,
                            acts,
                            x,
                        ) by {
                            lemma_unreachable(
                                self.search_tree,
                                self.problem,
                                self.remaining_goals_set@,
                                x,
                                s0,
                                acts,
                            );
                        }
                    }
                    return None;
                },
            };
            let ghost work = self.search_tree.work_left();
            let node = self.search_tree.nodes[ni];
            let state = node.state;
            let g = node.g;
            proof {
                let post = self.search_tree;
                let p = self.problem;
                assert(evolves(pre, post, ni as int));
                lemma_evolve(pre, post, p, -1, ni as int);
                lemma_evolve_side(
                    pre,
                    post,
                    p,
                    ni as int,
                    self.remaining_goals_set@,
                    self.remaining_goals_set@.remove(state_key(state)),
                );
                assert forall|x: Maze2DState, s0: Maze2DState, acts: Seq<Maze2DAction>|
                    self.remaining_goals_set@.contains(state_key(x)) && #[trigger] start_walk(
                    p,
                    s0,
                    acts,
                    x,
                ) implies g <= clamp_int(cost_to(acts, acts.len() as int)) by {
                    lemma_frontier(pre, p, s0, acts, acts.len() as int);
                    pre.lemma_lookup(x);
                    let u = choose|u: int|
                        0 <= u < pre.nodes@.len() && !(#[trigger] pre.nodes@[u]).is_closed
                            && pre.nodes@[u].g <= clamp_int(cost_to(acts, acts.len() as int));
                    let hu = pre.nodes@[u].heap_index as int;
                    assert(pre.open@[hu].rank.g == pre.nodes@[u].g);
                    assert(pre.open@[0].rank_key() <= pre.open@[hu].rank_key());
                }
                pre.lemma_lookup_node(ni as int);
                pre.lemma_entry(0);
                assert forall|s0: Maze2DState, acts: Seq<Maze2DAction>|
                    #[trigger] start_walk(p, s0, acts, state) implies g <= clamp_int(
                    cost_to(acts, acts.len() as int),
                ) by {
                    lemma_frontier(pre, p, s0, acts, acts.len() as int);
                    let u = choose|u: int|
                        0 <= u < pre.nodes@.len() && !(#[trigger] pre.nodes@[u]).is_closed
                            && pre.nodes@[u].g <= clamp_int(cost_to(acts, acts.len() as int));
                    let hu = pre.nodes@[u].heap_index as int;
                    assert(pre.open@[hu].rank.g == pre.nodes@[u].g);
                    assert(pre.open@[0].rank_key() <= pre.open@[hu].rank_key());
                }
                assert(closed_optimal(post, p));
            }
            let ghost old_log = self.popped@;
            proof {
                assert forall|n: int|
                    0 <= n < self.search_tree.nodes@.len() && !(
                    #[trigger] self.search_tree.nodes@[n]).is_closed implies self.search_tree.nodes@[n].g
                    >= g by {
                    assert(!pre.nodes@[n].is_closed);
                    let i = pre.nodes@[n].heap_index as int;
                    assert(pre.open@[0].rank_key() <= pre.open@[i].rank_key());
                }
                self.popped = Ghost(self.popped@.push(g));
                assert(self.popped@.subrange(0, base as int) =~= old_log.subrange(0, base as int));
            }
            let neigh = self.problem.space.neighbours(&state);
            let mut k: usize = 0;
            while k < neigh.len()
                invariant
                    self.search_tree.wf(),
                    self.problem.space.wf(),
                    problem_size_ok(&self.problem),
                    self.search_tree.starts@ == self.problem.starts@,
                    self.search_tree.universe@ == problem_universe(&self.problem),
                    closed_optimal(self.search_tree, self.problem),
                    closed_relaxed_except(self.search_tree, self.problem, ni as int),
                    starts_filed(self.search_tree, self.problem),
                    children_free(self.search_tree, self.problem),
                    closed_not_goal(
                        self.search_tree,
                        self.remaining_goals_set@.remove(state_key(state)),
                    ),
                    forall|x: Maze2DState, s0: Maze2DState, acts: Seq<Maze2DAction>|
                        self.remaining_goals_set@.contains(state_key(x)) && #[trigger] start_walk(
                            self.problem,
                            s0,
                            acts,
                            x,
                        ) ==> g <= clamp_int(cost_to(acts, acts.len() as int)),
                    forall|j: int|
                        0 <= j < k ==> relaxed(
                            self.search_tree,
                            self.problem,
                            ni as int,
                            #[trigger] neigh@[j].1,
                        ),
                    forall|j: int|
                        0 <= j < 8 ==> match spec_apply(state, #[trigger] action_order()[j]) {
                            Some(t) => grid_free(self.problem.space@, t) ==> exists|m: int|
                                0 <= m < neigh@.len() && (#[trigger] neigh@[m]).1 == action_order()[j],
                            None => true,
                        },
                    self.problem == old(self).problem,
                    self.remaining_goals_set@ == old(self).remaining_goals_set@,
                    self.search_tree.work_left() == work,
                    work >= 0,
                    k <= neigh@.len(),
                    ni < self.search_tree.nodes@.len(),
                    self.search_tree.nodes@[ni as int].is_closed,
                    self.search_tree.nodes@[ni as int].state == state,
                    self.search_tree.nodes@[ni as int].g == g,
                    base == old(self).popped@.len(),
                    base <= self.popped@.len(),
                    self.popped@.subrange(0, base as int) == old(self).popped@,
                    forall|i: int|
                        base <= i < self.popped@.len() - 1 ==> (#[trigger] self.popped@[i])
                            <= self.popped@[i + 1],
                    self.popped@.len() > base,
                    self.popped@.last() == g,
                    forall|n: int|
                        0 <= n < self.search_tree.nodes@.len() && !(
                        #[trigger] self.search_tree.nodes@[n]).is_closed ==> self.search_tree.nodes@[n].g
                            >= g,
                    forall|j: int|
                        0 <= j < neigh@.len() ==> {
                            &&& spec_apply(state, (#[trigger] neigh@[j]).1) == Some(neigh@[j].0)
                            &&& grid_free(self.problem.space@, neigh@[j].0)
                        },
                decreases neigh@.len() - k,
            {
                let (s, a) = neigh[k];
                let c = self.problem.space.cost(&s, &a);
                let new_g = saturating_add(g, c);
                let key = s.key();
                proof {
                    assert(spec_apply(state, a) == Some(s) && grid_free(self.problem.space@, s)) by {
                        assert(neigh@[k as int] == (s, a));
                    }
                    self.search_tree.lemma_lookup(s);
                    self.search_tree.lemma_sizes(s);
                    lemma_problem_universe(&self.problem, s);
                }
                let ghost t1 = self.search_tree;
                match fx_map_get(&self.search_tree.node_map, key) {
                    Some(m) => {
                        let mn = self.search_tree.nodes[m];
                        if !mn.is_closed && new_g < mn.g {
                            self.search_tree.improve(m, ni, a, new_g);
                        }
                    },
                    None => {
                        self.search_tree.push_new(s, Some((ni, a)), new_g, DijkstraRank::new(new_g));
                    },
                }
                proof {
                    let t2 = self.search_tree;
                    let p = self.problem;
                    assert(evolves(t1, t2, ni as int));
                    lemma_evolve(t1, t2, p, ni as int, ni as int);
                    assert forall|n: int|
                        0 <= n < t2.nodes@.len() && (#[trigger] t2.nodes@[n]).parent is Some implies (n
                            < t1.nodes@.len() && t1.nodes@[n].parent is Some) || grid_free(
                            p.space@,
                            t2.nodes@[n].state,
                        ) by {
                        if !(n < t1.nodes@.len() && t1.nodes@[n].parent == t2.nodes@[n].parent) {
                            assert(t2.nodes@[n].state == s);
                        }
                    }
                    lemma_evolve_side(
                        t1,
                        t2,
                        p,
                        ni as int,
                        self.remaining_goals_set@.remove(state_key(state)),
                        self.remaining_goals_set@.remove(state_key(state)),
                    );
                    assert forall|j: int| 0 <= j < k + 1 implies relaxed(
                        t2,
                        p,
                        ni as int,
                        #[trigger] neigh@[j].1,
                    ) by {
                        if j < k {
                            lemma_evolve_relaxed(t1, t2, p, ni as int, ni as int, neigh@[j].1);
                        } else {
                            assert(neigh@[j] == (s, a));
                            t2.lemma_lookup(s);
                        }
                    }
                }
                k = k + 1;
            }
            proof {
                let t = self.search_tree;
                let p = self.problem;
                assert forall|n: int, b: Maze2DAction|
                    0 <= n < t.nodes@.len() && t.nodes@[n].is_closed && n != -1 implies #[trigger] relaxed(
                    t,
                    p,
                    n,
                    b,
                ) by {
                    if n == ni {
                        lemma_action_in_order(b);
                        let kb = choose|kb: int| 0 <= kb < 8 && #[trigger] action_order()[kb] == b;
                        match spec_apply(state, b) {
                            Some(tt) => {
                                if grid_free(p.space@, tt) {
                                    let m = choose|m: int|
                                        0 <= m < neigh@.len() && (#[trigger] neigh@[m]).1
                                            == action_order()[kb];
                                    assert(relaxed(t, p, ni as int, neigh@[m].1));
                                }
                            },
                            None => {},
                        }
                    }
                }
            }
            let skey = state.key();
            proof {
                if !self.remaining_goals_set@.contains(skey) {
                    assert(self.remaining_goals_set@.remove(skey) =~= self.remaining_goals_set@);
                }
            }
            if fx_set_contains(&self.remaining_goals_set, skey) {
                fx_set_remove(&mut self.remaining_goals_set, skey);
                let p = self.search_tree.path(ni, &self.problem.space);
                proof {
                    assert(self.remaining_goals_set@ =~= old(self).remaining_goals_set@.remove(skey));
                    let _ = self.search_tree.nodes@[ni as int];
                }
                return Some(p);
            }
        }
    }
}

} // verus!
