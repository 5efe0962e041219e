//! The search forest, the open list and the state directory, kept mutually
//! consistent; and the paths read back from the forest.
use rustc_hash::FxHashMap;

use vstd::prelude::*;

use crate::derank::derank;
use crate::fx::fx_map_get;
use crate::fx::fx_map_insert;
use crate::derank::Ranked;
use crate::heap_primitives::heap_order;
use crate::heap_primitives::heap_order_except_down;
use crate::heap_primitives::heap_order_except_up;
use crate::heap_primitives::lemma_par8;
use crate::heap_primitives::lemma_root_is_min;
use crate::heap_primitives::lemma_same_members;
use crate::heap_primitives::lemma_swap_multiset;
use crate::heap_primitives::par8;
use crate::maze_2d::actions_cost;
use crate::maze_2d::lemma_state_key_injective;
use crate::maze_2d::spec_apply;
use crate::maze_2d::spec_cost;
use crate::maze_2d::spec_walk;
use crate::maze_2d::state_key;
use crate::maze_2d::free_walk;
use crate::maze_2d::grid_free;
use crate::maze_2d::walk_to;
use crate::maze_2d::Maze2DAction;
use crate::maze_2d::Maze2DSpace;
use crate::maze_2d::Maze2DState;
use crate::path::lemma_cost_step;
use crate::path::lemma_reverse_twice;
use crate::path::lemma_walk_step;
use crate::path::free_from;
use crate::path::lemma_free_from_walk;
use crate::path::path_follows;
use crate::path::Path;

verus! {

/// `a + b`, pinned to `u32::MAX`.
pub open spec fn sat_add(a: u32, b: u32) -> u32 {
    if a + b > u32::MAX {
        u32::MAX
    } else {
        (a + b) as u32
    }
}

/// `a + b`, pinned to `u32::MAX`.
pub fn saturating_add(a: u32, b: u32) -> (r: u32)
    ensures
        r == sat_add(a, b),
{
    if a <= u32::MAX - b {
        a + b
    } else {
        u32::MAX
    }
}

/// A rank that follows a node's best-known cost `g`.
pub trait SearchRank: Ranked + Copy {
    /// The rank is the one derived from cost `g`.
    spec fn agrees_with(&self, g: u32) -> bool;

    /// The part of the rank that does not follow the cost (ties are broken on it).
    spec fn tie(&self) -> int;

    /// Moves the rank to a smaller cost, keeping the tie-break part; it never gets worse.
    fn improve_g(&mut self, new_g: u32)
        requires
            exists|g: u32| old(self).agrees_with(g) && new_g <= g,
        ensures
            final(self).agrees_with(new_g),
            final(self).tie() == old(self).tie(),
            final(self).rank_key() <= old(self).rank_key(),
    ;
}

/// An entry of the open list: a rank and the node it stands for.
#[derive(Copy, Clone, Debug)]
pub struct HeapEntry<R> {
    pub rank: R,
    pub node_index: usize,
}

impl<R: Ranked> Ranked for HeapEntry<R> {
    open spec fn rank_key(&self) -> int {
        self.rank.rank_key()
    }

    fn rank_le(&self, other: &Self) -> (r: bool) {
        self.rank.rank_le(&other.rank)
    }
}

/// A node of the search forest.
#[derive(Copy, Clone, Debug)]
pub struct SearchTreeNode {
    pub state: Maze2DState,
    /// Best known cost from a start.
    pub g: u32,
    /// The node this one was reached from, and the move that led here.
    pub parent: Option<(usize, Maze2DAction)>,
    /// Where the node's entry stands in the open list, while it is open.
    pub heap_index: usize,
    /// Set once the node is expanded (or given up); never cleared.
    pub is_closed: bool,
}

/// The search forest with its open list and directory.
pub struct SearchTree<R> {
    pub nodes: Vec<SearchTreeNode>,
    pub open: Vec<HeapEntry<R>>,
    pub node_map: FxHashMap<u64, usize>,
    /// Length of each node's parent chain.
    pub depth: Ghost<Seq<nat>>,
    /// The start states.
    pub starts: Ghost<Seq<Maze2DState>>,
    /// Keys of every state that may ever be filed.
    pub universe: Ghost<Set<u64>>,
    /// Keys of the closed nodes' states.
    pub closed_keys: Ghost<Set<u64>>,
}

impl<R: SearchRank> SearchTree<R> {
    /// The directory files each node under its state's key, and nothing else.
    #[verifier::opaque]
    pub open spec fn directory_ok(&self) -> bool {
        &&& forall|k: u64| #[trigger]
            self.node_map@.contains_key(k) ==> self.node_map@[k] < self.nodes@.len()
                && state_key(self.nodes@[self.node_map@[k] as int].state) == k
        &&& forall|n: int|
            0 <= n < self.nodes@.len() ==> self.node_map@.contains_key(
                state_key(#[trigger] self.nodes@[n].state),
            ) && self.node_map@[state_key(self.nodes@[n].state)] == n
        &&& self.node_map@.dom().len() == self.nodes@.len()
    }

    /// Each open-list entry and its node point at each other; the entry's
    /// rank is derived from the node's cost; a node is open iff it has an entry.
    #[verifier::opaque]
    pub open spec fn links_ok(&self) -> bool {
        &&& forall|i: int|
            0 <= i < self.open@.len() ==> {
                let n = (#[trigger] self.open@[i]).node_index as int;
                &&& 0 <= n < self.nodes@.len()
                &&& self.nodes@[n].heap_index == i
                &&& !self.nodes@[n].is_closed
                &&& self.open@[i].rank.agrees_with(self.nodes@[n].g)
            }
        &&& forall|n: int|
            0 <= n < self.nodes@.len() && !(#[trigger] self.nodes@[n]).is_closed ==> {
                &&& self.nodes@[n].heap_index < self.open@.len()
                &&& self.open@[self.nodes@[n].heap_index as int].node_index == n
            }
    }

    /// Parent edges are moves of the space from closed nodes, costs add up
    /// along them, chains get shorter towards the roots, and roots are starts
    /// with cost zero.
    #[verifier::opaque]
    pub open spec fn forest_ok(&self) -> bool {
        &&& self.depth@.len() == self.nodes@.len()
        &&& forall|n: int|
            0 <= n < self.nodes@.len() ==> match (#[trigger] self.nodes@[n]).parent {
                Some((p, a)) => {
                    &&& 0 <= p < self.nodes@.len()
                    &&& self.nodes@[p as int].is_closed
                    &&& spec_apply(self.nodes@[p as int].state, a) == Some(self.nodes@[n].state)
                    &&& self.nodes@[n].g == sat_add(self.nodes@[p as int].g, spec_cost(a))
                    &&& self.depth@[p as int] < self.depth@[n]
                },
                None => self.starts@.contains(self.nodes@[n].state) && self.nodes@[n].g == 0,
            }
    }

    /// Every filed state is in the universe, and a node is closed iff its
    /// state's key is among the closed keys.
    #[verifier::opaque]
    pub open spec fn keys_ok(&self) -> bool {
        &&& self.universe@.finite()
        &&& self.closed_keys@.subset_of(self.universe@)
        &&& forall|n: int|
            0 <= n < self.nodes@.len() ==> self.universe@.contains(
                state_key(#[trigger] self.nodes@[n].state),
            ) && (self.nodes@[n].is_closed <==> self.closed_keys@.contains(
                state_key(self.nodes@[n].state),
            ))
        &&& forall|k: u64| #[trigger]
            self.closed_keys@.contains(k) ==> self.node_map@.contains_key(k)
        &&& self.node_map@.dom().subset_of(self.universe@)
    }

    /// How many states may still be closed.
    pub open spec fn work_left(&self) -> int {
        self.universe@.len() - self.closed_keys@.len()
    }

    /// Everything but heap order.
    pub open spec fn wf_unordered(&self) -> bool {
        &&& self.open@.len() <= self.nodes@.len()
        &&& self.open@.len() + self.closed_keys@.len() == self.nodes@.len()
        &&& self.keys_ok()
        &&& self.directory_ok()
        &&& self.links_ok()
        &&& self.forest_ok()
    }

    pub open spec fn wf(&self) -> bool {
        &&& self.wf_unordered()
        &&& heap_order(self.open@, self.open@.len() as int)
    }

    /// The states of the nodes, by index.
    pub open spec fn states(&self) -> Seq<Maze2DState> {
        self.nodes@.map_values(|n: SearchTreeNode| n.state)
    }

    /// The node filed under a state, if any.
    pub open spec fn lookup(&self, s: Maze2DState) -> Option<int> {
        if self.node_map@.contains_key(state_key(s)) {
            Some(self.node_map@[state_key(s)] as int)
        } else {
            None
        }
    }

    /// Nodes keep their states and closed nodes keep everything.
    pub open spec fn grows_from(&self, old: &Self) -> bool {
        &&& old.nodes@.len() <= self.nodes@.len()
        &&& self.starts@ == old.starts@
        &&& self.universe@ == old.universe@
        &&& old.closed_keys@.subset_of(self.closed_keys@)
        &&& forall|n: int|
            0 <= n < old.nodes@.len() ==> (#[trigger] self.nodes@[n]).state == old.nodes@[n].state
        &&& forall|n: int|
            0 <= n < old.nodes@.len() && old.nodes@[n].is_closed ==> {
                &&& (#[trigger] self.nodes@[n]).is_closed
                &&& self.nodes@[n].g == old.nodes@[n].g
                &&& self.nodes@[n].parent == old.nodes@[n].parent
            }
    }

    /// An empty forest for the given starts.
    pub fn new(
        Ghost(starts): Ghost<Seq<Maze2DState>>,
        Ghost(universe): Ghost<Set<u64>>,
    ) -> (r: Self)
        requires
            universe.finite(),
        ensures
            r.universe@ == universe,
            r.closed_keys@ == Set::<u64>::empty(),
            r.wf(),
            r.nodes@.len() == 0,
            r.open@.len() == 0,
            r.starts@ == starts,
    {
        reveal(SearchTree::directory_ok);
        reveal(SearchTree::links_ok);
        reveal(SearchTree::forest_ok);
        reveal(SearchTree::keys_ok);
        let r = SearchTree {
            nodes: Vec::new(),
            open: Vec::with_capacity(2048),
            node_map: FxHashMap::default(),
            depth: Ghost(Seq::empty()),
            starts: Ghost(starts),
            universe: Ghost(universe),
            closed_keys: Ghost(Set::empty()),
        };
        reveal(SearchTree::keys_ok);
        assert(r.node_map@.dom() =~= Set::empty());
        r
    }

    /// Swaps two open-list entries and keeps both nodes pointing at them.
    fn swap(&mut self, l: usize, r: usize)
        requires
            old(self).links_ok(),
            l < old(self).open@.len(),
            r < old(self).open@.len(),
            l != r,
        ensures
            final(self).links_ok(),
            final(self).open@ == old(self).open@.update(l as int, old(self).open@[r as int]).update(
                r as int,
                old(self).open@[l as int],
            ),
            final(self).open@.to_multiset() == old(self).open@.to_multiset(),
            final(self).nodes@.len() == old(self).nodes@.len(),
            forall|n: int|
                0 <= n < old(self).nodes@.len() ==> {
                    &&& (#[trigger] final(self).nodes@[n]).state == old(self).nodes@[n].state
                    &&& final(self).nodes@[n].g == old(self).nodes@[n].g
                    &&& final(self).nodes@[n].parent == old(self).nodes@[n].parent
                    &&& final(self).nodes@[n].is_closed == old(self).nodes@[n].is_closed
                },
            final(self).node_map@ == old(self).node_map@,
            final(self).depth@ == old(self).depth@,
            final(self).starts@ == old(self).starts@,
            final(self).universe@ == old(self).universe@,
            final(self).closed_keys@ == old(self).closed_keys@,
    {
        reveal(SearchTree::links_ok);
        let el = self.open[l];
        let er = self.open[r];
        self.open.set(l, er);
        self.open.set(r, el);
        let mut nl = self.nodes[er.node_index];
        nl.heap_index = l;
        self.nodes.set(er.node_index, nl);
        let mut nr = self.nodes[el.node_index];
        nr.heap_index = r;
        self.nodes.set(el.node_index, nr);
        proof {
            lemma_swap_multiset(old(self).open@, l as int, r as int);
            assert(self.open@ =~= old(self).open@.update(l as int, old(self).open@[r as int]).update(
                r as int,
                old(self).open@[l as int],
            ));
        }
    }

    /// Raises the entry at `pos` until its parent is no worse.
    fn sift_up(&mut self, pos: usize, bound: usize) -> (r: usize)
        requires
            old(self).links_ok(),
            pos < bound <= old(self).open@.len(),
            heap_order_except_up(old(self).open@, bound as int, pos as int),
        ensures
            final(self).links_ok(),
            heap_order(final(self).open@, bound as int),
            r < bound,
            final(self).open@[r as int] == old(self).open@[pos as int],
            final(self).open@.len() == old(self).open@.len(),
            final(self).open@.to_multiset() == old(self).open@.to_multiset(),
            final(self).nodes@.len() == old(self).nodes@.len(),
            forall|n: int|
                0 <= n < old(self).nodes@.len() ==> {
                    &&& (#[trigger] final(self).nodes@[n]).state == old(self).nodes@[n].state
                    &&& final(self).nodes@[n].g == old(self).nodes@[n].g
                    &&& final(self).nodes@[n].parent == old(self).nodes@[n].parent
                    &&& final(self).nodes@[n].is_closed == old(self).nodes@[n].is_closed
                },
            final(self).node_map@ == old(self).node_map@,
            final(self).depth@ == old(self).depth@,
            final(self).starts@ == old(self).starts@,
            final(self).universe@ == old(self).universe@,
            final(self).closed_keys@ == old(self).closed_keys@,
    {
        let ghost n0 = self.nodes@;
        let ghost o0 = self.open@;
        let n = bound;
        let mut p = pos;
        while p > 0
            invariant
                self.links_ok(),
                p < n,
                n == bound,
                n <= self.open@.len(),
                self.open@.len() == o0.len(),
                heap_order_except_up(self.open@, n as int, p as int),
                self.open@[p as int] == o0[pos as int],
                self.open@.to_multiset() == o0.to_multiset(),
                self.nodes@.len() == n0.len(),
                forall|k: int|
                    0 <= k < n0.len() ==> {
                        &&& (#[trigger] self.nodes@[k]).state == n0[k].state
                        &&& self.nodes@[k].g == n0[k].g
                        &&& self.nodes@[k].parent == n0[k].parent
                        &&& self.nodes@[k].is_closed == n0[k].is_closed
                    },
                self.node_map@ == old(self).node_map@,
                self.depth@ == old(self).depth@,
                self.starts@ == old(self).starts@,
                self.universe@ == old(self).universe@,
                self.closed_keys@ == old(self).closed_keys@,
                o0 == old(self).open@,
                n0 == old(self).nodes@,
            decreases p,
        {
            let q = (p - 1) / 8;
            proof {
                lemma_par8(q as int, p as int);
            }
            if self.open[p].rank_le(&self.open[q]) && !self.open[q].rank_le(&self.open[p]) {
                let ghost s = self.open@;
                self.swap(q, p);
                proof {
                    let s2 = self.open@;
                    assert(s2 =~= s.update(q as int, s[p as int]).update(p as int, s[q as int]));
                    assert forall|i: int| 0 < i < n && i != q implies s2[#[trigger] par8(i)].rank_key()
                        <= s2[i].rank_key() by {
                        lemma_par8(par8(i), i);
                        lemma_par8(q as int, i);
                        lemma_par8(p as int, i);
                        if q > 0 {
                            lemma_par8(par8(q as int), q as int);
                        }
                    }
                    assert forall|c: int|
                        0 < c < n && #[trigger] par8(c) == q && q > 0 implies s2[par8(q as int)].rank_key() <= s2[c].rank_key() by {
                        lemma_par8(par8(q as int), q as int);
                    }
                }
                p = q;
            } else {
                proof {
                    let s = self.open@;
                    assert forall|i: int| 0 < i < n implies s[#[trigger] par8(i)].rank_key() <= s[i].rank_key() by {
                        lemma_par8(par8(i), i);
                    }
                }
                return p;
            }
        }
        p
    }

    /// Lowers the entry at `pos` until no child is better.
    fn sift_down(&mut self, pos: usize) -> (r: usize)
        requires
            old(self).links_ok(),
            pos < old(self).open@.len(),
            old(self).open@.len() < usize::MAX / 16,
            heap_order_except_down(old(self).open@, old(self).open@.len() as int, pos as int),
        ensures
            final(self).links_ok(),
            heap_order(final(self).open@, final(self).open@.len() as int),
            final(self).open@.len() == old(self).open@.len(),
            final(self).open@.to_multiset() == old(self).open@.to_multiset(),
            pos <= r < final(self).open@.len(),
            final(self).open@[r as int] == old(self).open@[pos as int],
            final(self).nodes@.len() == old(self).nodes@.len(),
            forall|n: int|
                0 <= n < old(self).nodes@.len() ==> {
                    &&& (#[trigger] final(self).nodes@[n]).state == old(self).nodes@[n].state
                    &&& final(self).nodes@[n].g == old(self).nodes@[n].g
                    &&& final(self).nodes@[n].parent == old(self).nodes@[n].parent
                    &&& final(self).nodes@[n].is_closed == old(self).nodes@[n].is_closed
                },
            final(self).node_map@ == old(self).node_map@,
            final(self).depth@ == old(self).depth@,
            final(self).starts@ == old(self).starts@,
            final(self).universe@ == old(self).universe@,
            final(self).closed_keys@ == old(self).closed_keys@,
    {
        let ghost n0 = self.nodes@;
        let ghost o0 = self.open@;
        let n = self.open.len();
        let mut p = pos;
        loop
            invariant
                self.links_ok(),
                pos <= p < n,
                n == self.open@.len(),
                n < usize::MAX / 16,
                heap_order_except_down(self.open@, n as int, p as int),
                self.open@.to_multiset() == o0.to_multiset(),
                self.open@[p as int] == o0[pos as int],
                self.nodes@.len() == n0.len(),
                forall|k: int|
                    0 <= k < n0.len() ==> {
                        &&& (#[trigger] self.nodes@[k]).state == n0[k].state
                        &&& self.nodes@[k].g == n0[k].g
                        &&& self.nodes@[k].parent == n0[k].parent
                        &&& self.nodes@[k].is_closed == n0[k].is_closed
                    },
                self.node_map@ == old(self).node_map@,
                self.depth@ == old(self).depth@,
                self.starts@ == old(self).starts@,
                self.universe@ == old(self).universe@,
                self.closed_keys@ == old(self).closed_keys@,
                o0 == old(self).open@,
                n0 == old(self).nodes@,
                n == old(self).open@.len(),
            decreases n - p,
        {
            let first = 8 * p + 1;
            if first >= n {
                proof {
                    let s = self.open@;
                    assert forall|i: int| 0 < i < n implies s[#[trigger] par8(i)].rank_key() <= s[i].rank_key() by {
                        lemma_par8(p as int, i);
                    }
                }
                return p;
            }
            let end = if first + 8 < n {
                first + 8
            } else {
                n
            };
            let kids = vstd::slice::slice_subrange(self.open.as_slice(), first, end);
            let off = derank(kids);
            let c = first + off;
            proof {
                let s = self.open@;
                assert forall|j: int| first <= j < end implies s[c as int].rank_key() <= (
                #[trigger] s[j]).rank_key() by {
                    assert(kids@[j - first] == s[j]);
                    assert(kids@[off as int] == s[c as int]);
                }
                lemma_par8(p as int, c as int);
            }
            if self.open[p].rank_le(&self.open[c]) {
                proof {
                    let s = self.open@;
                    assert forall|i: int| 0 < i < n implies s[#[trigger] par8(i)].rank_key() <= s[i].rank_key() by {
                        lemma_par8(p as int, i);
                    }
                }
                return p;
            }
            let ghost s = self.open@;
            self.swap(p, c);
            proof {
                let s2 = self.open@;
                assert(s2 =~= s.update(p as int, s[c as int]).update(c as int, s[p as int]));
                assert forall|i: int| 0 < i < n && par8(i) != c implies s2[#[trigger] par8(i)].rank_key()
                    <= s2[i].rank_key() by {
                    lemma_par8(p as int, i);
                    lemma_par8(c as int, i);
                    lemma_par8(par8(i), i);
                    if p > 0 {
                        lemma_par8(par8(p as int), p as int);
                    }
                }
                assert forall|k: int| 0 < k < n && #[trigger] par8(k) == c implies s2[par8(c as int)].rank_key() <= s2[k].rank_key() by {
                    lemma_par8(c as int, k);
                }
            }
            p = c;
        }
    }

    /// Files a new open node for a state that has none.
    #[verifier::rlimit(100)]
    pub fn push_new(
        &mut self,
        s: Maze2DState,
        parent: Option<(usize, Maze2DAction)>,
        g: u32,
        rank: R,
    ) -> (r: usize)
        requires
            old(self).wf(),
            old(self).lookup(s) is None,
            old(self).universe@.contains(state_key(s)),
            rank.agrees_with(g),
            old(self).open@.len() < usize::MAX / 16,
            old(self).nodes@.len() < usize::MAX,
            match parent {
                Some((p, a)) => {
                    &&& p < old(self).nodes@.len()
                    &&& old(self).nodes@[p as int].is_closed
                    &&& spec_apply(old(self).nodes@[p as int].state, a) == Some(s)
                    &&& g == sat_add(old(self).nodes@[p as int].g, spec_cost(a))
                },
                None => old(self).starts@.contains(s) && g == 0,
            },
        ensures
            final(self).wf(),
            r == old(self).nodes@.len(),
            final(self).nodes@.len() == old(self).nodes@.len() + 1,
            final(self).nodes@[r as int].state == s,
            final(self).nodes@[r as int].g == g,
            final(self).nodes@[r as int].parent == parent,
            !final(self).nodes@[r as int].is_closed,
            final(self).open@.len() == old(self).open@.len() + 1,
            final(self).open@.to_multiset() == old(self).open@.to_multiset().insert(
                HeapEntry { rank, node_index: r },
            ),
            final(self).lookup(s) == Some(r as int),
            final(self).grows_from(old(self)),
            final(self).closed_keys@ == old(self).closed_keys@,
            final(self).universe@ == old(self).universe@,
            final(self).starts@ == old(self).starts@,
            forall|n: int|
                0 <= n < old(self).nodes@.len() ==> (#[trigger] final(self).nodes@[n]).g
                    == old(self).nodes@[n].g && final(self).nodes@[n].parent
                    == old(self).nodes@[n].parent && final(self).nodes@[n].is_closed
                    == old(self).nodes@[n].is_closed,
            forall|t: Maze2DState| t != s ==> #[trigger] final(self).lookup(t) == old(self).lookup(t),
    {
        reveal(SearchTree::directory_ok);
        reveal(SearchTree::links_ok);
        reveal(SearchTree::forest_ok);
        reveal(SearchTree::keys_ok);
        let heap_index = self.open.len();
        let node_index = self.nodes.len();
        let ghost d = match parent {
            Some((p, _)) => self.depth@[p as int] + 1,
            None => 0,
        };
        self.nodes.push(SearchTreeNode { state: s, g, parent, heap_index, is_closed: false });
        self.depth = Ghost(self.depth@.push(d));
        let key = s.key();
        fx_map_insert(&mut self.node_map, key, node_index);
        self.open.push(HeapEntry { rank, node_index });
        proof {
            old(self).open@.to_multiset_ensures();
        }
        proof {
            assert(!old(self).node_map@.dom().contains(key));
            assert(self.node_map@.dom() =~= old(self).node_map@.dom().insert(key));
            assert forall|k: u64| #[trigger]
                self.node_map@.contains_key(k) implies self.node_map@[k] < self.nodes@.len()
                && state_key(self.nodes@[self.node_map@[k] as int].state) == k by {}
            assert forall|m: int| 0 <= m < self.nodes@.len() implies self.node_map@.contains_key(
                state_key(#[trigger] self.nodes@[m].state),
            ) && self.node_map@[state_key(self.nodes@[m].state)] == m by {
                if m < node_index {
                    if state_key(self.nodes@[m].state) == key {
                        assert(old(self).node_map@.contains_key(key));
                    }
                }
            }
            let o = self.open@;
            let hn = heap_index as int;
            assert forall|i: int| 0 < i < o.len() && i != hn implies o[#[trigger] par8(i)].rank_key() <= o[i].rank_key() by {
                lemma_par8(par8(i), i);
            }
            assert forall|c: int|
                0 < c < o.len() && #[trigger] par8(c) == hn && hn > 0 implies o[par8(hn)].rank_key() <= o[c].rank_key() by {
                lemma_par8(hn, c);
            }
        }
        self.sift_up(heap_index, heap_index + 1);
        proof {
            assert forall|t: Maze2DState| t != s implies #[trigger] self.lookup(t) == old(
                self,
            ).lookup(t) by {
                if state_key(t) == key {
                    lemma_state_key_injective(t, s);
                }
            }
        }
        node_index
    }

    /// Takes the best open entry out of the open list and closes its node.
    #[verifier::rlimit(100)]
    pub fn pop_and_close(&mut self) -> (r: Option<usize>)
        requires
            old(self).wf(),
            old(self).open@.len() < usize::MAX / 16,
        ensures
            final(self).wf(),
            final(self).grows_from(old(self)),
            final(self).nodes@.len() == old(self).nodes@.len(),
            final(self).node_map@ == old(self).node_map@,
            final(self).depth@ == old(self).depth@,
            r is None <==> old(self).open@.len() == 0,
            r is None ==> final(self).nodes@ == old(self).nodes@,
            r is None ==> final(self).closed_keys@ == old(self).closed_keys@,
            r is None ==> final(self).open@ == old(self).open@,
            final(self).work_left() >= 0,
            match r {
                Some(n) => {
                    &&& n < old(self).nodes@.len()
                    &&& !old(self).nodes@[n as int].is_closed
                    &&& final(self).nodes@[n as int].is_closed
                    &&& final(self).open@.len() == old(self).open@.len() - 1
                    &&& final(self).closed_keys@ == old(self).closed_keys@.insert(
                        state_key(old(self).nodes@[n as int].state),
                    )
                    &&& final(self).work_left() == old(self).work_left() - 1
                    &&& old(self).open@[0].node_index == n
                    &&& final(self).open@.to_multiset() == old(self).open@.to_multiset().remove(
                        old(self).open@[0],
                    )
                    &&& forall|i: int|
                        0 <= i < old(self).open@.len() ==> old(self).open@[0].rank_key() <= (
                        #[trigger] old(self).open@[i]).rank_key()
                    &&& forall|m: int|
                        0 <= m < old(self).nodes@.len() && m != n ==> (
                        #[trigger] final(self).nodes@[m]).is_closed
                            == old(self).nodes@[m].is_closed
                    &&& forall|m: int|
                        0 <= m < old(self).nodes@.len() ==> (#[trigger] final(self).nodes@[m]).g
                            == old(self).nodes@[m].g && final(self).nodes@[m].parent
                            == old(self).nodes@[m].parent
                },
                None => true,
            },
    {
        reveal(SearchTree::links_ok);
        let len = self.open.len();
        if len == 0 {
            proof {
                reveal(SearchTree::keys_ok);
                vstd::set_lib::lemma_len_subset(self.closed_keys@, self.universe@);
            }
            return None;
        }
        proof {
            assert forall|i: int| 0 <= i < len implies self.open@[0].rank_key() <= (
            #[trigger] self.open@[i]).rank_key() by {
                lemma_root_is_min(self.open@, len as int, i);
            }
        }
        let ghost o0 = self.open@;
        let last = len - 1;
        if last > 0 {
            self.swap(0, last);
        }
        let ghost s1 = self.open@;
        let top = self.open.pop().unwrap();
        let n = top.node_index;
        let mut node = self.nodes[n];
        node.is_closed = true;
        self.nodes.set(n, node);
        let ghost k = state_key(node.state);
        self.closed_keys = Ghost(self.closed_keys@.insert(k));
        proof {
            Self::lemma_close_keys(old(self), self, n as int);
            Self::lemma_dir_frame(old(self), self);
            Self::lemma_close_forest(old(self), self, n as int);
            assert(s1 =~= self.open@.push(top));
            self.open@.to_multiset_ensures();
            assert(top == o0[0]);
            assert(s1.to_multiset() == o0.to_multiset());
            assert(self.open@.to_multiset() =~= o0.to_multiset().remove(o0[0]));
            vstd::seq::axiom_seq_push_len(self.open@, top);
            if last > 0 {
                assert(s1 =~= o0.update(0, o0[last as int]).update(last as int, o0[0]));
            }
            let o = self.open@;
            assert forall|i: int| 0 < i < o.len() && par8(i) != 0 implies o[#[trigger] par8(i)].rank_key() <= o[i].rank_key() by {
                lemma_par8(par8(i), i);
                assert(o0[par8(i)].rank_key() <= o0[i].rank_key());
            }
            assert forall|m: int|
                0 <= m < self.nodes@.len() && !(#[trigger] self.nodes@[m]).is_closed implies {
                &&& self.nodes@[m].heap_index < self.open@.len()
                &&& self.open@[self.nodes@[m].heap_index as int].node_index == m
            } by {
                let h = s1[self.nodes@[m].heap_index as int];
                if self.nodes@[m].heap_index == last {
                    assert(s1[last as int].node_index == n);
                }
            }
        }
        let ghost mid = *self;
        if self.open.len() > 0 {
            self.sift_down(0);
            proof {
                Self::lemma_dir_keys_frame(&mid, self);
                Self::lemma_forest_frame(&mid, self);
            }
        } else {
            proof {
                assert(heap_order(self.open@, 0));
            }
        }
        Some(n)
    }

    /// Gives an open node a cheaper path through a closed node.
    #[verifier::rlimit(100)]
    pub fn improve(&mut self, m: usize, parent: usize, a: Maze2DAction, new_g: u32)
        requires
            old(self).wf(),
            m < old(self).nodes@.len(),
            !old(self).nodes@[m as int].is_closed,
            new_g < old(self).nodes@[m as int].g,
            parent < old(self).nodes@.len(),
            old(self).nodes@[parent as int].is_closed,
            spec_apply(old(self).nodes@[parent as int].state, a) == Some(
                old(self).nodes@[m as int].state,
            ),
            new_g == sat_add(old(self).nodes@[parent as int].g, spec_cost(a)),
        ensures
            final(self).wf(),
            final(self).grows_from(old(self)),
            final(self).closed_keys@ == old(self).closed_keys@,
            final(self).universe@ == old(self).universe@,
            final(self).starts@ == old(self).starts@,
            final(self).nodes@.len() == old(self).nodes@.len(),
            final(self).open@.len() == old(self).open@.len(),
            final(self).node_map@ == old(self).node_map@,
            final(self).nodes@[m as int].g == new_g,
            final(self).nodes@[m as int].parent == Some((parent, a)),
            forall|i: int|
                0 <= i < final(self).open@.len() ==> ((#[trigger] final(self).open@[i]).node_index
                    == m && final(self).open@[i].rank.tie() == old(self).open@[old(
                    self,
                ).nodes@[m as int].heap_index as int].rank.tie()) || old(self).open@.contains(
                    final(self).open@[i],
                ),
            forall|k: int|
                0 <= k < old(self).nodes@.len() ==> (#[trigger] final(self).nodes@[k]).is_closed
                    == old(self).nodes@[k].is_closed,
            forall|k: int|
                0 <= k < old(self).nodes@.len() && k != m ==> (#[trigger] final(self).nodes@[k]).g
                    == old(self).nodes@[k].g && final(self).nodes@[k].parent
                    == old(self).nodes@[k].parent,
    {
        reveal(SearchTree::links_ok);
        reveal(SearchTree::forest_ok);
        let ghost before = *self;
        let mut node = self.nodes[m];
        let pos = node.heap_index;
        let ghost old_g = node.g;
        node.g = new_g;
        node.parent = Some((parent, a));
        self.nodes.set(m, node);
        self.depth = Ghost(self.depth@.update(m as int, self.depth@[parent as int] + 1));
        let mut entry = self.open[pos];
        proof {
            assert(entry.rank.agrees_with(old_g));
        }
        entry.rank.improve_g(new_g);
        let ghost o0 = self.open@;
        self.open.set(pos, entry);
        proof {
            let o = self.open@;
            let hp = pos as int;
            assert forall|i: int| 0 < i < o.len() && i != hp implies o[#[trigger] par8(i)].rank_key() <= o[i].rank_key() by {
                lemma_par8(par8(i), i);
                assert(o0[par8(i)].rank_key() <= o0[i].rank_key());
            }
            assert forall|c: int|
                0 < c < o.len() && #[trigger] par8(c) == hp && hp > 0 implies o[par8(hp)].rank_key() <= o[c].rank_key() by {
                lemma_par8(hp, c);
                lemma_par8(par8(hp), hp);
                assert(o0[par8(hp)].rank_key() <= o0[hp].rank_key());
                assert(o0[hp].rank_key() <= o0[c].rank_key());
            }
            assert forall|k: int|
                0 <= k < self.nodes@.len() implies match (#[trigger] self.nodes@[k]).parent {
                Some((p, b)) => {
                    &&& 0 <= p < self.nodes@.len()
                    &&& self.nodes@[p as int].is_closed
                    &&& spec_apply(self.nodes@[p as int].state, b) == Some(self.nodes@[k].state)
                    &&& self.nodes@[k].g == sat_add(self.nodes@[p as int].g, spec_cost(b))
                    &&& self.depth@[p as int] < self.depth@[k]
                },
                None => self.starts@.contains(self.nodes@[k].state) && self.nodes@[k].g == 0,
            } by {
                if k != m {
                    assert(old(self).nodes@[k] == self.nodes@[k]);
                }
            }
            Self::lemma_dir_keys_frame(&before, self);
        }
        let ghost mid = *self;
        self.sift_up(pos, self.open.len());
        proof {
            lemma_same_members(mid.open@, self.open@);
            assert forall|i: int| 0 <= i < self.open@.len() implies ((#[trigger] self.open@[i]).node_index
                == m && self.open@[i].rank.tie() == old(self).open@[old(
                self,
            ).nodes@[m as int].heap_index as int].rank.tie()) || old(self).open@.contains(self.open@[i]) by {
                let k = choose|k: int| 0 <= k < mid.open@.len() && mid.open@[k] == self.open@[i];
                if k != pos {
                    assert(old(self).open@[k] == self.open@[i]);
                }
            }
        }
        proof {
            Self::lemma_dir_keys_frame(&mid, self);
            Self::lemma_forest_frame(&mid, self);
        }
    }

    /// The open list is no longer than the forest, which is no larger than the universe;
    /// and a state not yet filed leaves room for one more node.
    pub proof fn lemma_sizes(&self, s: Maze2DState)
        requires
            self.wf(),
        ensures
            self.open@.len() <= self.nodes@.len() <= self.universe@.len(),
            self.work_left() >= 0,
            self.lookup(s) is None && self.universe@.contains(state_key(s)) ==> self.nodes@.len()
                < self.universe@.len(),
    {
        reveal(SearchTree::directory_ok);
        reveal(SearchTree::keys_ok);
        vstd::set_lib::lemma_len_subset(self.node_map@.dom(), self.universe@);
        vstd::set_lib::lemma_len_subset(self.closed_keys@, self.universe@);
        if self.lookup(s) is None && self.universe@.contains(state_key(s)) {
            vstd::set_lib::lemma_len_subset(
                self.node_map@.dom().insert(state_key(s)),
                self.universe@,
            );
        }
    }

    /// Whether `s` has a closed node.
    pub fn is_closed(&self, s: &Maze2DState) -> (r: bool)
        requires
            self.wf(),
        ensures
            r == (self.lookup(*s) is Some && self.nodes@[self.lookup(*s)->0].is_closed),
    {
        proof {
            self.lemma_lookup(*s);
        }
        match fx_map_get(&self.node_map, s.key()) {
            Some(n) => self.nodes[n].is_closed,
            None => false,
        }
    }

    /// A filed state's node holds that state.
    pub proof fn lemma_lookup(&self, s: Maze2DState)
        requires
            self.wf(),
        ensures
            match self.lookup(s) {
                Some(m) => 0 <= m < self.nodes@.len() && self.nodes@[m].state == s,
                None => true,
            },
    {
        reveal(SearchTree::directory_ok);
        if self.lookup(s) is Some {
            let m = self.node_map@[state_key(s)] as int;
            lemma_state_key_injective(self.nodes@[m].state, s);
        }
    }

    /// Each node is filed under its own state.
    pub proof fn lemma_lookup_node(&self, n: int)
        requires
            self.wf(),
            0 <= n < self.nodes@.len(),
        ensures
            self.lookup(self.nodes@[n].state) == Some(n),
    {
        reveal(SearchTree::directory_ok);
        let _ = self.nodes@[n];
    }

    proof fn lemma_dir_frame(a: &Self, b: &Self)
        requires
            a.directory_ok(),
            b.node_map@ == a.node_map@,
            b.nodes@.len() == a.nodes@.len(),
            forall|n: int|
                0 <= n < a.nodes@.len() ==> (#[trigger] b.nodes@[n]).state == a.nodes@[n].state,
        ensures
            b.directory_ok(),
    {
        reveal(SearchTree::directory_ok);
        assert forall|n: int|
            0 <= n < b.nodes@.len() implies b.node_map@.contains_key(
            state_key(#[trigger] b.nodes@[n].state),
        ) && b.node_map@[state_key(b.nodes@[n].state)] == n by {
            assert(a.nodes@[n].state == b.nodes@[n].state);
        }
        assert forall|k: u64| #[trigger]
            b.node_map@.contains_key(k) implies b.node_map@[k] < b.nodes@.len() && state_key(
            b.nodes@[b.node_map@[k] as int].state,
        ) == k by {
            let n = b.node_map@[k] as int;
            assert(a.nodes@[n].state == b.nodes@[n].state);
        }
    }

    /// Closing node `n` and recording its key keeps the key bookkeeping.
    proof fn lemma_close_keys(a: &Self, b: &Self, n: int)
        requires
            a.directory_ok(),
            a.keys_ok(),
            0 <= n < a.nodes@.len(),
            !a.nodes@[n].is_closed,
            b.node_map@ == a.node_map@,
            b.universe@ == a.universe@,
            b.closed_keys@ == a.closed_keys@.insert(state_key(a.nodes@[n].state)),
            b.nodes@.len() == a.nodes@.len(),
            b.nodes@[n].is_closed,
            forall|m: int|
                0 <= m < a.nodes@.len() ==> (#[trigger] b.nodes@[m]).state == a.nodes@[m].state,
            forall|m: int|
                0 <= m < a.nodes@.len() && m != n ==> (#[trigger] b.nodes@[m]).is_closed
                    == a.nodes@[m].is_closed,
        ensures
            b.keys_ok(),
            !a.closed_keys@.contains(state_key(a.nodes@[n].state)),
            b.closed_keys@.len() == a.closed_keys@.len() + 1,
            b.closed_keys@.len() <= b.universe@.len(),
    {
        reveal(SearchTree::directory_ok);
        reveal(SearchTree::keys_ok);
        let k = state_key(a.nodes@[n].state);
        assert forall|m: int| 0 <= m < a.nodes@.len() && m != n implies state_key(
            #[trigger] a.nodes@[m].state,
        ) != k by {
            assert(a.node_map@[state_key(a.nodes@[m].state)] == m);
        }
        assert forall|m: int| 0 <= m < b.nodes@.len() implies b.universe@.contains(
            state_key(#[trigger] b.nodes@[m].state),
        ) && (b.nodes@[m].is_closed <==> b.closed_keys@.contains(state_key(b.nodes@[m].state))) by {
            assert(a.nodes@[m].state == b.nodes@[m].state);
            if m != n {
                assert(state_key(a.nodes@[m].state) != k);
            }
        }
        vstd::set_lib::lemma_len_subset(b.closed_keys@, b.universe@);
    }

    /// Closing node `n` keeps the forest sound: closing only adds closed parents.
    proof fn lemma_close_forest(a: &Self, b: &Self, n: int)
        requires
            a.forest_ok(),
            0 <= n < a.nodes@.len(),
            b.depth@ == a.depth@,
            b.starts@ == a.starts@,
            b.nodes@.len() == a.nodes@.len(),
            b.nodes@[n].is_closed,
            forall|m: int|
                0 <= m < a.nodes@.len() ==> (#[trigger] b.nodes@[m]).state == a.nodes@[m].state
                    && b.nodes@[m].g == a.nodes@[m].g && b.nodes@[m].parent == a.nodes@[m].parent
                    && (a.nodes@[m].is_closed ==> b.nodes@[m].is_closed),
        ensures
            b.forest_ok(),
    {
        reveal(SearchTree::forest_ok);
        assert forall|m: int| 0 <= m < b.nodes@.len() implies match (
        #[trigger] b.nodes@[m]).parent {
            Some((p, a2)) => {
                &&& 0 <= p < b.nodes@.len()
                &&& b.nodes@[p as int].is_closed
                &&& spec_apply(b.nodes@[p as int].state, a2) == Some(b.nodes@[m].state)
                &&& b.nodes@[m].g == sat_add(b.nodes@[p as int].g, spec_cost(a2))
                &&& b.depth@[p as int] < b.depth@[m]
            },
            None => b.starts@.contains(b.nodes@[m].state) && b.nodes@[m].g == 0,
        } by {
            assert(a.nodes@[m].parent == b.nodes@[m].parent);
            match b.nodes@[m].parent {
                Some((p, _)) => {
                    assert(a.nodes@[p as int].g == b.nodes@[p as int].g);
                },
                None => {},
            }
        }
    }

    proof fn lemma_dir_keys_frame(a: &Self, b: &Self)
        requires
            a.directory_ok(),
            a.keys_ok(),
            b.node_map@ == a.node_map@,
            b.universe@ == a.universe@,
            b.closed_keys@ == a.closed_keys@,
            b.nodes@.len() == a.nodes@.len(),
            forall|n: int|
                0 <= n < a.nodes@.len() ==> (#[trigger] b.nodes@[n]).state == a.nodes@[n].state
                    && b.nodes@[n].is_closed == a.nodes@[n].is_closed,
        ensures
            b.directory_ok(),
            b.keys_ok(),
    {
        reveal(SearchTree::directory_ok);
        reveal(SearchTree::keys_ok);
        assert forall|n: int| 0 <= n < b.nodes@.len() implies b.universe@.contains(
            state_key(#[trigger] b.nodes@[n].state),
        ) && (b.nodes@[n].is_closed <==> b.closed_keys@.contains(state_key(b.nodes@[n].state))) by {
            assert(a.nodes@[n].state == b.nodes@[n].state);
        }
        assert forall|n: int|
            0 <= n < b.nodes@.len() implies b.node_map@.contains_key(
            state_key(#[trigger] b.nodes@[n].state),
        ) && b.node_map@[state_key(b.nodes@[n].state)] == n by {
            assert(a.nodes@[n].state == b.nodes@[n].state);
        }
        assert forall|k: u64| #[trigger]
            b.node_map@.contains_key(k) implies b.node_map@[k] < b.nodes@.len() && state_key(
            b.nodes@[b.node_map@[k] as int].state,
        ) == k by {
            let n = b.node_map@[k] as int;
            assert(a.nodes@[n].state == b.nodes@[n].state);
        }
    }

    proof fn lemma_forest_frame(a: &Self, b: &Self)
        requires
            a.forest_ok(),
            b.depth@ == a.depth@,
            b.starts@ == a.starts@,
            b.nodes@.len() == a.nodes@.len(),
            forall|n: int|
                0 <= n < a.nodes@.len() ==> (#[trigger] b.nodes@[n]).state == a.nodes@[n].state
                    && b.nodes@[n].is_closed == a.nodes@[n].is_closed && b.nodes@[n].g
                    == a.nodes@[n].g && b.nodes@[n].parent == a.nodes@[n].parent,
        ensures
            b.forest_ok(),
    {
        reveal(SearchTree::forest_ok);
        assert forall|n: int| 0 <= n < b.nodes@.len() implies match (
        #[trigger] b.nodes@[n]).parent {
            Some((p, a2)) => {
                &&& 0 <= p < b.nodes@.len()
                &&& b.nodes@[p as int].is_closed
                &&& spec_apply(b.nodes@[p as int].state, a2) == Some(b.nodes@[n].state)
                &&& b.nodes@[n].g == sat_add(b.nodes@[p as int].g, spec_cost(a2))
                &&& b.depth@[p as int] < b.depth@[n]
            },
            None => b.starts@.contains(b.nodes@[n].state) && b.nodes@[n].g == 0,
        } by {
            assert(a.nodes@[n].parent == b.nodes@[n].parent);
            match b.nodes@[n].parent {
                Some((p, _)) => {
                    assert(a.nodes@[p as int].g == b.nodes@[p as int].g);
                },
                None => {},
            }
        }
    }

    /// Replaces the rank of the entry at `i` by one derived from the same cost.
    pub fn set_rank(&mut self, i: usize, rank: R)
        requires
            old(self).wf_unordered(),
            i < old(self).open@.len(),
            rank.agrees_with(old(self).nodes@[old(self).open@[i as int].node_index as int].g),
        ensures
            final(self).wf_unordered(),
            final(self).open@ == old(self).open@.update(
                i as int,
                HeapEntry { rank, node_index: old(self).open@[i as int].node_index },
            ),
            final(self).nodes@ == old(self).nodes@,
            final(self).node_map@ == old(self).node_map@,
            final(self).depth@ == old(self).depth@,
            final(self).starts@ == old(self).starts@,
            final(self).universe@ == old(self).universe@,
            final(self).closed_keys@ == old(self).closed_keys@,
    {
        reveal(SearchTree::links_ok);
        let ghost before = *self;
        let node_index = self.open[i].node_index;
        self.open.set(i, HeapEntry { rank, node_index });
        proof {
            Self::lemma_dir_keys_frame(&before, self);
            Self::lemma_forest_frame(&before, self);
        }
    }

    /// Restores heap order over the whole open list.
    pub fn rebuild(&mut self)
        requires
            old(self).wf_unordered(),
            old(self).open@.len() < usize::MAX / 16,
        ensures
            final(self).wf(),
            final(self).grows_from(old(self)),
            final(self).open@.len() == old(self).open@.len(),
            final(self).open@.to_multiset() == old(self).open@.to_multiset(),
            final(self).nodes@.len() == old(self).nodes@.len(),
            final(self).node_map@ == old(self).node_map@,
            final(self).closed_keys@ == old(self).closed_keys@,
            forall|n: int|
                0 <= n < old(self).nodes@.len() ==> (#[trigger] final(self).nodes@[n]).g
                    == old(self).nodes@[n].g && final(self).nodes@[n].is_closed
                    == old(self).nodes@[n].is_closed && final(self).nodes@[n].parent
                    == old(self).nodes@[n].parent,
    {
        let len = self.open.len();
        let mut i: usize = 1;
        while i < len
            invariant
                1 <= i,
                len == self.open@.len(),
                self.open@.to_multiset() == old(self).open@.to_multiset(),
                len < usize::MAX / 16,
                self.wf_unordered(),
                heap_order(self.open@, if i <= len {
                    i as int
                } else {
                    len as int
                }),
                self.grows_from(old(self)),
                self.nodes@.len() == old(self).nodes@.len(),
                self.node_map@ == old(self).node_map@,
                self.closed_keys@ == old(self).closed_keys@,
                self.depth@ == old(self).depth@,
                forall|n: int|
                    0 <= n < old(self).nodes@.len() ==> (#[trigger] self.nodes@[n]).g
                        == old(self).nodes@[n].g && self.nodes@[n].is_closed
                        == old(self).nodes@[n].is_closed && self.nodes@[n].parent
                        == old(self).nodes@[n].parent,
            decreases len - i,
        {
            proof {
                let o = self.open@;
                assert forall|c: int|
                    0 < c < i + 1 && #[trigger] par8(c) == i && i > 0 implies o[par8(
                    i as int,
                )].rank_key() <= o[c].rank_key() by {
                    lemma_par8(i as int, c);
                }
            }
            let ghost mid = *self;
            self.sift_up(i, i + 1);
            proof {
                Self::lemma_dir_keys_frame(&mid, self);
                Self::lemma_forest_frame(&mid, self);
            }
            i = i + 1;
        }
        proof {
            if len <= 1 {
                assert(heap_order(self.open@, len as int));
            }
        }
    }

    /// Closes every open node, leaving the open list empty.
    pub fn close_all_open(&mut self)
        requires
            old(self).wf(),
            old(self).universe@.len() < usize::MAX / 16,
        ensures
            final(self).wf(),
            final(self).grows_from(old(self)),
            final(self).open@.len() == 0,
            final(self).nodes@.len() == old(self).nodes@.len(),
            final(self).node_map@ == old(self).node_map@,
            forall|n: int|
                0 <= n < old(self).nodes@.len() ==> (#[trigger] final(self).nodes@[n]).g
                    == old(self).nodes@[n].g && final(self).nodes@[n].parent
                    == old(self).nodes@[n].parent,
    {
        proof {
            self.lemma_sizes(Maze2DState { x: 0, y: 0 });
        }
        loop
            invariant
                self.wf(),
                self.grows_from(old(self)),
                self.nodes@.len() == old(self).nodes@.len(),
                self.node_map@ == old(self).node_map@,
                self.work_left() >= 0,
                forall|n: int|
                    0 <= n < old(self).nodes@.len() ==> (#[trigger] self.nodes@[n]).g
                        == old(self).nodes@[n].g && self.nodes@[n].parent
                        == old(self).nodes@[n].parent,
                self.universe@.len() < usize::MAX / 16,
            ensures
                self.open@.len() == 0,
            decreases self.work_left(),
        {
            proof {
                self.lemma_sizes(Maze2DState { x: 0, y: 0 });
                reveal(SearchTree::keys_ok);
                vstd::set_lib::lemma_len_subset(self.node_map@.dom(), self.universe@);
            }
            let r = self.pop_and_close();
            if r.is_none() {
                break;
            }
        }
    }

    /// The directory has one entry per node; the open list holds every node
    /// but the closed ones; a node is closed iff its key is a closed key.
    pub proof fn lemma_counts(&self)
        requires
            self.wf(),
        ensures
            self.node_map@.dom().len() == self.nodes@.len(),
            self.open@.len() == self.nodes@.len() - self.closed_keys@.len(),
            forall|n: int|
                0 <= n < self.nodes@.len() ==> ((#[trigger] self.nodes@[n]).is_closed
                    <==> self.closed_keys@.contains(state_key(self.nodes@[n].state))),
    {
        reveal(SearchTree::directory_ok);
        reveal(SearchTree::keys_ok);
    }

    /// No open-list entry is better than its parent entry.
    pub proof fn lemma_heap_order(&self)
        requires
            self.wf(),
        ensures
            forall|i: int|
                0 < i < self.open@.len() ==> self.open@[(i - 1) / 8].rank_key() <= (
                #[trigger] self.open@[i]).rank_key(),
    {
        assert forall|i: int| 0 < i < self.open@.len() implies self.open@[(i - 1) / 8].rank_key()
            <= (#[trigger] self.open@[i]).rank_key() by {
            assert(self.open@[par8(i)].rank_key() <= self.open@[i].rank_key());
        }
    }

    /// Every open node's entry sits where the node says, points back at it and
    /// carries the rank derived from its cost; every entry's node is open.
    pub proof fn lemma_open_links(&self)
        requires
            self.wf(),
        ensures
            forall|n: int|
                0 <= n < self.nodes@.len() && !(#[trigger] self.nodes@[n]).is_closed ==> {
                    let i = self.nodes@[n].heap_index as int;
                    &&& i < self.open@.len()
                    &&& self.open@[i].node_index == n
                    &&& self.open@[i].rank.agrees_with(self.nodes@[n].g)
                },
            forall|i: int|
                0 <= i < self.open@.len() ==> !self.nodes@[(#[trigger] self.open@[i]).node_index as int].is_closed,
    {
        reveal(SearchTree::links_ok);
        assert forall|n: int|
            0 <= n < self.nodes@.len() && !(#[trigger] self.nodes@[n]).is_closed implies {
            let i = self.nodes@[n].heap_index as int;
            &&& i < self.open@.len()
            &&& self.open@[i].node_index == n
            &&& self.open@[i].rank.agrees_with(self.nodes@[n].g)
        } by {
            let _ = self.open@[self.nodes@[n].heap_index as int];
        }
    }

    /// An open-list entry points at a node and carries that node's rank.
    pub proof fn lemma_entry(&self, i: int)
        requires
            self.wf_unordered(),
            0 <= i < self.open@.len(),
        ensures
            self.open@[i].node_index < self.nodes@.len(),
            self.open@[i].rank.agrees_with(self.nodes@[self.open@[i].node_index as int].g),
    {
        reveal(SearchTree::links_ok);
        let _ = self.open@[i];
    }

    pub proof fn lemma_parent_of(&self, k: int)
        requires
            self.forest_ok(),
            0 <= k < self.nodes@.len(),
        ensures
            match self.nodes@[k].parent {
                Some((p, a)) => {
                    &&& 0 <= p < self.nodes@.len()
                    &&& spec_apply(self.nodes@[p as int].state, a) == Some(self.nodes@[k].state)
                    &&& self.nodes@[k].g == sat_add(self.nodes@[p as int].g, spec_cost(a))
                    &&& self.depth@[p as int] < self.depth@[k]
                },
                None => self.starts@.contains(self.nodes@[k].state) && self.nodes@[k].g == 0,
            },
            self.depth@.len() == self.nodes@.len(),
    {
        reveal(SearchTree::forest_ok);
        let _ = self.nodes@[k];
    }

    /// The path from a start to node `n`, read back along parent edges.
    #[verifier::rlimit(100)]
    #[verifier::spinoff_prover]
    pub fn path(&self, n: usize, space: &Maze2DSpace) -> (p: Path)
        requires
            self.wf(),
            n < self.nodes@.len(),
            forall|k: int|
                0 <= k < self.nodes@.len() && (#[trigger] self.nodes@[k]).parent is Some
                    ==> grid_free(space@, self.nodes@[k].state),
        ensures
            path_follows(p),
            free_walk(space@, p.start->0, p.actions@),
            walk_to(p.start->0, p.actions@, p.actions@.len() as int) == p.end,
            self.starts@.contains(p.start->0),
            p.end == Some(self.nodes@[n as int].state),
            p.cost == self.nodes@[n as int].g,
    {
        let ghost grid = space@;
        let goal = self.nodes[n];
        let mut path = Path::new_from_start(goal.state);
        let mut cur = n;
        let ghost mut rev: Seq<Maze2DAction> = Seq::empty();
        proof {
            assert(path.actions@.reverse() =~= rev);
        }
        loop
            invariant
                self.wf(),
                cur < self.nodes@.len(),
                goal == self.nodes@[n as int],
                path.start == Some(goal.state),
                path.end == Some(self.nodes@[cur as int].state),
                rev == path.actions@.reverse(),
                spec_walk(self.nodes@[cur as int].state, rev) == Some(goal.state),
                free_from(grid, self.nodes@[cur as int].state, rev),
                forall|k: int|
                    0 <= k < self.nodes@.len() && (#[trigger] self.nodes@[k]).parent is Some
                        ==> grid_free(grid, self.nodes@[k].state),
                sat_add(self.nodes@[cur as int].g, path.cost) == goal.g,
                path.cost as int == (if actions_cost(rev) > u32::MAX {
                    u32::MAX as int
                } else {
                    actions_cost(rev)
                }),
            ensures
                self.nodes@[cur as int].parent is None,
            decreases self.depth@[cur as int],
        {
            let node = self.nodes[cur];
            proof {
                self.lemma_parent_of(cur as int);
            }
            match node.parent {
                None => {
                    break;
                },
                Some((p, a)) => {
                    let ps = self.nodes[p].state;
                    let c = space.cost(&ps, &a);
                    let ghost old_rev = rev;
                    let ghost old_cost = path.cost;
                    path.append((ps, a), c);
                    proof {
                        rev = seq![a] + old_rev;
                        assert(path.actions@.reverse() =~= rev);
                        lemma_walk_step(ps, a, node.state, goal.state, old_rev);
                        assert(rev.drop_first() =~= old_rev);
                        assert(grid_free(grid, node.state));
                        lemma_cost_step(
                            self.nodes@[p as int].g,
                            node.g,
                            c,
                            old_cost,
                            goal.g,
                            a,
                            old_rev,
                        );
                    }
                    cur = p;
                },
            }
        }
        proof {
            self.lemma_parent_of(cur as int);
            assert(self.nodes@[cur as int].parent is None);
            assert(self.starts@.contains(self.nodes@[cur as int].state));
            assert(self.nodes@[cur as int].g == 0);
        }
        let ghost before = path;
        path.reverse();
        proof {
            assert(path.actions@ == rev);
            assert(path.start == Some(self.nodes@[cur as int].state));
            assert(path.cost == goal.g);
            assert(path_follows(path));
            lemma_free_from_walk(grid, path.start->0, path.actions@, goal.state);
        }
        path
    }
}

} // verus!
