//! Paths through the grid: where they start and end, their cost and moves.
use vstd::prelude::*;

use crate::maze_2d::actions_cost;
use crate::maze_2d::spec_apply;
use crate::maze_2d::spec_cost;
use crate::maze_2d::free_walk;
use crate::maze_2d::grid_free;
use crate::maze_2d::spec_walk;
use crate::maze_2d::walk_to;
use crate::maze_2d::Maze2DCell;
use crate::maze_2d::Maze2DAction;
use crate::maze_2d::Maze2DSpace;
use crate::maze_2d::Maze2DState;
use crate::search::sat_add;
use crate::search::saturating_add;

verus! {

/// A path: where it starts and ends, its cost and its moves.
#[derive(Clone, Debug, PartialEq, Eq)]
pub struct Path {
    pub start: Option<Maze2DState>,
    pub end: Option<Maze2DState>,
    pub cost: u32,
    pub actions: Vec<Maze2DAction>,
}

impl Path {
    /// A path of no moves at `start`.
    pub fn new_from_start(start: Maze2DState) -> (r: Path)
        ensures
            r.start == Some(start),
            r.end == Some(start),
            r.cost == 0,
            r.actions@.len() == 0,
    {
        Path { start: Some(start), end: Some(start), cost: 0, actions: Vec::new() }
    }

    /// A path with no states at all.
    pub fn new_empty() -> (r: Path)
        ensures
            r.start is None,
            r.end is None,
            r.cost == 0,
            r.actions@.len() == 0,
    {
        Path { start: None, end: None, cost: 0, actions: Vec::new() }
    }

    /// Whether the path has no moves.
    pub fn is_empty(&self) -> (r: bool)
        ensures
            r == (self.actions@.len() == 0),
    {
        self.actions.len() == 0
    }

    /// The number of moves.
    pub fn len(&self) -> (r: usize)
        ensures
            r == self.actions@.len(),
    {
        self.actions.len()
    }

    /// Both ends are given or neither is, and the cost is not the sentinel.
    pub fn seems_valid(&self) -> (r: bool)
        ensures
            r == ((self.start is Some) == (self.end is Some) && self.cost != u32::MAX),
    {
        self.start.is_some() == self.end.is_some() && self.cost != u32::MAX
    }

    /// Adds a move, and the state it leads to as the new end.
    pub fn append(&mut self, last_action: (Maze2DState, Maze2DAction), c: u32)
        ensures
            final(self).actions@ == old(self).actions@.push(last_action.1),
            final(self).end == Some(last_action.0),
            final(self).start == old(self).start,
            final(self).cost == sat_add(old(self).cost, c),
    {
        let (s, a) = last_action;
        self.actions.push(a);
        self.end = Some(s);
        self.cost = saturating_add(self.cost, c);
    }

    /// Swaps the ends and reverses the moves.
    pub fn reverse(&mut self)
        ensures
            final(self).start == old(self).end,
            final(self).end == old(self).start,
            final(self).cost == old(self).cost,
            final(self).actions@ == old(self).actions@.reverse(),
    {
        let start = self.start;
        self.start = self.end;
        self.end = start;
        let n = self.actions.len();
        let mut rev: Vec<Maze2DAction> = Vec::with_capacity(n);
        let mut i: usize = n;
        while i > 0
            invariant
                i <= n,
                n == self.actions@.len(),
                rev@ == self.actions@.subrange(i as int, n as int).reverse(),
            decreases i,
        {
            i = i - 1;
            let a = self.actions[i];
            rev.push(a);
            assert(rev@ =~= self.actions@.subrange(i as int, n as int).reverse());
        }
        assert(self.actions@.subrange(0, n as int) =~= self.actions@);
        self.actions = rev;
    }
}

/// Reversing a path twice gives the path back.
pub proof fn lemma_reverse_twice(actions: Seq<Maze2DAction>)
    ensures
        actions.reverse().reverse() == actions,
{
    assert(actions.reverse().reverse() =~= actions);
}

/// A path that starts somewhere, ends where its moves lead, and costs their sum.
pub open spec fn path_follows(p: Path) -> bool {
    &&& p.start is Some
    &&& p.end is Some
    &&& spec_walk(p.start->0, p.actions@) == Some(p.end->0)
    &&& p.cost as int == (if actions_cost(p.actions@) > u32::MAX {
        u32::MAX as int
    } else {
        actions_cost(p.actions@)
    })
}

pub(crate) proof fn lemma_walk_step(
    ps: Maze2DState,
    a: Maze2DAction,
    cs: Maze2DState,
    goal: Maze2DState,
    rest: Seq<Maze2DAction>,
)
    requires
        spec_apply(ps, a) == Some(cs),
        spec_walk(cs, rest) == Some(goal),
    ensures
        spec_walk(ps, seq![a] + rest) == Some(goal),
{
    let r = seq![a] + rest;
    assert(r.drop_first() =~= rest);
    assert(r[0] == a);
}

pub(crate) proof fn lemma_cost_step(
    gp: u32,
    gc: u32,
    c: u32,
    cost: u32,
    goal_g: u32,
    a: Maze2DAction,
    rest: Seq<Maze2DAction>,
)
    requires
        c == spec_cost(a),
        gc == sat_add(gp, c),
        sat_add(gc, cost) == goal_g,
        cost as int == (if actions_cost(rest) > u32::MAX {
            u32::MAX as int
        } else {
            actions_cost(rest)
        }),
    ensures
        sat_add(gp, sat_add(cost, c)) == goal_g,
        sat_add(cost, c) as int == (if actions_cost(seq![a] + rest) > u32::MAX {
            u32::MAX as int
        } else {
            actions_cost(seq![a] + rest)
        }),
{
    let r = seq![a] + rest;
    assert(r.drop_first() =~= rest);
    assert(r[0] == a);
    assert(actions_cost(r) == spec_cost(a) + actions_cost(rest));
    assert(actions_cost(rest) >= 0) by {
        lemma_actions_cost_nonneg(rest);
    }
}

proof fn lemma_actions_cost_nonneg(s: Seq<Maze2DAction>)
    ensures
        actions_cost(s) >= 0,
    decreases s.len(),
{
    if s.len() > 0 {
        lemma_actions_cost_nonneg(s.drop_first());
    }
}

/// A path whose moves lead from its start to its end, or the empty path.
pub open spec fn path_valid(p: Path) -> bool {
    match p.start {
        Some(start) => p.end is Some && spec_walk(start, p.actions@) == p.end,
        None => p.end is None && p.cost == 0 && p.actions@.len() == 0,
    }
}

/// A path that a search returns re-walks from its start to its end.
pub proof fn lemma_followed_path_is_valid(p: Path)
    requires
        path_follows(p),
    ensures
        path_valid(p),
{
}

impl Maze2DSpace {
    /// Whether the moves of `p` lead from its start to its end; a path with
    /// no start is valid only if it is the empty path.
    pub fn valid_path(&self, p: &Path) -> (r: bool)
        ensures
            r == path_valid(*p),
    {
        match p.start {
            Some(start) => {
                let n = p.actions.len();
                let mut state = start;
                let mut i: usize = 0;
                proof {
                    assert(p.actions@.subrange(0, n as int) =~= p.actions@);
                }
                while i < n
                    invariant
                        i <= n,
                        n == p.actions@.len(),
                        p.start == Some(start),
                        spec_walk(start, p.actions@) == spec_walk(
                            state,
                            p.actions@.subrange(i as int, n as int),
                        ),
                    decreases n - i,
                {
                    let a = p.actions[i];
                    proof {
                        let rest = p.actions@.subrange(i as int, n as int);
                        assert(rest.drop_first() =~= p.actions@.subrange(i + 1, n as int));
                        assert(rest[0] == a);
                    }
                    match self.apply(&state, &a) {
                        Some(next) => {
                            state = next;
                        },
                        None => {
                            proof {
                                assert(spec_walk(state, p.actions@.subrange(i as int, n as int))
                                    is None);
                            }
                            return false;
                        },
                    }
                    i = i + 1;
                }
                proof {
                    assert(p.actions@.subrange(n as int, n as int) =~= Seq::<Maze2DAction>::empty());
                }
                match p.end {
                    Some(end) => end == state,
                    None => false,
                }
            },
            None => p.end.is_none() && p.cost == 0 && p.actions.len() == 0,
        }
    }
}

/// Every move from `s` is defined and lands on an empty cell of `g`.
pub open spec fn free_from(g: Seq<Seq<Maze2DCell>>, s: Maze2DState, actions: Seq<Maze2DAction>) -> bool
    decreases actions.len(),
{
    if actions.len() == 0 {
        true
    } else {
        match spec_apply(s, actions[0]) {
            Some(t) => grid_free(g, t) && free_from(g, t, actions.drop_first()),
            None => false,
        }
    }
}

proof fn lemma_walk_shift(s: Maze2DState, actions: Seq<Maze2DAction>, t: Maze2DState, i: int)
    requires
        actions.len() >= 1,
        spec_apply(s, actions[0]) == Some(t),
        0 <= i <= actions.len() - 1,
    ensures
        walk_to(s, actions, i + 1) == walk_to(t, actions.drop_first(), i),
    decreases i,
{
    if i > 0 {
        lemma_walk_shift(s, actions, t, i - 1);
        assert(actions.drop_first()[i - 1] == actions[i]);
    } else {
        assert(walk_to(s, actions, 0) == Some(s));
        assert(walk_to(t, actions.drop_first(), 0) == Some(t));
    }
}

/// Moves that stay on empty cells, read from the front, form a walk over
/// empty cells in the prefix reading too, ending at the same place.
pub proof fn lemma_free_from_walk(
    g: Seq<Seq<Maze2DCell>>,
    s: Maze2DState,
    actions: Seq<Maze2DAction>,
    e: Maze2DState,
)
    requires
        free_from(g, s, actions),
        spec_walk(s, actions) == Some(e),
    ensures
        free_walk(g, s, actions),
        walk_to(s, actions, actions.len() as int) == Some(e),
    decreases actions.len(),
{
    if actions.len() > 0 {
        let t = spec_apply(s, actions[0])->0;
        let rest = actions.drop_first();
        lemma_free_from_walk(g, t, rest, e);
        lemma_walk_shift(s, actions, t, rest.len() as int);
        assert forall|i: int| 1 <= i <= actions.len() implies #[trigger] walk_to(s, actions, i) is Some
            && grid_free(g, walk_to(s, actions, i)->0) by {
            lemma_walk_shift(s, actions, t, i - 1);
            if i - 1 >= 1 {
                assert(walk_to(t, rest, i - 1) is Some);
            }
        }
    }
}

} // verus!
