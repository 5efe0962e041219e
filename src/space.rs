//! The interface a search space offers: moves, their costs, valid states and
//! the neighbours of a state. The grid implements it.
use vstd::prelude::*;

use crate::maze_2d::grid_contains;
use crate::maze_2d::grid_free;
use crate::maze_2d::spec_apply;
use crate::maze_2d::spec_cost;
use crate::maze_2d::Maze2DAction;
use crate::maze_2d::Maze2DSpace;
use crate::maze_2d::Maze2DState;

verus! {

/// A space of states linked by actions with costs.
pub trait Space: Sized {
    type State;

    type Action;

    /// Where action `a` leads from `s`, if anywhere.
    spec fn space_apply(&self, s: Self::State, a: Self::Action) -> Option<Self::State>;

    /// The cost of action `a` from `s`.
    spec fn space_cost(&self, s: Self::State, a: Self::Action) -> u32;

    /// Whether `s` is a state of this space.
    spec fn space_valid(&self, s: Self::State) -> bool;

    /// Whether a search may stand on `s`.
    spec fn space_open(&self, s: Self::State) -> bool;

    /// The space is well formed.
    spec fn space_wf(&self) -> bool;

    fn apply(&self, s: &Self::State, a: &Self::Action) -> (r: Option<Self::State>)
        ensures
            r == self.space_apply(*s, *a),
    ;

    fn cost(&self, s: &Self::State, a: &Self::Action) -> (r: u32)
        ensures
            r == self.space_cost(*s, *a),
    ;

    fn valid(&self, s: &Self::State) -> (r: bool)
        ensures
            r == self.space_valid(*s),
    ;

    /// Every listed pair is a move to an open state; every move to an open
    /// state is listed.
    fn neighbours(&self, s: &Self::State) -> (v: Vec<(Self::State, Self::Action)>)
        requires
            self.space_wf(),
        ensures
            forall|k: int|
                0 <= k < v@.len() ==> self.space_apply(*s, (#[trigger] v@[k]).1) == Some(v@[k].0)
                    && self.space_open(v@[k].0),
            forall|a: Self::Action|
                match #[trigger] self.space_apply(*s, a) {
                    Some(t) => self.space_open(t) ==> exists|k: int|
                        0 <= k < v@.len() && (#[trigger] v@[k]).1 == a,
                    None => true,
                },
    ;
}

impl Space for Maze2DSpace {
    type State = Maze2DState;

    type Action = Maze2DAction;

    open spec fn space_apply(&self, s: Maze2DState, a: Maze2DAction) -> Option<Maze2DState> {
        spec_apply(s, a)
    }

    open spec fn space_cost(&self, s: Maze2DState, a: Maze2DAction) -> u32 {
        spec_cost(a)
    }

    open spec fn space_valid(&self, s: Maze2DState) -> bool {
        grid_contains(self@, s)
    }

    open spec fn space_open(&self, s: Maze2DState) -> bool {
        grid_free(self@, s)
    }

    open spec fn space_wf(&self) -> bool {
        self.wf()
    }

    fn apply(&self, s: &Maze2DState, a: &Maze2DAction) -> (r: Option<Maze2DState>) {
        Maze2DSpace::apply(self, s, a)
    }

    fn cost(&self, s: &Maze2DState, a: &Maze2DAction) -> (r: u32) {
        Maze2DSpace::cost(self, s, a)
    }

    fn valid(&self, s: &Maze2DState) -> (r: bool) {
        Maze2DSpace::valid(self, s)
    }

    fn neighbours(&self, s: &Maze2DState) -> (v: Vec<(Maze2DState, Maze2DAction)>) {
        let v = Maze2DSpace::neighbours(self, s);
        proof {
            assert forall|a: Maze2DAction|
                match #[trigger] spec_apply(*s, a) {
                    Some(t) => grid_free(self@, t) ==> exists|k: int|
                        0 <= k < v@.len() && (#[trigger] v@[k]).1 == a,
                    None => true,
                } by {
                crate::maze_2d::lemma_action_in_order(a);
                let kb = choose|kb: int| 0 <= kb < 8 && #[trigger] crate::maze_2d::action_order()[kb] == a;
            }
        }
        v
    }
}

} // verus!
