//! Random states and random problems on a grid, drawn from a seeded generator.
use rand_chacha::ChaCha8Rng;
use vstd::prelude::*;

use crate::maze_2d::grid_contains;
use crate::maze_2d::grid_free;
use crate::maze_2d::grid_width;
use crate::maze_2d::Maze2DCell;
use crate::maze_2d::Maze2DProblem;
use crate::maze_2d::Maze2DSpace;
use crate::maze_2d::Maze2DState;

verus! {

/// How many draws are made before giving up.
pub const RANDOM_STATE_MAX_TRIES: usize = 10000;

#[verifier::external_type_specification]
#[verifier::external_body]
pub struct ExChaCha8Rng(ChaCha8Rng);

/// Relies on `rand::Rng::random::<u32>` on a ChaCha8 generator: one draw; any
/// `u32` may come back.
#[verifier::external_body]
fn draw_u32(r: &mut ChaCha8Rng) -> u32 {
    rand::Rng::random::<u32>(r)
}

impl Maze2DSpace {
    /// A cell-by-cell copy of the grid.
    fn duplicate(&self) -> (r: Maze2DSpace)
        ensures
            r@ == self@,
    {
        let mut map: Vec<Vec<Maze2DCell>> = Vec::new();
        let mut j: usize = 0;
        while j < self.map.len()
            invariant
                j <= self@.len(),
                map@.len() == j,
                forall|k: int| 0 <= k < j ==> (#[trigger] map@[k])@ == self@[k],
            decreases self@.len() - j,
        {
            let src = &self.map[j];
            let mut row: Vec<Maze2DCell> = Vec::new();
            let mut i: usize = 0;
            while i < src.len()
                invariant
                    i <= src@.len(),
                    row@ == src@.subrange(0, i as int),
                decreases src@.len() - i,
            {
                row.push(src[i]);
                proof {
                    assert(row@ =~= src@.subrange(0, i + 1));
                }
                i = i + 1;
            }
            proof {
                assert(row@ =~= src@);
            }
            map.push(row);
            j = j + 1;
        }
        let r = Maze2DSpace { map };
        proof {
            assert(r@ =~= self@);
        }
        r
    }

    /// The cell that two draws pick: `x = a % width`, `y = b % height`; `None`
    /// if that cell is a wall.
    pub fn state_from_draws(&self, a: u32, b: u32) -> (s: Option<Maze2DState>)
        requires
            self.wf(),
            grid_width(self@) > 0,
        ensures
            ({
                let t = Maze2DState {
                    x: (a as int % grid_width(self@)) as u32,
                    y: (b as int % self@.len() as int) as u32,
                };
                s == if grid_free(self@, t) {
                    Some(t)
                } else {
                    None::<Maze2DState>
                }
            }),
    {
        let (max_x, max_y) = self.dimensions();
        let x = a % (max_x as u32);
        let y = b % (max_y as u32);
        let row = &self.map[y as usize];
        proof {
            assert(row@ == self@[y as int]);
        }
        if row[x as usize] == Maze2DCell::Empty {
            Some(Maze2DState { x, y })
        } else {
            None
        }
    }

    /// Draws cells until an empty one comes up, at most
    /// `RANDOM_STATE_MAX_TRIES` times; whatever is returned is an empty cell.
    pub fn random_state(&self, r: &mut ChaCha8Rng) -> (s: Option<Maze2DState>)
        requires
            self.wf(),
            grid_width(self@) > 0,
        ensures
            match s {
                Some(t) => grid_free(self@, t),
                None => true,
            },
            (forall|t: Maze2DState| !grid_free(self@, t)) ==> s is None,
            (forall|t: Maze2DState| grid_contains(self@, t) ==> grid_free(self@, t)) ==> s is Some,
    {
        let (max_x, max_y) = self.dimensions();
        let mut tries: usize = 0;
        while tries < RANDOM_STATE_MAX_TRIES
            invariant
                self.wf(),
                max_x == grid_width(self@),
                max_y == self@.len(),
                max_x > 0,
                max_y > 0,
                tries > 0 ==> !(forall|t: Maze2DState| grid_contains(self@, t) ==> grid_free(self@, t)),
            decreases RANDOM_STATE_MAX_TRIES - tries,
        {
            let a = draw_u32(r);
            let b = draw_u32(r);
            if let Some(s) = self.state_from_draws(a, b) {
                return Some(s);
            }
            proof {
                let t = Maze2DState {
                    x: (a as int % grid_width(self@)) as u32,
                    y: (b as int % self@.len() as int) as u32,
                };
                assert(grid_contains(self@, t));
            }
            tries = tries + 1;
        }
        None
    }
}

/// Files a drawn state: as a start while starts are missing, else as a
/// goal while goals are missing; returns whether both lists were already full.
pub fn place_state(
    starts: &mut Vec<Maze2DState>,
    goals: &mut Vec<Maze2DState>,
    s: Maze2DState,
    num_starts: u16,
    num_goals: u16,
) -> (full: bool)
    ensures
        full == (old(starts)@.len() >= num_starts && old(goals)@.len() >= num_goals),
        old(starts)@.len() < num_starts ==> final(starts)@ == old(starts)@.push(s) && final(goals)@
            == old(goals)@,
        old(starts)@.len() >= num_starts && old(goals)@.len() < num_goals ==> final(starts)@ == old(
            starts,
        )@ && final(goals)@ == old(goals)@.push(s),
        full ==> final(starts)@ == old(starts)@ && final(goals)@ == old(goals)@,
{
    if starts.len() < num_starts as usize {
        starts.push(s);
        false
    } else if goals.len() < num_goals as usize {
        goals.push(s);
        false
    } else {
        true
    }
}

impl Maze2DProblem {
    /// A problem on the same grid with `num_starts` random starts and
    /// `num_goals` random goals, all on empty cells; `None` if the draws ran out.
    pub fn randomize(&self, r: &mut ChaCha8Rng, num_starts: u16, num_goals: u16) -> (p: Option<
        Maze2DProblem,
    >)
        requires
            self.space.wf(),
            grid_width(self.space@) > 0,
        ensures
            match p {
                Some(q) => {
                    &&& q.space@ == self.space@
                    &&& q.starts@.len() == num_starts
                    &&& q.goals@.len() == num_goals
                    &&& forall|i: int|
                        0 <= i < q.starts@.len() ==> grid_free(q.space@, #[trigger] q.starts@[i])
                    &&& forall|i: int|
                        0 <= i < q.goals@.len() ==> grid_free(q.space@, #[trigger] q.goals@[i])
                },
                None => true,
            },
            (forall|t: Maze2DState| !grid_free(self.space@, t)) ==> p is None,
            (forall|t: Maze2DState| grid_contains(self.space@, t) ==> grid_free(self.space@, t))
                && num_starts + num_goals < RANDOM_STATE_MAX_TRIES ==> p is Some,
    {
        let mut starts: Vec<Maze2DState> = Vec::new();
        let mut goals: Vec<Maze2DState> = Vec::new();
        let mut tries: usize = 0;
        while tries < RANDOM_STATE_MAX_TRIES
            invariant
                self.space.wf(),
                grid_width(self.space@) > 0,
                starts@.len() <= num_starts,
                goals@.len() <= num_goals,
                forall|i: int| 0 <= i < starts@.len() ==> grid_free(self.space@, #[trigger] starts@[i]),
                forall|i: int| 0 <= i < goals@.len() ==> grid_free(self.space@, #[trigger] goals@[i]),
                (forall|t: Maze2DState| grid_contains(self.space@, t) ==> grid_free(self.space@, t))
                    ==> starts@.len() + goals@.len() == tries,
            decreases RANDOM_STATE_MAX_TRIES - tries,
        {
            match self.space.random_state(r) {
                Some(s) => {
                    if place_state(&mut starts, &mut goals, s, num_starts, num_goals) {
                        let space = self.space.duplicate();
                        return Some(Maze2DProblem { space, starts, goals });
                    }
                },
                None => {},
            }
            tries = tries + 1;
        }
        None
    }
}

} // verus!
