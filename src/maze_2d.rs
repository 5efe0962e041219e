//! A 2-D grid space: cells are empty or walls, moves go to the eight
//! neighbouring cells, orthogonal moves cost 100 and diagonal moves 141.
use vstd::prelude::*;

verus! {

/// A coordinate on the grid; `u32::MAX` is never one.
pub type Coord = u32;

/// The cost of a move on the grid.
pub type Maze2DCost = u32;

pub const ORTHOGONAL_COST: u32 = 100;

pub const DIAGONAL_COST: u32 = 141;

/// A cell of the grid, `x` to the right and `y` upwards.
#[derive(Copy, Clone, Debug, PartialEq, Eq, Structural, Hash)]
pub struct Maze2DState {
    pub x: Coord,
    pub y: Coord,
}

/// Whether a pair of integers can stand as a grid position.
pub open spec fn coord_ok(v: int) -> bool {
    0 <= v < u32::MAX
}

impl Maze2DState {
    pub open spec fn is_valid_coord(&self) -> bool {
        coord_ok(self.x as int) && coord_ok(self.y as int)
    }

    /// A state from two coordinates, if neither is `u32::MAX`.
    pub fn new(x: Coord, y: Coord) -> (r: Option<Maze2DState>)
        ensures
            r == (if coord_ok(x as int) && coord_ok(y as int) {
                Some(Maze2DState { x, y })
            } else {
                None
            }),
    {
        if x < u32::MAX && y < u32::MAX {
            Some(Maze2DState { x, y })
        } else {
            None
        }
    }

    /// A state from two `usize` coordinates, if both fit.
    pub fn new_from_usize(x: usize, y: usize) -> (r: Option<Maze2DState>)
        ensures
            r == (if coord_ok(x as int) && coord_ok(y as int) {
                Some(Maze2DState { x: x as u32, y: y as u32 })
            } else {
                None
            }),
    {
        if x < u32::MAX as usize && y < u32::MAX as usize {
            Some(Maze2DState { x: x as u32, y: y as u32 })
        } else {
            None
        }
    }

    /// A state from two coordinates known to fit.
    pub fn new_from_small_usize(x: usize, y: usize) -> (r: Maze2DState)
        requires
            coord_ok(x as int),
            coord_ok(y as int),
        ensures
            r.x == x,
            r.y == y,
    {
        Maze2DState { x: x as u32, y: y as u32 }
    }

    /// Whether a grid of these dimensions has only valid coordinates.
    pub fn safe_dimensions(max_x: usize, max_y: usize) -> (r: bool)
        ensures
            r == (max_x < u32::MAX && max_y < u32::MAX),
    {
        (max_x < u32::MAX as usize) && (max_y < u32::MAX as usize)
    }

    /// The origin.
    pub fn default() -> (r: Maze2DState)
        ensures
            r.x == 0 && r.y == 0,
    {
        Maze2DState { x: 0, y: 0 }
    }

    /// The key under which the state is filed: `y` in the high half, `x` in the low.
    pub fn key(&self) -> (r: u64)
        ensures
            r == state_key(*self),
    {
        ((self.y as u64) << 32u64) | (self.x as u64)
    }
}

/// The key of a state; distinct states have distinct keys.
pub open spec fn state_key(s: Maze2DState) -> u64 {
    ((s.y as u64) << 32u64) | (s.x as u64)
}

pub proof fn lemma_state_key_injective(a: Maze2DState, b: Maze2DState)
    requires
        state_key(a) == state_key(b),
    ensures
        a == b,
{
    let (ax, ay, bx, by) = (a.x as u64, a.y as u64, b.x as u64, b.y as u64);
    assert(ax < 0x1_0000_0000u64 && bx < 0x1_0000_0000u64);
    assert(ay < 0x1_0000_0000u64 && by < 0x1_0000_0000u64);
    assert((((ay << 32u64) | ax) == ((by << 32u64) | bx)) ==> ax == bx && ay == by) by (bit_vector)
        requires
            ax < 0x1_0000_0000u64,
            bx < 0x1_0000_0000u64,
            ay < 0x1_0000_0000u64,
            by < 0x1_0000_0000u64,
    ;
}

/// A move to one of the eight neighbouring cells.
#[derive(Copy, Clone, Debug, PartialEq, Eq, Structural, Hash)]
pub enum Maze2DAction {
    Up,
    Down,
    Left,
    Right,
    LeftUp,
    RightUp,
    LeftDown,
    RightDown,
}

/// How a move changes `x`.
pub open spec fn action_dx(a: Maze2DAction) -> int {
    match a {
        Maze2DAction::Left | Maze2DAction::LeftUp | Maze2DAction::LeftDown => -1,
        Maze2DAction::Right | Maze2DAction::RightUp | Maze2DAction::RightDown => 1,
        _ => 0,
    }
}

/// How a move changes `y`.
pub open spec fn action_dy(a: Maze2DAction) -> int {
    match a {
        Maze2DAction::Up | Maze2DAction::LeftUp | Maze2DAction::RightUp => 1,
        Maze2DAction::Down | Maze2DAction::LeftDown | Maze2DAction::RightDown => -1,
        _ => 0,
    }
}

/// Whether a move is orthogonal.
pub open spec fn is_orthogonal(a: Maze2DAction) -> bool {
    action_dx(a) == 0 || action_dy(a) == 0
}

/// The cost of a move.
pub open spec fn spec_cost(a: Maze2DAction) -> u32 {
    if is_orthogonal(a) {
        ORTHOGONAL_COST
    } else {
        DIAGONAL_COST
    }
}

/// Where a move leads, where both coordinates stay valid.
pub open spec fn spec_apply(s: Maze2DState, a: Maze2DAction) -> Option<Maze2DState> {
    let nx = s.x + action_dx(a);
    let ny = s.y + action_dy(a);
    if coord_ok(nx) && coord_ok(ny) {
        Some(Maze2DState { x: nx as u32, y: ny as u32 })
    } else {
        None
    }
}

/// Where a sequence of moves leads from `s`, if every move is defined.
pub open spec fn spec_walk(s: Maze2DState, actions: Seq<Maze2DAction>) -> Option<Maze2DState>
    decreases actions.len(),
{
    if actions.len() == 0 {
        Some(s)
    } else {
        match spec_apply(s, actions[0]) {
            Some(t) => spec_walk(t, actions.drop_first()),
            None => None,
        }
    }
}

/// The sum of the costs of a sequence of moves.
pub open spec fn actions_cost(actions: Seq<Maze2DAction>) -> int
    decreases actions.len(),
{
    if actions.len() == 0 {
        0
    } else {
        spec_cost(actions[0]) + actions_cost(actions.drop_first())
    }
}

/// The state reached after the first `i` moves from `s`, if every one is defined.
pub open spec fn walk_to(s: Maze2DState, actions: Seq<Maze2DAction>, i: int) -> Option<Maze2DState>
    decreases i,
{
    if i <= 0 {
        Some(s)
    } else {
        match walk_to(s, actions, i - 1) {
            Some(t) => spec_apply(t, actions[i - 1]),
            None => None,
        }
    }
}

/// The summed cost of the first `i` moves.
pub open spec fn cost_to(actions: Seq<Maze2DAction>, i: int) -> int
    decreases i,
{
    if i <= 0 {
        0
    } else {
        cost_to(actions, i - 1) + spec_cost(actions[i - 1])
    }
}

/// `v`, pinned to `u32::MAX`.
pub open spec fn clamp_int(v: int) -> int {
    if v > u32::MAX {
        u32::MAX as int
    } else {
        v
    }
}

/// Every move leads to an empty cell of the grid.
pub open spec fn free_walk(g: Seq<Seq<Maze2DCell>>, s: Maze2DState, actions: Seq<Maze2DAction>) -> bool {
    forall|i: int|
        1 <= i <= actions.len() ==> #[trigger] walk_to(s, actions, i) is Some && grid_free(
            g,
            walk_to(s, actions, i)->0,
        )
}

/// The first `j` moves go where the whole sequence's first `j` moves go, at the same cost.
pub proof fn lemma_walk_prefix(s: Maze2DState, actions: Seq<Maze2DAction>, j: int, i: int)
    requires
        0 <= i <= j <= actions.len(),
    ensures
        walk_to(s, actions.take(j), i) == walk_to(s, actions, i),
        cost_to(actions.take(j), i) == cost_to(actions, i),
    decreases i,
{
    if i > 0 {
        lemma_walk_prefix(s, actions, j, i - 1);
    }
}

/// Costs only grow along a walk.
pub proof fn lemma_cost_monotone(actions: Seq<Maze2DAction>, i: int, j: int)
    requires
        0 <= i <= j <= actions.len(),
    ensures
        cost_to(actions, i) <= cost_to(actions, j),
    decreases j,
{
    if i < j {
        lemma_cost_monotone(actions, i, j - 1);
    }
}

/// The eight moves of `action_order` are distinct.
pub proof fn lemma_action_order_distinct()
    ensures
        forall|i: int, j: int| 0 <= i < j < 8 ==> action_order()[i] != action_order()[j],
{
    let o = action_order();
    assert(o[0] != o[1] && o[0] != o[2] && o[0] != o[3] && o[0] != o[4] && o[0] != o[5] && o[0]
        != o[6] && o[0] != o[7]);
    assert(o[1] != o[2] && o[1] != o[3] && o[1] != o[4] && o[1] != o[5] && o[1] != o[6] && o[1]
        != o[7]);
    assert(o[2] != o[3] && o[2] != o[4] && o[2] != o[5] && o[2] != o[6] && o[2] != o[7]);
    assert(o[3] != o[4] && o[3] != o[5] && o[3] != o[6] && o[3] != o[7]);
    assert(o[4] != o[5] && o[4] != o[6] && o[4] != o[7]);
    assert(o[5] != o[6] && o[5] != o[7]);
    assert(o[6] != o[7]);
}

/// Every move is one of the eight in `action_order`.
pub proof fn lemma_action_in_order(a: Maze2DAction)
    ensures
        exists|k: int| 0 <= k < 8 && #[trigger] action_order()[k] == a,
{
    match a {
        Maze2DAction::LeftDown => assert(action_order()[0] == a),
        Maze2DAction::Left => assert(action_order()[1] == a),
        Maze2DAction::LeftUp => assert(action_order()[2] == a),
        Maze2DAction::Down => assert(action_order()[3] == a),
        Maze2DAction::Up => assert(action_order()[4] == a),
        Maze2DAction::RightDown => assert(action_order()[5] == a),
        Maze2DAction::Right => assert(action_order()[6] == a),
        Maze2DAction::RightUp => assert(action_order()[7] == a),
    }
}

/// A cell of the map.
#[derive(Copy, Clone, Debug, PartialEq, Eq, Structural)]
pub enum Maze2DCell {
    Empty,
    Wall,
}

/// A character that stands for no cell.
#[derive(Copy, Clone, Debug, PartialEq, Eq, Structural)]
pub enum Maze2DCellParseError {
    InvalidCharacter(char),
}

/// The cell that a character stands for.
pub open spec fn spec_cell_of(ch: char) -> Option<Maze2DCell> {
    if ch == ' ' || ch == '.' {
        Some(Maze2DCell::Empty)
    } else if ch == '#' || ch == '\u{2588}' {
        Some(Maze2DCell::Wall)
    } else {
        None
    }
}

impl Maze2DCell {
    /// `' '` and `'.'` are empty cells, `'#'` and `'█'` are walls.
    pub fn try_from(ch: char) -> (r: Result<Maze2DCell, Maze2DCellParseError>)
        ensures
            match spec_cell_of(ch) {
                Some(c) => r == Ok::<Maze2DCell, Maze2DCellParseError>(c),
                None => r == Err::<Maze2DCell, Maze2DCellParseError>(
                    Maze2DCellParseError::InvalidCharacter(ch),
                ),
            },
    {
        if ch == ' ' || ch == '.' {
            Ok(Maze2DCell::Empty)
        } else if ch == '#' || ch == '\u{2588}' {
            Ok(Maze2DCell::Wall)
        } else {
            Err(Maze2DCellParseError::InvalidCharacter(ch))
        }
    }
}

/// The grid: `map[y][x]`.
#[derive(Clone, Debug)]
pub struct Maze2DSpace {
    pub map: Vec<Vec<Maze2DCell>>,
}

/// The rows of a map as a sequence of sequences.
pub open spec fn rows_of(map: Seq<Vec<Maze2DCell>>) -> Seq<Seq<Maze2DCell>> {
    map.map_values(|row: Vec<Maze2DCell>| row@)
}

/// The width of a grid: the length of its first row, or zero.
pub open spec fn grid_width(g: Seq<Seq<Maze2DCell>>) -> int {
    if g.len() == 0 {
        0
    } else {
        g[0].len() as int
    }
}

/// A grid whose rows all have one width, and whose coordinates all fit.
pub open spec fn grid_wf(g: Seq<Seq<Maze2DCell>>) -> bool {
    &&& forall|y: int| 0 <= y < g.len() ==> (#[trigger] g[y]).len() == grid_width(g)
    &&& coord_ok(grid_width(g))
    &&& coord_ok(g.len() as int)
}

/// Whether a state lies on the grid.
pub open spec fn grid_contains(g: Seq<Seq<Maze2DCell>>, s: Maze2DState) -> bool {
    s.x < grid_width(g) && s.y < g.len()
}

/// Whether a state lies on the grid on an empty cell.
pub open spec fn grid_free(g: Seq<Seq<Maze2DCell>>, s: Maze2DState) -> bool {
    grid_contains(g, s) && g[s.y as int][s.x as int] == Maze2DCell::Empty
}

impl View for Maze2DSpace {
    type V = Seq<Seq<Maze2DCell>>;

    open spec fn view(&self) -> Seq<Seq<Maze2DCell>> {
        rows_of(self.map@)
    }
}

/// The eight moves in the order in which neighbours are listed.
pub open spec fn action_order() -> Seq<Maze2DAction> {
    seq![
        Maze2DAction::LeftDown,
        Maze2DAction::Left,
        Maze2DAction::LeftUp,
        Maze2DAction::Down,
        Maze2DAction::Up,
        Maze2DAction::RightDown,
        Maze2DAction::Right,
        Maze2DAction::RightUp,
    ]
}

impl Maze2DSpace {
    pub open spec fn wf(&self) -> bool {
        grid_wf(self@)
    }

    /// A space over the given rows.
    pub fn new_from_map(map: Vec<Vec<Maze2DCell>>) -> (r: Self)
        requires
            grid_wf(rows_of(map@)),
        ensures
            r@ == rows_of(map@),
            r.wf(),
    {
        Self { map }
    }

    /// An empty grid `x` wide and `y` high.
    pub fn new_empty_with_dimensions(x: usize, y: usize) -> (r: Self)
        requires
            coord_ok(x as int),
            coord_ok(y as int),
            y == 0 ==> x == 0,
        ensures
            r.wf(),
            r@.len() == y,
            grid_width(r@) == x,
            forall|j: int, i: int|
                0 <= j < y && 0 <= i < x ==> #[trigger] r@[j][i] == Maze2DCell::Empty,
    {
        let mut map: Vec<Vec<Maze2DCell>> = Vec::new();
        let mut j: usize = 0;
        while j < y
            invariant
                j <= y,
                map@.len() == j,
                forall|k: int| 0 <= k < j ==> (#[trigger] map@[k])@.len() == x,
                forall|k: int, i: int|
                    0 <= k < j && 0 <= i < x ==> #[trigger] map@[k]@[i] == Maze2DCell::Empty,
            decreases y - j,
        {
            let mut row: Vec<Maze2DCell> = Vec::new();
            let mut i: usize = 0;
            while i < x
                invariant
                    i <= x,
                    row@.len() == i,
                    forall|k: int| 0 <= k < i ==> #[trigger] row@[k] == Maze2DCell::Empty,
                decreases x - i,
            {
                row.push(Maze2DCell::Empty);
                i = i + 1;
            }
            map.push(row);
            j = j + 1;
        }
        let r = Self { map };
        assert(forall|k: int| 0 <= k < y ==> (#[trigger] r@[k]).len() == x);
        r
    }

    /// `(width, height)`.
    pub fn dimensions(&self) -> (r: (usize, usize))
        ensures
            r.0 == grid_width(self@),
            r.1 == self@.len(),
    {
        if self.map.len() == 0 {
            return (0, 0);
        }
        (self.map[0].len(), self.map.len())
    }

    /// Whether a state lies on the grid.
    pub fn valid(&self, state: &Maze2DState) -> (r: bool)
        ensures
            r == grid_contains(self@, *state),
    {
        let (max_x, max_y) = self.dimensions();
        (state.x as usize) < max_x && (state.y as usize) < max_y
    }

    /// The cell at a state on the grid.
    fn at(&self, state: &Maze2DState) -> (r: Maze2DCell)
        requires
            self.wf(),
            grid_contains(self@, *state),
        ensures
            r == self@[state.y as int][state.x as int],
    {
        let row = &self.map[state.y as usize];
        assert(row@ == self@[state.y as int]);
        row[state.x as usize]
    }

    /// The grid supports drawing random states.
    pub fn supports_random_state() -> (r: bool)
        ensures
            r,
    {
        true
    }

    /// Where a move leads.
    pub fn apply(&self, state: &Maze2DState, action: &Maze2DAction) -> (r: Option<Maze2DState>)
        ensures
            r == spec_apply(*state, *action),
    {
        let x = state.x as i64;
        let y = state.y as i64;
        let (nx, ny): (i64, i64) = match action {
            Maze2DAction::Up => (x, y + 1),
            Maze2DAction::Down => (x, y - 1),
            Maze2DAction::Left => (x - 1, y),
            Maze2DAction::Right => (x + 1, y),
            Maze2DAction::LeftUp => (x - 1, y + 1),
            Maze2DAction::RightUp => (x + 1, y + 1),
            Maze2DAction::LeftDown => (x - 1, y - 1),
            Maze2DAction::RightDown => (x + 1, y - 1),
        };
        if 0 <= nx && nx < u32::MAX as i64 && 0 <= ny && ny < u32::MAX as i64 {
            Some(Maze2DState { x: nx as u32, y: ny as u32 })
        } else {
            None
        }
    }

    /// The cost of a move: 100 if orthogonal, 141 if diagonal.
    pub fn cost(&self, _s: &Maze2DState, a: &Maze2DAction) -> (r: Maze2DCost)
        ensures
            r == spec_cost(*a),
    {
        match a {
            Maze2DAction::Up | Maze2DAction::Down | Maze2DAction::Left | Maze2DAction::Right => {
                ORTHOGONAL_COST
            },
            _ => DIAGONAL_COST,
        }
    }

    /// The free cells one move away, with the move, in the order of `action_order`.
    pub fn neighbours(&self, state: &Maze2DState) -> (v: Vec<(Maze2DState, Maze2DAction)>)
        requires
            self.wf(),
        ensures
            v@.len() <= 8,
            forall|i: int, j: int| 0 <= i < j < v@.len() ==> v@[i].1 != v@[j].1,
            forall|k: int|
                0 <= k < v@.len() ==> {
                    &&& spec_apply(*state, (#[trigger] v@[k]).1) == Some(v@[k].0)
                    &&& grid_free(self@, v@[k].0)
                },
            forall|k: int|
                0 <= k < 8 ==> match spec_apply(*state, #[trigger] action_order()[k]) {
                    Some(t) => grid_free(self@, t) ==> exists|m: int|
                        0 <= m < v@.len() && (#[trigger] v@[m]).1 == action_order()[k],
                    None => true,
                },
    {
        let mut v: Vec<(Maze2DState, Maze2DAction)> = Vec::with_capacity(8);
        let actions: [Maze2DAction; 8] = [
            Maze2DAction::LeftDown,
            Maze2DAction::Left,
            Maze2DAction::LeftUp,
            Maze2DAction::Down,
            Maze2DAction::Up,
            Maze2DAction::RightDown,
            Maze2DAction::Right,
            Maze2DAction::RightUp,
        ];
        assert(actions@ =~= action_order());
        let mut k: usize = 0;
        while k < 8
            invariant
                k <= 8,
                actions@ == action_order(),
                v@.len() <= k,
                forall|j: int|
                    0 <= j < v@.len() ==> exists|idx: int|
                        0 <= idx < k && action_order()[idx] == (#[trigger] v@[j]).1,
                forall|i: int, j: int| 0 <= i < j < v@.len() ==> v@[i].1 != v@[j].1,
                self.wf(),
                forall|j: int|
                    0 <= j < v@.len() ==> {
                        &&& spec_apply(*state, (#[trigger] v@[j]).1) == Some(v@[j].0)
                        &&& grid_free(self@, v@[j].0)
                    },
                forall|j: int|
                    0 <= j < k ==> match spec_apply(*state, #[trigger] action_order()[j]) {
                        Some(t) => grid_free(self@, t) ==> exists|m: int|
                            0 <= m < v@.len() && (#[trigger] v@[m]).1 == action_order()[j],
                        None => true,
                    },
            decreases 8 - k,
        {
            let a = actions[k];
            let ghost old_v = v@;
            match self.apply(state, &a) {
                Some(s) => {
                    if self.valid(&s) && self.at(&s) == Maze2DCell::Empty {
                        proof {
                            lemma_action_order_distinct();
                            assert forall|j: int| 0 <= j < v@.len() implies v@[j].1 != a by {
                                let idx = choose|idx: int|
                                    0 <= idx < k && action_order()[idx] == v@[j].1;
                            }
                        }
                        v.push((s, a));
                        assert(v@[v@.len() - 1].1 == action_order()[k as int]);
                    }
                },
                None => {},
            }
            proof {
                assert forall|j: int| 0 <= j < k implies match spec_apply(
                    *state,
                    #[trigger] action_order()[j],
                ) {
                    Some(t) => grid_free(self@, t) ==> exists|m: int|
                        0 <= m < v@.len() && (#[trigger] v@[m]).1 == action_order()[j],
                    None => true,
                } by {
                    match spec_apply(*state, action_order()[j]) {
                        Some(t) => {
                            if grid_free(self@, t) {
                                let m = choose|m: int|
                                    0 <= m < old_v.len() && (#[trigger] old_v[m]).1
                                        == action_order()[j];
                                assert(v@[m] == old_v[m]);
                            }
                        },
                        None => {},
                    }
                }
            }
            k = k + 1;
        }
        v
    }
}

/// A grid with start and goal states.
#[derive(Clone, Debug)]
pub struct Maze2DProblem {
    pub space: Maze2DSpace,
    pub starts: Vec<Maze2DState>,
    pub goals: Vec<Maze2DState>,
}

/// The keys of all cells of a `w` by `h` grid, row by row.
pub open spec fn grid_keys(w: int, h: int) -> Seq<u64> {
    Seq::new(
        (w * h) as nat,
        |i: int| state_key(Maze2DState { x: (i % w) as u32, y: (i / w) as u32 }),
    )
}

/// The keys of a sequence of states.
pub open spec fn keys_of(states: Seq<Maze2DState>) -> Seq<u64> {
    states.map_values(|s: Maze2DState| state_key(s))
}

/// Every key that a search of the problem can file: the grid's cells and the starts.
pub open spec fn problem_universe(p: &Maze2DProblem) -> Set<u64> {
    (grid_keys(grid_width(p.space@), p.space@.len() as int) + keys_of(p.starts@)).to_set()
}

/// The grid's cells and the starts fit comfortably in memory indices.
pub open spec fn problem_size_ok(p: &Maze2DProblem) -> bool {
    grid_width(p.space@) * p.space@.len() + p.starts@.len() < usize::MAX / 16
}

/// Every cell of the grid and every start has its key in the universe, which is finite
/// and no larger than the cells and starts together.
pub proof fn lemma_problem_universe(p: &Maze2DProblem, s: Maze2DState)
    ensures
        problem_universe(p).finite(),
        problem_universe(p).len() <= grid_width(p.space@) * p.space@.len() + p.starts@.len(),
        grid_contains(p.space@, s) ==> problem_universe(p).contains(state_key(s)),
        p.starts@.contains(s) ==> problem_universe(p).contains(state_key(s)),
{
    let w = grid_width(p.space@);
    let h = p.space@.len() as int;
    let all = grid_keys(w, h) + keys_of(p.starts@);
    vstd::seq_lib::seq_to_set_is_finite(all);
    all.lemma_cardinality_of_set();
    assert(w * h >= 0) by (nonlinear_arith)
        requires
            w >= 0,
            h >= 0,
    ;
    if grid_contains(p.space@, s) {
        let x = s.x as int;
        let y = s.y as int;
        let i = y * w + x;
        assert(0 <= i < w * h) by (nonlinear_arith)
            requires
                0 <= x < w,
                0 <= y < h,
                i == y * w + x,
        ;
        vstd::arithmetic::div_mod::lemma_fundamental_div_mod_converse(i, w, y, x);
        assert(grid_keys(w, h)[i] == state_key(s));
        assert(all[i] == state_key(s));
    }
    if p.starts@.contains(s) {
        let j = choose|j: int| 0 <= j < p.starts@.len() && p.starts@[j] == s;
        assert(all[w * h + j] == state_key(s));
    }
}

impl Maze2DProblem {
    /// The grid.
    pub fn space(&self) -> (r: &Maze2DSpace)
        ensures
            r == &self.space,
    {
        &self.space
    }

    /// The start states.
    pub fn starts(&self) -> (r: &[Maze2DState])
        ensures
            r@ == self.starts@,
    {
        self.starts.as_slice()
    }

    /// The goal states.
    pub fn goals(&self) -> (r: &[Maze2DState])
        ensures
            r@ == self.goals@,
    {
        self.goals.as_slice()
    }

    /// A problem over a space, with no starts and no goals yet.
    pub fn from(space: Maze2DSpace) -> (r: Maze2DProblem)
        ensures
            r.space == space,
            r.starts@.len() == 0,
            r.goals@.len() == 0,
    {
        Maze2DProblem { space, starts: Vec::new(), goals: Vec::new() }
    }
}

/// Pushing `a` adds exactly `a` to what a sequence of states contains.
pub proof fn lemma_push_contains(s: Seq<Maze2DState>, a: Maze2DState, b: Maze2DState)
    ensures
        s.push(a).contains(b) <==> (s.contains(b) || a == b),
{
    if s.contains(b) {
        let i = choose|i: int| 0 <= i < s.len() && s[i] == b;
        assert(s.push(a)[i] == b);
    }
    if a == b {
        assert(s.push(a)[s.len() as int] == b);
    }
    if s.push(a).contains(b) {
        let i = choose|i: int| 0 <= i < s.push(a).len() && s.push(a)[i] == b;
        if i < s.len() {
            assert(s[i] == b);
        }
    }
}

/// A heuristic between two states of the grid.
pub trait ObjectiveHeuristic {
    spec fn spec_h(a: Maze2DState, b: Maze2DState) -> u32;

    fn h(a: &Maze2DState, b: &Maze2DState) -> (r: Maze2DCost)
        ensures
            r == Self::spec_h(*a, *b),
    ;
}

/// `|a - b|`.
pub open spec fn abs_diff(a: u32, b: u32) -> int {
    if a <= b {
        b - a
    } else {
        a - b
    }
}

/// `v` if it fits in 32 bits, else `u32::MAX`.
pub open spec fn clamp_u32(v: int) -> u32 {
    if v <= u32::MAX {
        v as u32
    } else {
        u32::MAX
    }
}

fn abs_diff_u32(a: u32, b: u32) -> (r: u32)
    ensures
        r == abs_diff(a, b),
{
    if a <= b {
        b - a
    } else {
        a - b
    }
}

/// Cost of straight orthogonal moves, ignoring walls.
#[derive(Copy, Clone, Debug)]
pub struct Maze2DHeuristicManhattanDistance;

impl ObjectiveHeuristic for Maze2DHeuristicManhattanDistance {
    open spec fn spec_h(a: Maze2DState, b: Maze2DState) -> u32 {
        clamp_u32((abs_diff(a.x, b.x) + abs_diff(a.y, b.y)) * ORTHOGONAL_COST)
    }

    fn h(a: &Maze2DState, b: &Maze2DState) -> (r: Maze2DCost) {
        let dx = abs_diff_u32(a.x, b.x) as u64;
        let dy = abs_diff_u32(a.y, b.y) as u64;
        let total: u64 = (dx + dy) * 100;
        if total <= u32::MAX as u64 {
            total as u32
        } else {
            u32::MAX
        }
    }
}

/// Cost of taking every useful diagonal and then going straight, ignoring walls.
#[derive(Copy, Clone, Debug)]
pub struct Maze2DHeuristicDiagonalDistance;

/// The diagonal distance between two states, before clamping.
pub open spec fn diagonal_distance(a: Maze2DState, b: Maze2DState) -> int {
    let dx = abs_diff(a.x, b.x);
    let dy = abs_diff(a.y, b.y);
    let lo = if dx <= dy {
        dx
    } else {
        dy
    };
    let hi = if dx <= dy {
        dy
    } else {
        dx
    };
    lo * DIAGONAL_COST + (hi - lo) * ORTHOGONAL_COST
}

impl ObjectiveHeuristic for Maze2DHeuristicDiagonalDistance {
    open spec fn spec_h(a: Maze2DState, b: Maze2DState) -> u32 {
        clamp_u32(diagonal_distance(a, b))
    }

    fn h(a: &Maze2DState, b: &Maze2DState) -> (r: Maze2DCost) {
        let dx = abs_diff_u32(a.x, b.x) as u64;
        let dy = abs_diff_u32(a.y, b.y) as u64;
        let (lo, hi) = if dx <= dy {
            (dx, dy)
        } else {
            (dy, dx)
        };
        let total: u64 = lo * 141 + (hi - lo) * 100;
        if total <= u32::MAX as u64 {
            total as u32
        } else {
            u32::MAX
        }
    }
}

} // verus!
