//! Grid problems written as text: one line per row, `S` for a start, `G` for
//! a goal, `' '` or `'.'` for an empty cell, `'#'` or `'█'` for a wall.
use vstd::prelude::*;
use vstd::std_specs::iter::IteratorSpec;

use crate::maze_2d::coord_ok;
use crate::maze_2d::grid_contains;
use crate::maze_2d::grid_wf;
use crate::maze_2d::grid_width;
use crate::maze_2d::lemma_push_contains;
use crate::maze_2d::spec_cell_of;
use crate::maze_2d::Maze2DCell;
use crate::maze_2d::Maze2DCellParseError;
use crate::maze_2d::Maze2DProblem;
use crate::maze_2d::Maze2DSpace;
use crate::maze_2d::Maze2DState;

verus! {

/// What a character of a problem stands for.
#[derive(Copy, Clone, Debug, PartialEq, Eq, Structural)]
pub enum Maze2DProblemCell {
    Cell(Maze2DCell),
    Start,
    Goal,
}

/// A character that stands for nothing in a problem.
#[derive(Copy, Clone, Debug, PartialEq, Eq, Structural)]
pub enum Maze2DProblemCellParseError {
    InvalidCell { e: Maze2DCellParseError },
}

/// Why a text is not a problem.
#[derive(Copy, Clone, Debug, PartialEq, Eq, Structural)]
pub enum Maze2DProblemParseError {
    /// No line, or an empty first line.
    EmptyInput,
    /// A character at `(x, y)` that stands for nothing.
    InvalidCell { e: Maze2DProblemCellParseError, x: usize, y: usize },
    /// Row `y` is longer than the first row.
    LineTooLong { y: usize },
}

/// What a character stands for, if anything.
pub open spec fn spec_problem_cell_of(ch: char) -> Option<Maze2DProblemCell> {
    if ch == 'S' {
        Some(Maze2DProblemCell::Start)
    } else if ch == 'G' {
        Some(Maze2DProblemCell::Goal)
    } else {
        match spec_cell_of(ch) {
            Some(c) => Some(Maze2DProblemCell::Cell(c)),
            None => None,
        }
    }
}

/// The grid cell under a character: starts and goals lie on empty cells.
pub open spec fn spec_grid_cell_of(ch: char) -> Maze2DCell {
    match spec_problem_cell_of(ch) {
        Some(Maze2DProblemCell::Cell(c)) => c,
        _ => Maze2DCell::Empty,
    }
}

impl Maze2DProblemCell {
    pub fn try_from(ch: char) -> (r: Result<Maze2DProblemCell, Maze2DProblemCellParseError>)
        ensures
            match spec_problem_cell_of(ch) {
                Some(c) => r == Ok::<Maze2DProblemCell, Maze2DProblemCellParseError>(c),
                None => r == Err::<Maze2DProblemCell, Maze2DProblemCellParseError>(
                    Maze2DProblemCellParseError::InvalidCell {
                        e: Maze2DCellParseError::InvalidCharacter(ch),
                    },
                ),
            },
    {
        if ch == 'S' {
            Ok(Maze2DProblemCell::Start)
        } else if ch == 'G' {
            Ok(Maze2DProblemCell::Goal)
        } else {
            match Maze2DCell::try_from(ch) {
                Ok(c) => Ok(Maze2DProblemCell::Cell(c)),
                Err(e) => Err(Maze2DProblemCellParseError::InvalidCell { e }),
            }
        }
    }
}

/// The pieces of a text between line feeds; always one more than the line feeds.
pub open spec fn split_pieces(t: Seq<char>) -> Seq<Seq<char>>
    decreases t.len(),
{
    if t.len() == 0 {
        seq![Seq::<char>::empty()]
    } else if t.last() == '\n' {
        split_pieces(t.drop_last()).push(Seq::<char>::empty())
    } else {
        let p = split_pieces(t.drop_last());
        p.update(p.len() - 1, p.last().push(t.last()))
    }
}

/// A line without its carriage return, if it ends with one.
pub open spec fn strip_cr(l: Seq<char>) -> Seq<char> {
    if l.len() > 0 && l.last() == '\r' {
        l.drop_last()
    } else {
        l
    }
}

/// The lines of a text: the pieces between line feeds, without a last empty
/// piece, each without a final carriage return.
pub open spec fn text_lines(t: Seq<char>) -> Seq<Seq<char>> {
    let p = split_pieces(t);
    let q = if p.last().len() == 0 {
        p.drop_last()
    } else {
        p
    };
    q.map_values(|l: Seq<char>| strip_cr(l))
}

/// A row that fits the width and holds only meaningful characters.
pub open spec fn row_ok(line: Seq<char>, w: int) -> bool {
    &&& line.len() <= w
    &&& forall|x: int| 0 <= x < line.len() ==> (#[trigger] spec_problem_cell_of(line[x])) is Some
}

/// The character at `(x, y)` of the lines, if there is one.
pub open spec fn char_at(lines: Seq<Seq<char>>, x: int, y: int) -> Option<char> {
    if 0 <= y < lines.len() && 0 <= x < lines[y].len() {
        Some(lines[y][x])
    } else {
        None
    }
}

proof fn lemma_split_nonempty(t: Seq<char>)
    ensures
        split_pieces(t).len() >= 1,
    decreases t.len(),
{
    if t.len() > 0 {
        lemma_split_nonempty(t.drop_last());
    }
}

/// The characters of a string, in order.
pub(crate) fn chars_of(s: &str) -> (r: Vec<char>)
    ensures
        r@ == s@,
{
    broadcast use vstd::string::axiom_spec_iter, vstd::string::next_postcondition;

    let mut it = s.chars();
    let mut v: Vec<char> = Vec::new();
    loop
        invariant
            v@ + it.remaining() == s@,
            it.decrease() is Some,
        ensures
            v@ == s@,
        decreases it.decrease()->0,
    {
        let ghost before = it.remaining();
        match it.next() {
            Some(c) => {
                proof {
                    assert(v@.push(c) + it.remaining() =~= v@ + before);
                }
                v.push(c);
            },
            None => {
                proof {
                    assert(v@ + it.remaining() =~= v@);
                    assert(v@ == s@);
                }
                break;
            },
        }
    }
    v
}

/// Splits characters into lines as `text_lines` says.
fn lines_of(t: &Vec<char>) -> (r: Vec<Vec<char>>)
    ensures
        r@.len() == text_lines(t@).len(),
        forall|y: int| 0 <= y < r@.len() ==> (#[trigger] r@[y])@ == text_lines(t@)[y],
{
    let mut done: Vec<Vec<char>> = Vec::new();
    let mut cur: Vec<char> = Vec::new();
    let mut i: usize = 0;
    while i < t.len()
        invariant
            i <= t@.len(),
            split_pieces(t@.subrange(0, i as int)).len() == done@.len() + 1,
            forall|y: int|
                0 <= y < done@.len() ==> (#[trigger] done@[y])@ == split_pieces(
                    t@.subrange(0, i as int),
                )[y],
            cur@ == split_pieces(t@.subrange(0, i as int)).last(),
        decreases t@.len() - i,
    {
        let c = t[i];
        let ghost prev = t@.subrange(0, i as int);
        proof {
            assert(t@.subrange(0, i + 1).drop_last() =~= prev);
            lemma_split_nonempty(prev);
        }
        if c == '\n' {
            let line = cur;
            done.push(line);
            cur = Vec::new();
            proof {
                assert(cur@ =~= Seq::<char>::empty());
            }
        } else {
            cur.push(c);
        }
        i = i + 1;
    }
    proof {
        assert(t@.subrange(0, t@.len() as int) =~= t@);
    }
    if cur.len() > 0 {
        done.push(cur);
    }
    let ghost q = if split_pieces(t@).last().len() == 0 {
        split_pieces(t@).drop_last()
    } else {
        split_pieces(t@)
    };
    proof {
        assert(done@.len() == q.len());
        assert forall|y: int| 0 <= y < done@.len() implies (#[trigger] done@[y])@ == q[y] by {}
    }
    let mut r: Vec<Vec<char>> = Vec::new();
    let mut y: usize = 0;
    while y < done.len()
        invariant
            y <= done@.len(),
            done@.len() == q.len(),
            forall|k: int| 0 <= k < done@.len() ==> (#[trigger] done@[k])@ == q[k],
            r@.len() == y,
            forall|k: int| 0 <= k < y ==> (#[trigger] r@[k])@ == strip_cr(q[k]),
        decreases done@.len() - y,
    {
        let line = &done[y];
        let n = line.len();
        let mut out: Vec<char> = Vec::new();
        let keep = if n > 0 && line[n - 1] == '\r' {
            n - 1
        } else {
            n
        };
        let mut x: usize = 0;
        while x < keep
            invariant
                x <= keep <= n,
                n == line@.len(),
                out@ == line@.subrange(0, x as int),
            decreases keep - x,
        {
            out.push(line[x]);
            proof {
                assert(out@ =~= line@.subrange(0, x + 1));
            }
            x = x + 1;
        }
        proof {
            assert(out@ =~= strip_cr(line@));
        }
        r.push(out);
        y = y + 1;
    }
    proof {
        assert(text_lines(t@) =~= q.map_values(|l: Seq<char>| strip_cr(l)));
    }
    r
}

/// What reading text `t` gives: the error for the first fault in reading
/// order, or the problem that the text draws.
pub open spec fn parse_outcome(t: Seq<char>, r: Result<Maze2DProblem, Maze2DProblemParseError>) -> bool {
        let lines = text_lines(t);
        let w = if lines.len() == 0 {
            0
        } else {
            lines[0].len() as int
        };
        match r {
            Err(Maze2DProblemParseError::EmptyInput) => lines.len() == 0 || w == 0,
            Err(Maze2DProblemParseError::LineTooLong { y }) => {
                &&& w > 0
                &&& y < lines.len()
                &&& lines[y as int].len() > w
                &&& forall|k: int| 0 <= k < y ==> row_ok(#[trigger] lines[k], w)
            },
            Err(Maze2DProblemParseError::InvalidCell { e, x, y }) => {
                &&& w > 0
                &&& y < lines.len()
                &&& lines[y as int].len() <= w
                &&& x < lines[y as int].len()
                &&& spec_problem_cell_of(lines[y as int][x as int]) is None
                &&& e == Maze2DProblemCellParseError::InvalidCell {
                    e: Maze2DCellParseError::InvalidCharacter(lines[y as int][x as int]),
                }
                &&& forall|k: int| 0 <= k < y ==> row_ok(#[trigger] lines[k], w)
                &&& forall|j: int|
                    0 <= j < x ==> (#[trigger] spec_problem_cell_of(
                        lines[y as int][j],
                    )) is Some
            },
            Ok(p) => {
                &&& w > 0
                &&& forall|k: int| 0 <= k < lines.len() ==> row_ok(#[trigger] lines[k], w)
                &&& p.space.wf()
                &&& grid_width(p.space@) == w
                &&& p.space@.len() == lines.len()
                &&& forall|x: int, y: int|
                    0 <= y < lines.len() && 0 <= x < w ==> #[trigger] p.space@[y][x]
                        == match char_at(lines, x, y) {
                        Some(c) => spec_grid_cell_of(c),
                        None => Maze2DCell::Empty,
                    }
                &&& forall|st: Maze2DState|
                    p.starts@.contains(st) <==> char_at(lines, st.x as int, st.y as int)
                        == Some('S')
                &&& forall|st: Maze2DState|
                    p.goals@.contains(st) <==> char_at(lines, st.x as int, st.y as int)
                        == Some('G')
            },
        }
}

impl Maze2DProblem {
    /// Reads a problem from text: row `y` is line `y`, and the grid is as
    /// wide as the first line. Starts and goals lie on empty cells, and are
    /// listed in reading order.
    pub fn try_from(s: &str) -> (r: Result<Maze2DProblem, Maze2DProblemParseError>)
        requires
            s@.len() + 1 < u32::MAX,
        ensures
            parse_outcome(s@, r),
    {
        let chars = chars_of(s);
        let lines = lines_of(&chars);
        let ghost tl = text_lines(s@);
        if lines.len() == 0 {
            return Err(Maze2DProblemParseError::EmptyInput);
        }
        if lines[0].len() == 0 {
            return Err(Maze2DProblemParseError::EmptyInput);
        }
        let max_x = lines[0].len();
        let max_y = lines.len();
        proof {
            assert(lines@[0]@ == tl[0]);
            lemma_text_lines_len(s@);
        }
        let mut map: Vec<Vec<Maze2DCell>> = Vec::new();
        let mut starts: Vec<Maze2DState> = Vec::new();
        let mut goals: Vec<Maze2DState> = Vec::new();
        let mut y: usize = 0;
        while y < max_y
            invariant
                y <= max_y,
                tl == text_lines(s@),
                max_y == lines@.len(),
                max_y == tl.len(),
                max_x == tl[0].len(),
                max_x > 0,
                coord_ok(max_x as int),
                coord_ok(max_y as int),
                forall|k: int| 0 <= k < lines@.len() ==> (#[trigger] lines@[k])@ == tl[k],
                forall|k: int| 0 <= k < y ==> row_ok(#[trigger] tl[k], max_x as int),
                map@.len() == y,
                forall|k: int| 0 <= k < y ==> (#[trigger] map@[k])@.len() == max_x,
                forall|i: int, k: int|
                    0 <= k < y && 0 <= i < max_x ==> #[trigger] map@[k]@[i] == match char_at(
                        tl,
                        i,
                        k,
                    ) {
                        Some(c) => spec_grid_cell_of(c),
                        None => Maze2DCell::Empty,
                    },
                forall|st: Maze2DState|
                    starts@.contains(st) <==> (st.y < y && char_at(tl, st.x as int, st.y as int)
                        == Some('S')),
                forall|st: Maze2DState|
                    goals@.contains(st) <==> (st.y < y && char_at(tl, st.x as int, st.y as int)
                        == Some('G')),
            decreases max_y - y,
        {
            let line = &lines[y];
            if line.len() > max_x {
                proof {
                    assert(tl[y as int].len() > max_x);
                    assert(max_x == tl[0].len());
                    assert(forall|k: int| 0 <= k < y ==> row_ok(#[trigger] tl[k], tl[0].len() as int));
                    assert(parse_outcome(s@, Err(Maze2DProblemParseError::LineTooLong { y })));
                }
                return Err(Maze2DProblemParseError::LineTooLong { y });
            }
            let mut row: Vec<Maze2DCell> = Vec::new();
            let mut x: usize = 0;
            while x < max_x
                invariant
                    x <= max_x,
                    y < max_y,
                    tl == text_lines(s@),
                    max_x == tl[0].len(),
                    max_x > 0,
                    forall|k: int| 0 <= k < y ==> row_ok(#[trigger] tl[k], max_x as int),
                    max_y == tl.len(),
                    coord_ok(max_x as int),
                    coord_ok(max_y as int),
                    line@ == tl[y as int],
                    line@.len() <= max_x,
                    row@.len() == x,
                    forall|j: int| 0 <= j < x && j < line@.len() ==> (#[trigger] spec_problem_cell_of(
                        line@[j],
                    )) is Some,
                    forall|i: int|
                        0 <= i < x ==> #[trigger] row@[i] == match char_at(tl, i, y as int) {
                            Some(c) => spec_grid_cell_of(c),
                            None => Maze2DCell::Empty,
                        },
                    forall|st: Maze2DState|
                        starts@.contains(st) <==> ((st.y < y || (st.y == y && st.x < x)) && char_at(
                            tl,
                            st.x as int,
                            st.y as int,
                        ) == Some('S')),
                    forall|st: Maze2DState|
                        goals@.contains(st) <==> ((st.y < y || (st.y == y && st.x < x)) && char_at(
                            tl,
                            st.x as int,
                            st.y as int,
                        ) == Some('G')),
                decreases max_x - x,
            {
                if x < line.len() {
                    let ch = line[x];
                    let here = Maze2DState { x: x as u32, y: y as u32 };
                    match Maze2DProblemCell::try_from(ch) {
                        Err(e) => {
                            return Err(Maze2DProblemParseError::InvalidCell { e, x, y });
                        },
                        Ok(Maze2DProblemCell::Start) => {
                            row.push(Maze2DCell::Empty);
                            proof {
                                assert forall|st: Maze2DState| #[trigger]
                                    starts@.push(here).contains(st) <==> ((st.y < y || (st.y == y
                                        && st.x < x + 1)) && char_at(tl, st.x as int, st.y as int)
                                        == Some('S')) by {
                                    lemma_push_contains(starts@, here, st);
                                }
                            }
                            starts.push(here);
                        },
                        Ok(Maze2DProblemCell::Goal) => {
                            row.push(Maze2DCell::Empty);
                            proof {
                                assert forall|st: Maze2DState| #[trigger]
                                    goals@.push(here).contains(st) <==> ((st.y < y || (st.y == y
                                        && st.x < x + 1)) && char_at(tl, st.x as int, st.y as int)
                                        == Some('G')) by {
                                    lemma_push_contains(goals@, here, st);
                                }
                            }
                            goals.push(here);
                        },
                        Ok(Maze2DProblemCell::Cell(c)) => {
                            row.push(c);
                        },
                    }
                } else {
                    row.push(Maze2DCell::Empty);
                }
                x = x + 1;
            }
            map.push(row);
            y = y + 1;
        }
        let space = Maze2DSpace { map };
        proof {
            assert(grid_width(space@) == max_x);
            assert(grid_wf(space@));
            assert forall|st: Maze2DState| #[trigger] starts@.contains(st) implies grid_contains(
                space@,
                st,
            ) by {}
        }
        Ok(Maze2DProblem { space, starts, goals })
    }
}

proof fn lemma_text_lines_len(t: Seq<char>)
    ensures
        text_lines(t).len() <= t.len() + 1,
        forall|k: int| 0 <= k < text_lines(t).len() ==> (#[trigger] text_lines(t)[k]).len() <= t.len(),
{
    lemma_split_len(t);
}

proof fn lemma_split_len(t: Seq<char>)
    ensures
        split_pieces(t).len() <= t.len() + 1,
        split_pieces(t).len() >= 1,
        forall|k: int| 0 <= k < split_pieces(t).len() ==> (#[trigger] split_pieces(t)[k]).len() <= t.len(),
    decreases t.len(),
{
    if t.len() > 0 {
        lemma_split_len(t.drop_last());
    }
}

} // verus!
