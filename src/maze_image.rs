//! Grid problems drawn as pictures: black pixels are walls, green pixels
//! goals, blue pixels starts, and every other pixel an empty cell.
use vstd::prelude::*;

use crate::maze_2d::coord_ok;
use crate::maze_2d::grid_wf;
use crate::maze_2d::grid_width;
use crate::maze_2d::lemma_push_contains;
use crate::maze_2d::Maze2DCell;
use crate::maze_2d::Maze2DProblem;
use crate::maze_2d::Maze2DSpace;
use crate::maze_2d::Maze2DState;

verus! {

/// What a pixel stands for.
pub enum PixelKind {
    Wall,
    Empty,
    Start,
    Goal,
}

pub open spec fn pixel_kind(p: [u8; 3]) -> PixelKind {
    if p@ == seq![0u8, 0u8, 0u8] {
        PixelKind::Wall
    } else if p@ == seq![0u8, 255u8, 0u8] {
        PixelKind::Goal
    } else if p@ == seq![0u8, 0u8, 255u8] {
        PixelKind::Start
    } else {
        PixelKind::Empty
    }
}

fn kind_of(p: &[u8; 3]) -> (r: PixelKind)
    ensures
        r == pixel_kind(*p),
{
    let (a, b, c) = (p[0], p[1], p[2]);
    proof {
        assert(p@.len() == 3);
        assert(p@ == seq![0u8, 0u8, 0u8] <==> (a == 0 && b == 0 && c == 0)) by {
            if a == 0 && b == 0 && c == 0 {
                assert(p@ =~= seq![0u8, 0u8, 0u8]);
            }
        }
        assert(p@ == seq![0u8, 255u8, 0u8] <==> (a == 0 && b == 255 && c == 0)) by {
            if a == 0 && b == 255 && c == 0 {
                assert(p@ =~= seq![0u8, 255u8, 0u8]);
            }
        }
        assert(p@ == seq![0u8, 0u8, 255u8] <==> (a == 0 && b == 0 && c == 255)) by {
            if a == 0 && b == 0 && c == 255 {
                assert(p@ =~= seq![0u8, 0u8, 255u8]);
            }
        }
    }
    if a == 0 && b == 0 && c == 0 {
        PixelKind::Wall
    } else if a == 0 && b == 255 && c == 0 {
        PixelKind::Goal
    } else if a == 0 && b == 0 && c == 255 {
        PixelKind::Start
    } else {
        PixelKind::Empty
    }
}

/// The pixel of a picture stored row by row, `width` pixels per row.
pub open spec fn pixel_at(pixels: Seq<[u8; 3]>, width: int, x: int, y: int) -> [u8; 3] {
    pixels[y * width + x]
}

impl Maze2DProblem {
    /// Reads a problem from a picture of `width` by `height` pixels, given row
    /// by row; row `y` of the picture is row `y` of the grid.
    pub fn from_pixels(width: usize, height: usize, pixels: &[[u8; 3]]) -> (r: Maze2DProblem)
        requires
            pixels@.len() == width * height,
            coord_ok(width as int),
            coord_ok(height as int),
            width > 0,
        ensures
            r.space.wf(),
            r.space@.len() == height,
            height > 0 ==> grid_width(r.space@) == width,
            forall|x: int, y: int|
                0 <= x < width && 0 <= y < height ==> #[trigger] r.space@[y][x] == if pixel_kind(
                    pixel_at(pixels@, width as int, x, y),
                ) == PixelKind::Wall {
                    Maze2DCell::Wall
                } else {
                    Maze2DCell::Empty
                },
            forall|s: Maze2DState|
                r.starts@.contains(s) <==> (s.x < width && s.y < height && pixel_kind(
                    pixel_at(pixels@, width as int, s.x as int, s.y as int),
                ) == PixelKind::Start),
            forall|s: Maze2DState|
                r.goals@.contains(s) <==> (s.x < width && s.y < height && pixel_kind(
                    pixel_at(pixels@, width as int, s.x as int, s.y as int),
                ) == PixelKind::Goal),
    {
        let n = pixels.len();
        let mut map: Vec<Vec<Maze2DCell>> = Vec::new();
        let mut starts: Vec<Maze2DState> = Vec::new();
        let mut goals: Vec<Maze2DState> = Vec::new();
        let mut y: usize = 0;
        while y < height
            invariant
                y <= height,
                pixels@.len() == width * height,
                n == pixels@.len(),
                coord_ok(width as int),
                coord_ok(height as int),
                width > 0,
                map@.len() == y,
                forall|k: int| 0 <= k < y ==> (#[trigger] map@[k])@.len() == width,
                forall|i: int, k: int|
                    0 <= i < width && 0 <= k < y ==> #[trigger] map@[k]@[i] == if pixel_kind(
                        pixel_at(pixels@, width as int, i, k),
                    ) == PixelKind::Wall {
                        Maze2DCell::Wall
                    } else {
                        Maze2DCell::Empty
                    },
                forall|s: Maze2DState|
                    starts@.contains(s) <==> (s.x < width && s.y < y && pixel_kind(
                        pixel_at(pixels@, width as int, s.x as int, s.y as int),
                    ) == PixelKind::Start),
                forall|s: Maze2DState|
                    goals@.contains(s) <==> (s.x < width && s.y < y && pixel_kind(
                        pixel_at(pixels@, width as int, s.x as int, s.y as int),
                    ) == PixelKind::Goal),
            decreases height - y,
        {
            let mut row: Vec<Maze2DCell> = Vec::new();
            let mut x: usize = 0;
            while x < width
                invariant
                    x <= width,
                    y < height,
                    pixels@.len() == width * height,
                    n == pixels@.len(),
                    coord_ok(width as int),
                    coord_ok(height as int),
                    row@.len() == x,
                    forall|i: int|
                        0 <= i < x ==> #[trigger] row@[i] == if pixel_kind(
                            pixel_at(pixels@, width as int, i, y as int),
                        ) == PixelKind::Wall {
                            Maze2DCell::Wall
                        } else {
                            Maze2DCell::Empty
                        },
                    forall|s: Maze2DState|
                        starts@.contains(s) <==> (s.x < width && (s.y < y || (s.y == y && s.x < x))
                            && pixel_kind(pixel_at(pixels@, width as int, s.x as int, s.y as int))
                            == PixelKind::Start),
                    forall|s: Maze2DState|
                        goals@.contains(s) <==> (s.x < width && (s.y < y || (s.y == y && s.x < x))
                            && pixel_kind(pixel_at(pixels@, width as int, s.x as int, s.y as int))
                            == PixelKind::Goal),
                decreases width - x,
            {
                proof {
                    assert(y * width + x < width * height) by (nonlinear_arith)
                        requires
                            x < width,
                            y < height,
                    ;
                    assert(y * width <= y * width + x);
                }
                let idx = y * width + x;
                let here = Maze2DState { x: x as u32, y: y as u32 };
                match kind_of(&pixels[idx]) {
                    PixelKind::Wall => {
                        row.push(Maze2DCell::Wall);
                    },
                    PixelKind::Empty => {
                        row.push(Maze2DCell::Empty);
                    },
                    PixelKind::Start => {
                        row.push(Maze2DCell::Empty);
                        proof {
                            assert forall|s: Maze2DState| #[trigger]
                                starts@.push(here).contains(s) <==> (s.x < width && (s.y < y || (
                                s.y == y && s.x < x + 1)) && pixel_kind(
                                pixel_at(pixels@, width as int, s.x as int, s.y as int),
                            ) == PixelKind::Start) by {
                                lemma_push_contains(starts@, here, s);
                            }
                        }
                        starts.push(here);
                    },
                    PixelKind::Goal => {
                        row.push(Maze2DCell::Empty);
                        proof {
                            assert forall|s: Maze2DState| #[trigger]
                                goals@.push(here).contains(s) <==> (s.x < width && (s.y < y || (
                                s.y == y && s.x < x + 1)) && pixel_kind(
                                pixel_at(pixels@, width as int, s.x as int, s.y as int),
                            ) == PixelKind::Goal) by {
                                lemma_push_contains(goals@, here, s);
                            }
                        }
                        goals.push(here);
                    },
                }
                x = x + 1;
            }
            map.push(row);
            y = y + 1;
        }
        let space = Maze2DSpace { map };
        proof {
            assert(grid_wf(space@));
        }
        Maze2DProblem { space, starts, goals }
    }
}

} // verus!
