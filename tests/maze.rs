use rand::SeedableRng;
use search::maze_2d::Maze2DAction;
use search::space::Space;
use search::maze_random::place_state;
use search::maze_2d::Maze2DCell;
use search::maze_2d::Maze2DCellParseError;
use search::maze_2d::Maze2DHeuristicDiagonalDistance;
use search::maze_2d::Maze2DHeuristicManhattanDistance;
use search::maze_2d::Maze2DProblem;
use search::maze_2d::Maze2DSpace;
use search::maze_2d::Maze2DState;
use search::maze_2d::ObjectiveHeuristic;
use search::maze_text::Maze2DProblemCellParseError;
use search::maze_text::Maze2DProblemParseError;

fn st(x: u32, y: u32) -> Maze2DState {
    Maze2DState::new(x, y).unwrap()
}

#[test]
fn apply_moves_and_bounds() {
    let space = Maze2DSpace::new_empty_with_dimensions(3, 3);
    assert_eq!(space.apply(&st(0, 0), &Maze2DAction::Up), Some(st(0, 1)));
    assert_eq!(space.apply(&st(0, 0), &Maze2DAction::Left), None);
    assert_eq!(space.apply(&st(0, 0), &Maze2DAction::Down), None);
    assert_eq!(space.apply(&st(1, 1), &Maze2DAction::RightDown), Some(st(2, 0)));
    assert_eq!(space.apply(&st(1, 1), &Maze2DAction::LeftUp), Some(st(0, 2)));
    assert_eq!(space.cost(&st(1, 1), &Maze2DAction::Up), 100);
    assert_eq!(space.cost(&st(1, 1), &Maze2DAction::RightUp), 141);
    assert_eq!(space.dimensions(), (3, 3));
    assert!(space.valid(&st(2, 2)));
    assert!(!space.valid(&st(3, 0)));
}

#[test]
fn neighbours_skip_walls_and_edges() {
    let p = Maze2DProblem::try_from("S#.\n...\n").unwrap();
    let n = p.space.neighbours(&st(0, 0));
    // (1,0) is a wall; only (0,1) and (1,1) remain.
    assert_eq!(n, vec![(st(0, 1), Maze2DAction::Up), (st(1, 1), Maze2DAction::RightUp)]);
    let all = p.space.neighbours(&st(1, 1));
    assert_eq!(all.len(), 4);
}

#[test]
fn heuristics_values() {
    assert_eq!(Maze2DHeuristicManhattanDistance::h(&st(0, 0), &st(3, 4)), 700);
    assert_eq!(Maze2DHeuristicManhattanDistance::h(&st(3, 4), &st(0, 0)), 700);
    assert_eq!(Maze2DHeuristicDiagonalDistance::h(&st(0, 0), &st(3, 4)), 523);
    assert_eq!(Maze2DHeuristicDiagonalDistance::h(&st(5, 5), &st(5, 5)), 0);
    assert_eq!(Maze2DHeuristicDiagonalDistance::h(&st(0, 0), &st(100, 100)), 14100);
}

#[test]
fn state_constructors() {
    assert_eq!(Maze2DState::new(u32::MAX, 0), None);
    assert_eq!(Maze2DState::new_from_usize(3, 4), Some(st(3, 4)));
    assert_eq!(Maze2DState::new_from_usize(u32::MAX as usize, 4), None);
    assert_eq!(Maze2DState::new_from_small_usize(7, 8), st(7, 8));
    assert!(Maze2DState::safe_dimensions(10, 10));
    assert!(!Maze2DState::safe_dimensions(u32::MAX as usize, 10));
    assert_eq!(Maze2DState::default(), st(0, 0));
    assert!(Maze2DSpace::supports_random_state());
}

#[test]
fn cells_from_characters() {
    assert_eq!(Maze2DCell::try_from('.'), Ok(Maze2DCell::Empty));
    assert_eq!(Maze2DCell::try_from(' '), Ok(Maze2DCell::Empty));
    assert_eq!(Maze2DCell::try_from('#'), Ok(Maze2DCell::Wall));
    assert_eq!(Maze2DCell::try_from('\u{2588}'), Ok(Maze2DCell::Wall));
    assert_eq!(
        Maze2DCell::try_from('x'),
        Err(Maze2DCellParseError::InvalidCharacter('x'))
    );
}

#[test]
fn problem_from_text() {
    let p = Maze2DProblem::try_from("S.#\r\n.G\u{2588}\n").unwrap();
    assert_eq!(p.space.dimensions(), (3, 2));
    assert_eq!(p.starts, vec![st(0, 0)]);
    assert_eq!(p.goals, vec![st(1, 1)]);
    assert_eq!(p.space.map[0], vec![Maze2DCell::Empty, Maze2DCell::Empty, Maze2DCell::Wall]);
    assert_eq!(p.space.map[1], vec![Maze2DCell::Empty, Maze2DCell::Empty, Maze2DCell::Wall]);
    // A short row is padded with empty cells.
    let q = Maze2DProblem::try_from("S..\n.\n..G").unwrap();
    assert_eq!(q.space.map[1], vec![Maze2DCell::Empty; 3]);
    assert_eq!(q.goals, vec![st(2, 2)]);
}

#[test]
fn problem_text_errors() {
    assert_eq!(Maze2DProblem::try_from("").unwrap_err(), Maze2DProblemParseError::EmptyInput);
    assert_eq!(
        Maze2DProblem::try_from("\n..").unwrap_err(),
        Maze2DProblemParseError::EmptyInput
    );
    assert_eq!(
        Maze2DProblem::try_from("..\n..x\n").unwrap_err(),
        Maze2DProblemParseError::LineTooLong { y: 1 }
    );
    assert_eq!(
        Maze2DProblem::try_from("...\n.x.\n").unwrap_err(),
        Maze2DProblemParseError::InvalidCell {
            e: Maze2DProblemCellParseError::InvalidCell {
                e: Maze2DCellParseError::InvalidCharacter('x')
            },
            x: 1,
            y: 1
        }
    );
}

#[test]
fn problem_from_pixels() {
    let black = [0u8, 0, 0];
    let white = [255u8, 255, 255];
    let green = [0u8, 255, 0];
    let blue = [0u8, 0, 255];
    let red = [255u8, 0, 0];
    let pixels = vec![blue, black, white, red, white, green];
    let p = Maze2DProblem::from_pixels(3, 2, &pixels);
    assert_eq!(p.space.dimensions(), (3, 2));
    assert_eq!(p.starts, vec![st(0, 0)]);
    assert_eq!(p.goals, vec![st(2, 1)]);
    assert_eq!(p.space.map[0], vec![Maze2DCell::Empty, Maze2DCell::Wall, Maze2DCell::Empty]);
    assert_eq!(p.space.map[1], vec![Maze2DCell::Empty; 3]);
}

#[test]
fn random_states_are_empty_cells() {
    let p = Maze2DProblem::try_from("#.#\n#.#\n###").unwrap();
    let mut r = rand_chacha::ChaCha8Rng::seed_from_u64(7);
    for _ in 0..20 {
        let s = p.space.random_state(&mut r).unwrap();
        assert_eq!(s.x, 1);
        assert!(s.y < 2);
    }
    let q = p.randomize(&mut r, 2, 3).unwrap();
    assert_eq!(q.starts.len(), 2);
    assert_eq!(q.goals.len(), 3);
    for s in q.starts.iter().chain(q.goals.iter()) {
        assert_eq!(s.x, 1);
    }
}

#[test]
fn draws_pick_cells_by_remainder() {
    let p = Maze2DProblem::try_from("#.#\n#.#\n###").unwrap();
    assert_eq!(p.space.state_from_draws(4, 7), Some(st(1, 1)));
    assert_eq!(p.space.state_from_draws(1, 0), Some(st(1, 0)));
    assert_eq!(p.space.state_from_draws(0, 0), None);
    assert_eq!(p.space.state_from_draws(7, 2), None);
}

#[test]
fn placing_fills_starts_then_goals() {
    let mut starts = vec![];
    let mut goals = vec![];
    assert!(!place_state(&mut starts, &mut goals, st(1, 1), 1, 2));
    assert!(!place_state(&mut starts, &mut goals, st(2, 2), 1, 2));
    assert!(!place_state(&mut starts, &mut goals, st(3, 3), 1, 2));
    assert!(place_state(&mut starts, &mut goals, st(4, 4), 1, 2));
    assert_eq!(starts, vec![st(1, 1)]);
    assert_eq!(goals, vec![st(2, 2), st(3, 3)]);
}

#[test]
fn walled_grid_draws_nothing() {
    let p = Maze2DProblem::try_from("##\n##").unwrap();
    let mut r = rand_chacha::ChaCha8Rng::seed_from_u64(3);
    assert_eq!(p.space.random_state(&mut r), None);
}

#[test]
fn neighbours_have_distinct_moves() {
    let p = Maze2DProblem::try_from("...\n...\n...").unwrap();
    let n = p.space.neighbours(&st(1, 1));
    assert_eq!(n.len(), 8);
    for i in 0..n.len() {
        for j in i + 1..n.len() {
            assert_ne!(n[i].1, n[j].1);
        }
    }
}

#[test]
fn grid_through_space_interface() {

    let p = Maze2DProblem::try_from("S#.\n...\n").unwrap();
    let n = <Maze2DSpace as Space>::neighbours(&p.space, &st(0, 0));
    assert_eq!(n.len(), 2);
    assert_eq!(<Maze2DSpace as Space>::cost(&p.space, &st(0, 0), &Maze2DAction::RightUp), 141);
    assert_eq!(<Maze2DSpace as Space>::apply(&p.space, &st(0, 0), &Maze2DAction::Up), Some(st(0, 1)));
    assert!(<Maze2DSpace as Space>::valid(&p.space, &st(2, 1)));
}
