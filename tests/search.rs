use search::astar::AStarSearch;
use search::dijkstra::DijkstraSearch;
use search::maze_2d::Maze2DAction;
use search::maze_2d::Maze2DHeuristicDiagonalDistance;
use search::maze_2d::Maze2DHeuristicManhattanDistance;
use search::maze_2d::Maze2DProblem;
use search::maze_2d::Maze2DSpace;
use search::maze_2d::Maze2DState;
use search::path::Path;

fn st(x: u32, y: u32) -> Maze2DState {
    Maze2DState::new(x, y).unwrap()
}

/// An empty `w` by `h` grid with the given starts and goals.
fn open_field(w: usize, h: usize, starts: Vec<Maze2DState>, goals: Vec<Maze2DState>) -> Maze2DProblem {
    Maze2DProblem { space: Maze2DSpace::new_empty_with_dimensions(w, h), starts, goals }
}

fn walk(p: &Path) -> Maze2DState {
    let space = Maze2DSpace::new_empty_with_dimensions(0, 0);
    let mut s = p.start.unwrap();
    for a in &p.actions {
        s = space.apply(&s, a).unwrap();
    }
    s
}

fn corridor() -> Maze2DProblem {
    Maze2DProblem::try_from("###\n#S#\n#.#\n#G#\n###").unwrap()
}

#[test]
fn corridor_uniform_cost() {
    let mut search = DijkstraSearch::new(corridor());
    let path = search.find_next_goal().unwrap();
    assert_eq!(path.start, Some(st(1, 1)));
    assert_eq!(path.end, Some(st(1, 3)));
    assert_eq!(path.cost, 200);
    assert_eq!(path.actions, vec![Maze2DAction::Up, Maze2DAction::Up]);
    assert_eq!(walk(&path), st(1, 3));
    assert!(search.find_next_goal().is_none());
}

#[test]
fn corridor_heuristic() {
    let mut search = AStarSearch::<Maze2DHeuristicDiagonalDistance>::new(corridor());
    let path = search.find_next_goal().unwrap();
    assert_eq!(path.cost, 200);
    assert_eq!(path.actions, vec![Maze2DAction::Up, Maze2DAction::Up]);
    assert!(search.find_next_goal().is_none());
}

#[test]
fn two_starts_one_goal() {
    let p = open_field(10, 10, vec![st(0, 0), st(9, 9)], vec![st(0, 9)]);
    let mut search = DijkstraSearch::new(p.clone());
    let path = search.find_next_goal().unwrap();
    assert_eq!(path.cost, 900);
    assert_eq!(path.len(), 9);
    assert!(path.start == Some(st(0, 0)) || path.start == Some(st(9, 9)));
    assert_eq!(path.end, Some(st(0, 9)));
    assert_eq!(walk(&path), st(0, 9));

    let mut astar = AStarSearch::<Maze2DHeuristicDiagonalDistance>::new(p);
    let path = astar.find_next_goal().unwrap();
    assert_eq!(path.cost, 900);
    assert_eq!(path.len(), 9);
}

#[test]
fn two_goals_at_equal_distance() {
    let goals = vec![st(5, 1), st(5, 9)];
    let p = open_field(11, 11, vec![st(5, 5)], goals.clone());
    let mut search = DijkstraSearch::new(p.clone());
    let first = search.find_next_goal().unwrap();
    let second = search.find_next_goal().unwrap();
    assert_eq!(first.cost, 400);
    assert_eq!(second.cost, 400);
    assert_ne!(first.end, second.end);
    assert!(goals.contains(&first.end.unwrap()));
    assert!(goals.contains(&second.end.unwrap()));
    assert!(search.find_next_goal().is_none());

    let mut astar = AStarSearch::<Maze2DHeuristicDiagonalDistance>::new(p);
    let first = astar.find_next_goal().unwrap();
    let second = astar.find_next_goal().unwrap();
    assert_eq!(first.cost, 400);
    assert_eq!(second.cost, 400);
    assert_ne!(first.end, second.end);
    assert!(astar.find_next_goal().is_none());
}

#[test]
fn boxed_in_start_finds_nothing() {
    let text = "#####\n#S#..\n#####\n..G..";
    let mut search = DijkstraSearch::new(Maze2DProblem::try_from(text).unwrap());
    assert!(search.find_next_goal().is_none());
    assert_eq!(search.open_len(), 0);
    let mut astar =
        AStarSearch::<Maze2DHeuristicManhattanDistance>::new(Maze2DProblem::try_from(text).unwrap());
    assert!(astar.find_next_goal().is_none());
    assert_eq!(astar.open_len(), 0);
}

#[test]
fn diagonal_heuristic_expands_less() {
    let p = open_field(101, 101, vec![st(0, 0)], vec![st(100, 100)]);
    let mut uniform = DijkstraSearch::new(p.clone());
    let a = uniform.find_next_goal().unwrap();
    assert_eq!(a.cost, 14100);
    let mut astar = AStarSearch::<Maze2DHeuristicDiagonalDistance>::new(p);
    let b = astar.find_next_goal().unwrap();
    assert_eq!(b.cost, 14100);
    assert_eq!(walk(&b), st(100, 100));
    assert!(astar.expanded_len() < uniform.expanded_len());
}

#[test]
fn start_on_goal_gives_empty_path() {
    let p = open_field(4, 4, vec![st(2, 2)], vec![st(2, 2)]);
    let mut search = DijkstraSearch::new(p.clone());
    let path = search.find_next_goal().unwrap();
    assert!(path.is_empty());
    assert_eq!(path.cost, 0);
    assert_eq!(path.start, Some(st(2, 2)));
    assert_eq!(path.end, Some(st(2, 2)));

    let mut astar = AStarSearch::<Maze2DHeuristicDiagonalDistance>::new(p);
    let path = astar.find_next_goal().unwrap();
    assert!(path.is_empty());
    assert_eq!(path.cost, 0);
}

#[test]
fn no_goals_leaves_open_list_alone() {
    let p = open_field(4, 4, vec![st(0, 0), st(3, 3)], vec![]);
    let mut search = DijkstraSearch::new(p.clone());
    assert_eq!(search.open_len(), 2);
    assert!(search.find_next_goal().is_none());
    assert_eq!(search.open_len(), 2);
    assert_eq!(search.nodes_len(), 2);

    let mut astar = AStarSearch::<Maze2DHeuristicDiagonalDistance>::new(p);
    assert!(astar.find_next_goal().is_none());
    assert_eq!(astar.open_len(), 2);
}

#[test]
fn unreachable_second_goal_drains() {
    let text = "S.G#.\n...#G\n####.";
    let mut search = DijkstraSearch::new(Maze2DProblem::try_from(text).unwrap());
    let first = search.find_next_goal().unwrap();
    assert_eq!(first.end, Some(st(2, 0)));
    assert_eq!(first.cost, 200);
    assert!(search.find_next_goal().is_none());
    assert_eq!(search.open_len(), 0);
    assert_eq!(search.directory_len(), search.nodes_len());
    assert_eq!(walk(&first), first.end.unwrap());
}

#[test]
fn counts_stay_consistent() {
    let p = open_field(6, 5, vec![st(0, 0)], vec![st(5, 4), st(2, 3)]);
    let mut search = DijkstraSearch::new(p.clone());
    while let Some(path) = search.find_next_goal() {
        assert_eq!(walk(&path), path.end.unwrap());
        assert_eq!(search.directory_len(), search.nodes_len());
        assert_eq!(search.expanded_len() + search.open_len(), search.nodes_len());
    }
    let mut astar = AStarSearch::<Maze2DHeuristicDiagonalDistance>::new(p);
    let mut found = 0;
    while let Some(path) = astar.find_next_goal() {
        found += 1;
        assert_eq!(walk(&path), path.end.unwrap());
        assert_eq!(astar.directory_len(), astar.nodes_len());
    }
    assert_eq!(found, 2);
}

#[test]
fn path_reverse_twice_is_identity() {
    let p = open_field(5, 5, vec![st(0, 0)], vec![st(3, 2)]);
    let mut search = DijkstraSearch::new(p);
    let path = search.find_next_goal().unwrap();
    let mut twice = path.clone();
    twice.reverse();
    assert_eq!(twice.start, path.end);
    twice.reverse();
    assert_eq!(twice, path);
    assert!(path.seems_valid());
    assert!(Path::new_empty().seems_valid());
    assert!(Path::new_empty().is_empty());
}

#[test]
fn found_paths_rewalk_to_their_end() {
    let p = open_field(7, 7, vec![st(1, 1)], vec![st(6, 3), st(0, 6)]);
    let space = p.space.clone();
    let mut search = DijkstraSearch::new(p);
    let mut found = 0;
    while let Some(path) = search.find_next_goal() {
        found += 1;
        assert!(space.valid_path(&path));
        let mut broken = path.clone();
        broken.end = Some(st(5, 5));
        assert!(!space.valid_path(&broken));
    }
    assert_eq!(found, 2);
    assert!(space.valid_path(&Path::new_empty()));
    let mut off_grid = Path::new_from_start(st(0, 0));
    off_grid.actions.push(Maze2DAction::Left);
    assert!(!space.valid_path(&off_grid));
}

#[test]
fn heuristic_start_nodes_carry_heuristic_rank() {
    let p = open_field(5, 5, vec![st(0, 0), st(0, 0), st(4, 4)], vec![st(4, 0), st(4, 0)]);
    let search = AStarSearch::<Maze2DHeuristicDiagonalDistance>::new(p);
    assert_eq!(search.nodes_len(), 2);
    assert_eq!(search.open_len(), 2);
    assert_eq!(search.h(&st(0, 0)), 400);
    assert_eq!(search.h(&st(4, 4)), 400);
}
