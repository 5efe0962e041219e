use search::astar::AStarRank;
use search::dijkstra::DijkstraRank;
use search::maze_2d::Maze2DCost;

#[test]
fn astar_ranking_maze2d() {
    let c0: Maze2DCost = 0u32;
    let c1: Maze2DCost = 1u32;
    let c2: Maze2DCost = 2u32;

    let g = c2;
    let h_low = c0;
    let h_high = c1;
    assert!(AStarRank::new(g, h_low) < AStarRank::new(g, h_high));
    assert!(AStarRank::new(g, h_high) == AStarRank::new(g, h_high));
    assert!(AStarRank::new(g, h_high) > AStarRank::new(g, h_low));

    // Same f-value, needs tie-breaking on h
    let low = AStarRank::new(c2, c0);
    let high = AStarRank::new(c0, c2);
    assert!(low < high);
    assert!(low.f == high.f);
    assert!(low.h < high.h);
}

#[test]
fn dijkstra_ranking_maze2d() {
    let c0: Maze2DCost = 0u32;
    let c1: Maze2DCost = 1u32;
    let c2: Maze2DCost = 2u32;

    assert!(DijkstraRank::new(c0) < DijkstraRank::new(c2));
    assert!(DijkstraRank::new(c2) == DijkstraRank::new(c2));
    assert!(DijkstraRank::new(c2) > DijkstraRank::new(c1));

    assert!(DijkstraRank::new(c0) < DijkstraRank::new(c1));
}

#[test]
fn worsen_h_only_raises() {
    let mut r = AStarRank::new(2, 5);
    assert_eq!(r.f, 7);
    let before = r;
    assert!(!r.worsen_h(3));
    assert_eq!(r, before);
    assert!(!r.worsen_h(5));
    assert_eq!(r, before);
    assert!(r.worsen_h(9));
    assert_eq!(r.h, 9);
    assert_eq!(r.f, 11);
}

#[test]
fn rank_saturates() {
    let r = AStarRank::new(u32::MAX - 1, 10);
    assert_eq!(r.f, u32::MAX);
    assert_eq!(r.h, 10);
}
