use excavation::def::{Input, Pos, Vec2d, INF, N};
use excavation::grid::{Grid, contains_pos};
use excavation::solver::{generate_estimated_grid, generate_route};

fn input(house: Vec<Pos>, source: Vec<Pos>, c: i64) -> Input {
    Input { n: N, w: source.len(), k: house.len(), c, source, house }
}

fn uniform_grid(inp: &Input, w: i64) -> Grid {
    generate_estimated_grid(inp, Vec2d::new(N, N, w))
}

fn p(y: i64, x: i64) -> Pos {
    Pos { y, x }
}

#[test]
fn nearest_source_straight_path() {
    let inp = input(vec![p(0, 0)], vec![p(0, 3)], 1);
    let g = uniform_grid(&inp, 100);
    let (path, cost) = g.find_path_to_nearest_source(&p(0, 0), INF, &inp.source, 1);
    assert_eq!(path, vec![p(0, 0), p(0, 1), p(0, 2), p(0, 3)]);
    assert_eq!(cost, 204);
}

#[test]
fn nearest_source_picks_cheapest_source() {
    let inp = input(vec![p(0, 0)], vec![p(5, 0), p(0, 3)], 1);
    let g = uniform_grid(&inp, 100);
    let (path, cost) = g.find_path_to_nearest_source(&p(0, 0), INF, &inp.source, 1);
    assert_eq!(cost, 204);
    assert_eq!(*path.last().unwrap(), p(0, 3));
    assert_eq!(path[0], p(0, 0));
}

#[test]
fn nearest_source_tie_takes_first_listed() {
    let inp = input(vec![p(0, 0)], vec![p(0, 2), p(2, 0)], 1);
    let g = uniform_grid(&inp, 100);
    let (path, cost) = g.find_path_to_nearest_source(&p(0, 0), INF, &inp.source, 1);
    assert_eq!(cost, 102);
    assert_eq!(path, vec![p(0, 0), p(0, 1), p(0, 2)]);
}

#[test]
fn nearest_source_uses_free_used_cells() {
    let inp = input(vec![p(0, 0)], vec![p(0, 4)], 5);
    let mut g = uniform_grid(&inp, 100);
    g.set(&p(0, 1), true);
    g.set(&p(0, 2), true);
    let (path, cost) = g.find_path_to_nearest_source(&p(0, 0), INF, &inp.source, 5);
    assert_eq!(path, vec![p(0, 0), p(0, 1), p(0, 2), p(0, 3), p(0, 4)]);
    assert_eq!(cost, 110);
}

#[test]
fn grid_set_tracks_score() {
    let inp = input(vec![p(0, 0)], vec![p(0, 3)], 1);
    let mut g = uniform_grid(&inp, 100);
    assert_eq!(g.total_score, 0);
    assert!(g.set(&p(1, 1), true));
    assert_eq!(g.total_score, 100);
    assert!(!g.set(&p(1, 1), true));
    assert_eq!(g.total_score, 100);
    assert!(g.set(&p(1, 1), false));
    assert_eq!(g.total_score, 0);
    assert!(g.set(&p(0, 0), false));
    assert_eq!(g.total_score, -100);
}

#[test]
fn set_then_restore_gives_back_grid() {
    let inp = input(vec![p(0, 0)], vec![p(0, 3)], 1);
    let mut g = uniform_grid(&inp, 100);
    let before = g.is_used.get(&p(7, 7));
    let score = g.total_score;
    g.set(&p(7, 7), true);
    g.set(&p(7, 7), before);
    assert_eq!(g.is_used.get(&p(7, 7)), before);
    assert_eq!(g.total_score, score);
}

#[test]
fn current_path_after_routing() {
    let inp = input(vec![p(0, 0)], vec![p(0, 3)], 1);
    let mut g = uniform_grid(&inp, 100);
    assert!(g.find_current_path_to_source(&p(0, 0)).is_none());
    generate_route(&inp, &mut g);
    let (path, w) = g.find_current_path_to_source(&p(0, 0)).unwrap();
    assert_eq!(path, vec![p(0, 0), p(0, 1), p(0, 2), p(0, 3)]);
    assert_eq!(w, 400);
}

#[test]
fn current_path_next_to_source() {
    let inp = input(vec![p(10, 10)], vec![p(10, 11)], 1);
    let g = uniform_grid(&inp, 3);
    let (path, w) = g.find_current_path_to_source(&p(10, 10)).unwrap();
    assert_eq!(path, vec![p(10, 10), p(10, 11)]);
    assert_eq!(w, 6);
}

#[test]
fn unconnected_houses_listed_in_order() {
    let inp = input(vec![p(0, 0), p(5, 5), p(9, 9)], vec![p(9, 8)], 1);
    let mut g = uniform_grid(&inp, 10);
    assert_eq!(g.find_unconnected_houses(), vec![0, 1]);
    generate_route(&inp, &mut g);
    assert_eq!(g.find_unconnected_houses(), Vec::<usize>::new());
}

#[test]
fn contains_pos_finds_members() {
    let v = vec![p(1, 2), p(3, 4)];
    assert!(contains_pos(&v, &p(3, 4)));
    assert!(!contains_pos(&v, &p(4, 3)));
    assert!(!contains_pos(&Vec::new(), &p(0, 0)));
}

#[test]
fn current_path_tries_up_first() {
    let inp = input(vec![p(1, 1)], vec![p(0, 0)], 1);
    let mut g = uniform_grid(&inp, 5);
    g.set(&p(0, 1), true);
    g.set(&p(1, 0), true);
    let (path, w) = g.find_current_path_to_source(&p(1, 1)).unwrap();
    assert_eq!(path, vec![p(1, 1), p(0, 1), p(0, 0)]);
    assert_eq!(w, 15);
}
