use excavation::def::{pos_to_grid, Input, Pos, N};
use excavation::legacy::greedy_cells;

fn p(y: i64, x: i64) -> Pos {
    Pos { y, x }
}

#[test]
fn greedy_cells_walk_rows_first_from_nearest_source() {
    let inp = Input {
        n: N,
        w: 2,
        k: 2,
        c: 1,
        source: vec![p(0, 0), p(5, 5)],
        house: vec![p(2, 1), p(5, 7)],
    };
    assert_eq!(
        greedy_cells(&inp),
        vec![p(0, 0), p(1, 0), p(2, 0), p(2, 1), p(5, 5), p(5, 6), p(5, 7)]
    );
}

#[test]
fn greedy_cells_tie_takes_first_source() {
    let inp = Input { n: N, w: 2, k: 1, c: 1, source: vec![p(0, 2), p(2, 0)], house: vec![p(0, 0)] };
    assert_eq!(greedy_cells(&inp), vec![p(0, 2), p(0, 1), p(0, 0)]);
    let inp = Input { n: N, w: 1, k: 1, c: 1, source: vec![p(4, 4)], house: vec![p(4, 4)] };
    assert_eq!(greedy_cells(&inp), vec![p(4, 4)]);
    let inp = Input { n: N, w: 0, k: 0, c: 1, source: vec![], house: vec![] };
    assert!(greedy_cells(&inp).is_empty());
}

#[test]
fn greedy_cells_walk_upward_and_left() {
    let inp = Input { n: N, w: 1, k: 1, c: 1, source: vec![p(3, 3)], house: vec![p(1, 1)] };
    assert_eq!(greedy_cells(&inp), vec![p(3, 3), p(2, 3), p(1, 3), p(1, 2), p(1, 1)]);
}

#[test]
fn pos_to_grid_pulls_edge_back() {
    assert_eq!(pos_to_grid(200, 5), p(199, 5));
    assert_eq!(pos_to_grid(3, 200), p(3, 199));
    assert_eq!(pos_to_grid(200, 200), p(199, 199));
    assert_eq!(pos_to_grid(7, 8), p(7, 8));
}
