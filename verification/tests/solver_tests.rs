use excavation::def::{Input, Pos, State, Vec2d, INF, N};
use excavation::solver::{
    cells_to_destroy, connect_house, fetch_investigated_hardness, generate_estimated_grid, generate_route,
    improve_route, optimize_route, power_to_reach_hardness, probe_levels, probes_cell, level_after_probe, to_near_pos,
};
use excavation::util::rnd::Xorshift;

fn input(house: Vec<Pos>, source: Vec<Pos>, c: i64) -> Input {
    Input { n: N, w: source.len(), k: house.len(), c, source, house }
}

fn p(y: i64, x: i64) -> Pos {
    Pos { y, x }
}

#[test]
fn estimated_grid_marks_houses_and_sources() {
    let inp = input(vec![p(3, 4)], vec![p(7, 8), p(9, 9)], 2);
    let g = generate_estimated_grid(&inp, Vec2d::new(N, N, 5));
    assert_eq!(g.total_score, 0);
    assert!(g.is_used.get(&p(3, 4)));
    assert!(g.is_used.get(&p(7, 8)));
    assert!(g.is_used.get(&p(9, 9)));
    assert!(!g.is_used.get(&p(0, 0)));
    assert_eq!(g.estimated_weight.get(&p(0, 0)), 5);
    assert_eq!(g.house, inp.house);
    assert_eq!(g.source, inp.source);
}

#[test]
fn generate_route_connects_every_house() {
    let inp = input(vec![p(0, 0), p(4, 4)], vec![p(0, 3)], 1);
    let mut g = generate_estimated_grid(&inp, Vec2d::new(N, N, 100));
    generate_route(&inp, &mut g);
    assert!(g.find_current_path_to_source(&p(0, 0)).is_some());
    assert!(g.find_current_path_to_source(&p(4, 4)).is_some());
    assert!(g.is_used.get(&p(0, 1)));
    assert!(g.is_used.get(&p(0, 2)));
    assert!(g.total_score > 0);
}

#[test]
fn improve_route_never_worsens() {
    let inp = input(vec![p(0, 0), p(2, 5)], vec![p(0, 5)], 1);
    let mut g = generate_estimated_grid(&inp, Vec2d::new(N, N, 50));
    generate_route(&inp, &mut g);
    let mut rng = Xorshift::new();
    let mut score = g.total_score;
    for _ in 0..3 {
        let next = improve_route(&inp, &mut g, &mut rng, score);
        assert!(next <= score);
        assert_eq!(next, g.total_score);
        score = next;
        assert!(g.find_unconnected_houses().is_empty());
    }
}

#[test]
fn optimize_route_keeps_houses_connected() {
    let inp = input(vec![p(0, 0)], vec![p(0, 2)], 1);
    let mut g = generate_estimated_grid(&inp, Vec2d::new(N, N, 50));
    let mut rng = Xorshift::new();
    optimize_route(&inp, &mut g, &mut rng);
    assert!(g.find_unconnected_houses().is_empty());
    assert_eq!(g.total_score, 50);
}

#[test]
fn investigated_hardness_cases() {
    let mut s = State::new(N);
    let a = p(1, 1);
    assert_eq!(fetch_investigated_hardness(&s, &a, false), None);
    s.damage.set(&a, 30);
    assert_eq!(fetch_investigated_hardness(&s, &a, false), Some(60));
    assert_eq!(fetch_investigated_hardness(&s, &a, true), Some(1000));
    s.damage.set(&a, 3000);
    assert_eq!(fetch_investigated_hardness(&s, &a, false), Some(5000));
    s.is_broken.set(&a, true);
    s.damage.set(&a, 51);
    assert_eq!(fetch_investigated_hardness(&s, &a, false), Some(25));
    s.damage_before_break.set(&a, 40);
    s.damage.set(&a, 61);
    assert_eq!(fetch_investigated_hardness(&s, &a, true), Some(50));
}

#[test]
fn power_to_reach_hardness_cases() {
    let mut s = State::new(N);
    let a = p(2, 2);
    s.damage.set(&a, 30);
    assert_eq!(power_to_reach_hardness(&s, &a, 100), Some(70));
    assert_eq!(power_to_reach_hardness(&s, &a, 6000), Some(4970));
    assert_eq!(power_to_reach_hardness(&s, &a, 20), None);
    assert_eq!(power_to_reach_hardness(&s, &a, 30), None);
    s.is_broken.set(&a, true);
    assert_eq!(power_to_reach_hardness(&s, &a, 100), None);
}

#[test]
fn near_pos_finds_first_damaged_cell() {
    let mut s = State::new(N);
    let pos = p(10, 10);
    assert_eq!(to_near_pos(pos, &s, 10), pos);
    s.damage.set(&p(12, 13), 5);
    assert_eq!(to_near_pos(pos, &s, 10), p(12, 13));
    s.damage.set(&p(5, 15), 5);
    assert_eq!(to_near_pos(pos, &s, 10), p(5, 15));
    s.damage.set(&p(5, 5), 1);
    assert_eq!(to_near_pos(pos, &s, 10), p(5, 5));
    assert_eq!(to_near_pos(pos, &s, 2), pos);
    assert_eq!(to_near_pos(pos, &s, -4), pos);
}

#[test]
fn near_pos_skips_cells_off_board() {
    let mut s = State::new(N);
    s.damage.set(&p(0, 1), 9);
    assert_eq!(to_near_pos(p(0, 0), &s, 4), p(0, 1));
}

#[test]
fn destroy_list_is_row_major() {
    let inp = input(vec![p(0, 1)], vec![p(0, 0)], 1);
    let mut g = generate_estimated_grid(&inp, Vec2d::new(N, N, 5));
    g.set(&p(1, 0), true);
    assert_eq!(cells_to_destroy(&inp, &g), vec![p(0, 0), p(0, 1), p(1, 0)]);
    g.set(&p(0, 1), false);
    assert_eq!(cells_to_destroy(&inp, &g), vec![p(0, 0), p(0, 1), p(1, 0)]);
}

#[test]
fn probe_levels_by_hundreds() {
    let mut want: Vec<i64> = (1..20).map(|k| 100 * k).collect();
    want.push(2000);
    assert_eq!(probe_levels(2000), want);
    assert_eq!(probe_levels(100), vec![100]);
    assert_eq!(probe_levels(150), vec![100, 150]);
    assert_eq!(probe_levels(201), vec![100, 200, 201]);
    assert_eq!(probe_levels(50), vec![50]);
    assert_eq!(probe_levels(-7), vec![-7]);
}

#[test]
fn connect_house_marks_a_cheapest_walk() {
    let inp = input(vec![p(0, 0)], vec![p(0, 3), p(9, 9)], 1);
    let mut g = generate_estimated_grid(&inp, Vec2d::new(N, N, 10));
    let path = connect_house(&inp, &mut g, 0);
    assert_eq!(path, vec![p(0, 0), p(0, 1), p(0, 2), p(0, 3)]);
    for q in &path {
        assert!(g.is_used.get(q));
    }
    assert!(g.find_current_path_to_source(&p(0, 0)).is_some());
    assert_eq!(g.total_score, 20);
}

#[test]
fn improve_route_draws_house_then_reshuffles() {
    // One house: the first draw picks it, dropping its route leaves it
    // without water, so one more draw reshuffles the list of one.
    let inp = input(vec![p(0, 0)], vec![p(0, 4)], 1);
    let mut g = generate_estimated_grid(&inp, Vec2d::new(N, N, 50));
    generate_route(&inp, &mut g);
    let score = g.total_score;
    let mut rng = Xorshift::new();
    let next = improve_route(&inp, &mut g, &mut rng, score);
    let mut expect = Xorshift::new();
    excavation::util::rnd::next(&mut expect);
    excavation::util::rnd::next(&mut expect);
    assert_eq!(rng.s, expect.s);
    assert_eq!(next, score);
}

#[test]
fn probing_stops_after_a_standing_cell_or_a_proven_level() {
    assert!(probes_cell(INF, 2000, true));
    assert!(!probes_cell(INF, 2000, false));
    assert!(probes_cell(2000, 2000, true));
    assert!(!probes_cell(1000, 2000, true));
}

#[test]
fn proven_level_only_falls() {
    assert_eq!(level_after_probe(INF, 2000, true), 2000);
    assert_eq!(level_after_probe(INF, 2000, false), INF);
    assert_eq!(level_after_probe(1000, 2000, true), 1000);
    assert_eq!(level_after_probe(2000, 2000, true), 2000);
}
