use excavation::def::{Input, Pos, State, N};
use excavation::solver2::{grid_axis_seeds, last_unbroken, AnnealingState, Edge, Graph, NA};
use excavation::util::rnd::{next, Xorshift};

fn p(y: i64, x: i64) -> Pos {
    Pos { y, x }
}

fn graph_of(ps: &[Pos]) -> Graph {
    let mut g = Graph::new();
    for q in ps {
        g.add_point(q);
    }
    g
}

fn pairs(g: &Graph) -> Vec<(usize, usize)> {
    g.edges.iter().map(|e| (e.u, e.v)).collect()
}

#[test]
fn edge_equality_ignores_direction() {
    assert!(Edge { u: 1, v: 2 } == Edge { u: 2, v: 1 });
    assert!(Edge { u: 1, v: 2 } == Edge { u: 1, v: 2 });
    assert!(Edge { u: 1, v: 2 } != Edge { u: 1, v: 3 });
}

#[test]
fn edge_other_point() {
    let e = Edge { u: 4, v: 9 };
    assert_eq!(e.other_point(4), 9);
    assert_eq!(e.other_point(9), 4);
    assert_eq!(e.other_point(e.other_point(4)), 4);
    assert_eq!(Edge { u: 3, v: 3 }.other_point(3), 3);
}

#[test]
fn add_point_and_lookup() {
    let mut g = Graph::new();
    assert_eq!(g.add_point(&p(0, 0)), 0);
    assert_eq!(g.add_point(&p(10, 10)), 1);
    assert_eq!(g.points, vec![p(0, 0), p(10, 10)]);
    assert_eq!(g.pos_to_index(&p(10, 10)), 1);
    assert_eq!(g.pos_to_index(&p(0, 0)), 0);
    assert!(g.edges.is_empty());
}

#[test]
fn lookup_finds_latest_point_at_a_cell() {
    let mut g = Graph::new();
    g.add_point(&p(7, 7));
    g.add_point(&p(1, 1));
    g.add_point(&p(7, 7));
    assert_eq!(g.pos_to_index(&p(7, 7)), 2);
}

#[test]
fn should_add_point_keeps_distance_five() {
    let g = graph_of(&[p(0, 0), p(50, 50)]);
    assert!(!g.should_add_point(&p(2, 2)));
    assert!(g.should_add_point(&p(3, 2)));
    assert!(!g.should_add_point(&p(50, 54)));
    assert!(g.should_add_point(&p(100, 100)));
    assert!(Graph::new().should_add_point(&p(0, 0)));
}

#[test]
fn recalculate_edges_line_of_three() {
    let mut g = graph_of(&[p(0, 0), p(0, 10), p(0, 30)]);
    g.recalculate_edges();
    assert_eq!(pairs(&g), vec![(0, 1), (1, 2)]);
    assert_eq!(g.adj, vec![vec![0], vec![0, 1], vec![1]]);
}

#[test]
fn recalculate_edges_links_points_within_forty() {
    let mut g = graph_of(&[p(0, 0), p(0, 30)]);
    g.recalculate_edges();
    assert_eq!(pairs(&g), vec![(0, 1)]);
    let mut g = graph_of(&[p(0, 0), p(20, 20), p(0, 40)]);
    g.recalculate_edges();
    assert_eq!(pairs(&g), vec![(0, 1), (0, 2), (1, 2)]);
}

#[test]
fn recalculate_edges_far_points_stay_apart() {
    let mut g = graph_of(&[p(0, 0), p(0, 41), p(100, 100)]);
    g.recalculate_edges();
    assert!(g.edges.is_empty());
    assert_eq!(g.adj, vec![Vec::<usize>::new(), vec![], vec![]]);
}

#[test]
fn recalculate_edges_joins_every_close_pair() {
    let mut g = graph_of(&[p(0, 0), p(0, 5), p(5, 0), p(5, 5)]);
    g.recalculate_edges();
    for i in 0..4 {
        for j in 0..4 {
            if i != j {
                assert!(g.edges.contains(&Edge { u: i, v: j }));
            }
        }
    }
    assert_eq!(g.edges.len(), 6);
}

#[test]
fn dijkstra_on_a_line() {
    let mut g = graph_of(&[p(0, 0), p(0, 10), p(0, 30)]);
    g.recalculate_edges();
    let mut rng = Xorshift::new();
    // bases below ten draw nothing but zero
    let (dist, par) = g.dijkstra(0, &vec![false, false], &vec![5, 7], &mut rng);
    assert_eq!(dist, vec![0, 5, 12]);
    assert_eq!(par, vec![NA, 0, 1]);
    let (dist, par) = g.dijkstra(2, &vec![false, false], &vec![5, 7], &mut rng);
    assert_eq!(dist, vec![12, 7, 0]);
    assert_eq!(par, vec![0, 1, NA]);
}

#[test]
fn dijkstra_unreached_points_keep_inf() {
    let mut g = graph_of(&[p(0, 0), p(0, 10), p(150, 150)]);
    g.recalculate_edges();
    let mut rng = Xorshift::new();
    let (dist, par) = g.dijkstra(0, &vec![false], &vec![3], &mut rng);
    assert_eq!(dist, vec![0, 3, excavation::def::INF]);
    assert_eq!(par, vec![NA, 0, NA]);
}

#[test]
fn edge_cells_walk_along_the_longer_axis() {
    let mut g = graph_of(&[p(0, 3), p(0, 0), p(2, 5)]);
    g.recalculate_edges();
    assert_eq!(pairs(&g)[0], (0, 1));
    assert_eq!(g.edge_cells(&vec![0]), vec![p(0, 3), p(0, 2), p(0, 1), p(0, 0)]);
    let e = g.edges.iter().position(|e| e.u == 0 && e.v == 2).unwrap();
    assert_eq!(g.edge_cells(&vec![e]), vec![p(0, 3), p(0, 4), p(1, 4), p(1, 5), p(2, 5)]);
    assert!(g.edge_cells(&vec![]).is_empty());
}

fn line_state(c: i64) -> (AnnealingState, Input) {
    let mut g = Graph::new();
    g.add_point(&p(0, 10));
    let inp = Input { n: N, w: 1, k: 1, c, source: vec![p(0, 30)], house: vec![p(0, 0)] };
    (AnnealingState::new(g, State::new(N), &inp), inp)
}

#[test]
fn annealing_state_new_places_houses_then_sources() {
    let (a, _) = line_state(3);
    assert_eq!(a.graph.points, vec![p(0, 10), p(0, 0), p(0, 30)]);
    assert_eq!(a.house, vec![1]);
    assert_eq!(a.source, vec![2]);
    assert_eq!(a.score, 0);
    assert!(a.edge_used.is_empty());
    assert!(a.to_source_paths.is_empty());
}

#[test]
fn recalculate_all_routes_house_to_source() {
    let (mut a, _) = line_state(3);
    let mut rng = Xorshift::new();
    assert!(a.recalculate_all(3, &mut rng));
    assert_eq!(pairs(&a.graph), vec![(0, 1), (0, 2)]);
    assert_eq!(a.to_source_paths, vec![vec![0, 1]]);
    assert_eq!(a.edge_used, vec![true, true]);
    assert_eq!(a.edge_weight(0, 3), 30);
    assert_eq!(a.edge_weight(1, 3), 60);
    assert_eq!(a.score, 90);
}

#[test]
fn recalculate_all_fails_without_a_route() {
    let mut g = Graph::new();
    g.add_point(&p(0, 10));
    let inp = Input { n: N, w: 1, k: 1, c: 3, source: vec![p(150, 150)], house: vec![p(0, 0)] };
    let mut a = AnnealingState::new(g, State::new(N), &inp);
    let mut rng = Xorshift::new();
    assert!(!a.recalculate_all(3, &mut rng));
}

#[test]
fn edge_weight_uses_damage_estimate() {
    let (mut a, _) = line_state(3);
    let mut rng = Xorshift::new();
    assert!(a.recalculate_all(3, &mut rng));
    // point 0 at (0, 10) resisted 100: assumed 500; point 1 at (0, 0) broke at 40.
    a.state.damage.set(&p(0, 10), 100);
    a.state.damage.set(&p(0, 0), 40);
    a.state.is_broken.set(&p(0, 0), true);
    assert_eq!(a.edge_weight(0, 3), ((500 + 40) / 2 + 3) * 10);
    // an unbroken cell is capped at S_MAX
    a.state.damage.set(&p(0, 30), 4000);
    assert_eq!(a.edge_weight(1, 3), ((500 + 5000) / 2 + 3) * 20);
}

#[test]
fn set_edge_path_counts_each_edge_once() {
    let (mut a, _) = line_state(3);
    let mut rng = Xorshift::new();
    assert!(a.recalculate_all(3, &mut rng));
    a.edge_used = vec![false, false];
    a.score = 0;
    a.set_edge_path(0, vec![1], 3);
    assert_eq!(a.score, 60);
    assert_eq!(a.edge_used, vec![false, true]);
    a.set_edge_path(0, vec![0, 1, 0], 3);
    assert_eq!(a.score, 90);
    assert_eq!(a.edge_used, vec![true, true]);
    assert_eq!(a.to_source_paths, vec![vec![0, 1, 0]]);
}

#[test]
fn dijkstra_used_edges_weigh_nothing() {
    let mut g = graph_of(&[p(0, 0), p(0, 10), p(0, 30)]);
    g.recalculate_edges();
    let mut rng = Xorshift::new();
    let (dist, par) = g.dijkstra(0, &vec![true, false], &vec![500, 7], &mut rng);
    assert_eq!(dist, vec![0, 0, 7]);
    assert_eq!(par, vec![NA, 0, 1]);
    // edge 0 is left twice and edge 1 twice, but only edge 1 draws
    let mut expected = Xorshift::new();
    next(&mut expected);
    next(&mut expected);
    assert_eq!(rng.s, expected.s);
}

#[test]
fn dijkstra_draws_each_time_an_edge_is_left() {
    let mut g = graph_of(&[p(0, 0), p(0, 10), p(0, 30)]);
    g.recalculate_edges();
    let mut rng = Xorshift::new();
    let (dist, par) = g.dijkstra(1, &vec![false, false], &vec![30, 60], &mut rng);
    // the first draw of the generator is divisible by 4
    assert_eq!(dist[0], 30);
    assert!(60 <= dist[2] && dist[2] <= 66);
    assert_eq!(dist[1], 0);
    assert_eq!(par, vec![0, NA, 1]);
    // point 1 leaves along both edges, then points 0 and 2 along their one
    // edge each: four draws in all
    let mut expected = Xorshift::new();
    for _ in 0..4 {
        next(&mut expected);
    }
    assert_eq!(rng.s, expected.s);
}

#[test]
fn find_path_to_source_with_no_edge_in_use() {
    let (mut a, _) = line_state(3);
    let mut rng = Xorshift::new();
    assert!(a.recalculate_all(3, &mut rng));
    a.edge_used = vec![false, false];
    a.score = 0;
    for _ in 0..20 {
        assert_eq!(a.find_path_to_source(1, 3, &mut rng), Some(vec![0, 1]));
    }
}

#[test]
fn find_path_to_source_on_a_line() {
    let (mut a, _) = line_state(3);
    let mut rng = Xorshift::new();
    assert!(a.recalculate_all(3, &mut rng));
    assert_eq!(a.find_path_to_source(1, 3, &mut rng), Some(vec![0, 1]));
    assert_eq!(a.find_path_to_source(2, 3, &mut rng), Some(vec![]));
    assert_eq!(a.find_path_to_source(0, 3, &mut rng), Some(vec![1]));
}

#[test]
fn used_edge_endpoints_and_midpoints() {
    let (mut a, _) = line_state(3);
    let mut rng = Xorshift::new();
    assert!(a.recalculate_all(3, &mut rng));
    assert_eq!(a.used_edge_endpoints(), vec![0, 1, 0, 2]);
    assert_eq!(a.used_edge_midpoints(), vec![p(0, 5), p(0, 20)]);
    a.edge_used = vec![false, true];
    assert_eq!(a.used_edge_endpoints(), vec![0, 2]);
    assert_eq!(a.used_edge_midpoints(), vec![p(0, 20)]);
}

#[test]
fn grid_axis_seeds_sorted_distinct() {
    let inp = Input {
        n: N,
        w: 2,
        k: 3,
        c: 1,
        source: vec![p(5, 7), p(9, 2)],
        house: vec![p(3, 7), p(5, 2), p(190, 0)],
    };
    let (xs, ys) = grid_axis_seeds(&inp);
    assert_eq!(xs, vec![0, 2, 7]);
    assert_eq!(ys, vec![3, 5, 9, 190]);
    let empty = Input { n: N, w: 0, k: 0, c: 1, source: vec![], house: vec![] };
    assert_eq!(grid_axis_seeds(&empty), (vec![], vec![]));
}

#[test]
fn last_unbroken_drops_broken_tail() {
    let mut st = State::new(N);
    st.is_broken.set(&p(0, 2), true);
    st.is_broken.set(&p(0, 3), true);
    let mut cells = vec![p(0, 0), p(0, 1), p(0, 2), p(0, 3)];
    assert_eq!(last_unbroken(&mut cells, &st), Some(p(0, 1)));
    assert_eq!(cells, vec![p(0, 0), p(0, 1)]);
    st.is_broken.set(&p(0, 1), true);
    st.is_broken.set(&p(0, 0), true);
    assert_eq!(last_unbroken(&mut cells, &st), None);
    assert!(cells.is_empty());
    let mut mid = vec![p(0, 0), p(5, 5)];
    assert_eq!(last_unbroken(&mut mid, &st), Some(p(5, 5)));
    assert_eq!(mid.len(), 2);
}

#[test]
fn recalculate_edges_two_points() {
    let mut g = graph_of(&[p(0, 0), p(0, 10)]);
    g.recalculate_edges();
    assert_eq!(pairs(&g), vec![(0, 1)]);
    assert_eq!(g.adj, vec![vec![0], vec![0]]);
    assert_eq!(g.points, vec![p(0, 0), p(0, 10)]);
}

#[test]
fn recalculate_edges_short_edges_then_tree() {
    let mut g = graph_of(&[p(0, 0), p(0, 7), p(0, 15)]);
    g.recalculate_edges();
    assert_eq!(pairs(&g), vec![(0, 1), (0, 2), (1, 2)]);
    assert_eq!(g.adj, vec![vec![0, 1], vec![0, 2], vec![1, 2]]);
}

#[test]
fn recalculate_edges_twice_gives_same_graph() {
    let mut g = graph_of(&[p(0, 0), p(3, 30), p(20, 20), p(0, 40), p(60, 60)]);
    g.recalculate_edges();
    let e1 = pairs(&g);
    let a1 = g.adj.clone();
    g.recalculate_edges();
    assert_eq!(pairs(&g), e1);
    assert_eq!(g.adj, a1);
}
