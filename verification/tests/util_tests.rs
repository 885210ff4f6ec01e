use excavation::param::Param;
use excavation::def::{Input, N};
use excavation::util::rnd::{gen_range, next, shuffle, Xorshift};
use excavation::util::{min_index, sort_by_first, sort_i64, UnionFind, VecSum};

#[test]
fn min_index_first_least() {
    assert_eq!(min_index(&vec![5i64, 3, 7, 3]), 1);
    assert_eq!(min_index(&vec![2i64]), 0);
    assert_eq!(min_index(&Vec::<i64>::new()), 0);
    assert_eq!(min_index(&vec![9usize, 8, 1, 0]), 3);
}

#[test]
fn vec_sum_tracks_sum() {
    let mut v = VecSum::new(vec![1, 2, 3]);
    assert_eq!(v.sum, 6);
    v.set(1, 10);
    assert_eq!(v.sum, 14);
    assert_eq!(v.vec, vec![1, 10, 3]);
    v.set(0, -20);
    assert_eq!(v.sum, -7);
    assert_eq!(VecSum::new(vec![]).sum, 0);
}

#[test]
fn xorshift_first_value() {
    let mut rng = Xorshift::new();
    assert_eq!(next(&mut rng) as u64, 11373782495151020392u64);
    assert_eq!(rng.s, 11373782495151020392u64);
}

#[test]
fn gen_range_in_bounds() {
    let mut rng = Xorshift::new();
    assert_eq!(gen_range(&mut rng, 0, 10), 2);
    let mut rng = Xorshift::new();
    assert_eq!(gen_range(&mut rng, 5, 15), 7);
    for _ in 0..100 {
        let r = gen_range(&mut rng, 3, 9);
        assert!(3 <= r && r < 9);
    }
}

#[test]
fn shuffle_is_permutation() {
    let mut rng = Xorshift::new();
    let mut v = vec![10, 20, 30, 40, 50];
    shuffle(&mut rng, &mut v);
    assert_eq!(v, vec![30, 50, 10, 20, 40]);
    assert_eq!(rng.s, 9524873121654605887u64);
    let mut sorted = v.clone();
    sorted.sort();
    assert_eq!(sorted, vec![10, 20, 30, 40, 50]);
    let mut empty: Vec<i32> = vec![];
    shuffle(&mut rng, &mut empty);
    assert!(empty.is_empty());
}

#[test]
fn param_from_input() {
    let inp = Input { n: N, w: 0, k: 0, c: 16, source: vec![], house: vec![] };
    let p = Param::new(&inp);
    assert_eq!(p.c, 16);
    assert_eq!(p.p1, 10);
}

#[test]
fn union_find_joins_groups() {
    let mut uf = UnionFind::new(5);
    assert!(uf.same(2, 2));
    assert!(!uf.same(0, 1));
    uf.unite(0, 1);
    assert!(uf.same(0, 1));
    assert!(uf.same(1, 0));
    assert!(!uf.same(0, 2));
    uf.unite(3, 2);
    uf.unite(1, 2);
    assert!(uf.same(0, 3));
    assert!(!uf.same(4, 0));
    uf.unite(0, 3);
    assert!(!uf.same(4, 3));
}

#[test]
fn sort_by_first_is_stable() {
    let mut v: Vec<(i64, usize, usize)> = vec![(3, 0, 1), (1, 2, 3), (3, 1, 0), (2, 5, 5), (1, 0, 0)];
    sort_by_first(&mut v);
    assert_eq!(v, vec![(1, 2, 3), (1, 0, 0), (2, 5, 5), (3, 0, 1), (3, 1, 0)]);
    let mut e: Vec<(i64, usize, usize)> = vec![];
    sort_by_first(&mut e);
    assert!(e.is_empty());
}

#[test]
fn sort_i64_orders() {
    let mut v = vec![5i64, -3, 9, 0, -3];
    sort_i64(&mut v);
    assert_eq!(v, vec![-3, -3, 0, 5, 9]);
}
