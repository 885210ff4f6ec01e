use excavation::def::{Pos, State, Vec2d, INF, N, S_MAX};

#[test]
fn pos_dist_is_manhattan() {
    assert_eq!(Pos { y: 3, x: 4 }.dist(&Pos { y: 0, x: 0 }), 7);
    assert_eq!(Pos { y: -2, x: 5 }.dist(&Pos { y: 3, x: -1 }), 11);
    assert_eq!(Pos { y: 9, x: 9 }.dist(&Pos { y: 9, x: 9 }), 0);
}

#[test]
fn pos_is_valid_on_board_only() {
    assert!(Pos { y: 0, x: 0 }.is_valid());
    assert!(Pos { y: 199, x: 199 }.is_valid());
    assert!(!Pos { y: 200, x: 0 }.is_valid());
    assert!(!Pos { y: 0, x: 200 }.is_valid());
    assert!(!Pos { y: -1, x: 5 }.is_valid());
    assert!(!Pos { y: 5, x: -1 }.is_valid());
}

#[test]
fn pos_to_idx_is_row_major() {
    assert_eq!(Pos { y: 2, x: 3 }.to_idx(), 403);
    assert_eq!(Pos { y: 0, x: 0 }.to_idx(), 0);
    assert_eq!(Pos { y: 199, x: 199 }.to_idx(), 39999);
}

#[test]
fn vec2d_get_after_set() {
    let mut t: Vec2d<i64> = Vec2d::new(N, N, 7);
    let p = Pos { y: 5, x: 5 };
    let q = Pos { y: 5, x: 6 };
    assert_eq!(t.get(&p), 7);
    t.set(&p, 9);
    assert_eq!(t.get(&p), 9);
    assert_eq!(t.get(&q), 7);
    t.set(&p, -3);
    assert_eq!(t.get(&p), -3);
}

#[test]
fn state_new_is_untouched() {
    let s = State::new(N);
    let p = Pos { y: 100, x: 42 };
    assert_eq!(s.damage.get(&p), 0);
    assert_eq!(s.damage_before_break.get(&p), 0);
    assert!(!s.is_broken.get(&p));
    assert_eq!(s.total_damage, 0);
}

#[test]
fn constants() {
    assert_eq!(N, 200);
    assert_eq!(S_MAX, 5000);
    assert_eq!(INF, 100_000_000_000_000);
}
