use excavation::def::{Pos, State, N};
use excavation::interactor::Response;
use excavation::io::IO;

fn lines(v: &[&str]) -> Vec<String> {
    v.iter().map(|s| s.to_string()).collect()
}

#[test]
fn read_input_parses_instance() {
    let mut io = IO::new(lines(&["200 2 1 8", "0 0", "1 1", "2 2", "1"]));
    let inp = io.read_input().unwrap();
    assert_eq!(inp.n, 200);
    assert_eq!(inp.w, 2);
    assert_eq!(inp.k, 1);
    assert_eq!(inp.c, 8);
    assert_eq!(inp.source, vec![Pos { y: 0, x: 0 }, Pos { y: 1, x: 1 }]);
    assert_eq!(inp.house, vec![Pos { y: 2, x: 2 }]);
    assert_eq!(io.read_result(), Some(1));
    assert_eq!(io.read_result(), None);
}

#[test]
fn read_input_trims_and_signs() {
    let mut io = IO::new(lines(&["  200 1 1 -3 extra\n", "-5 +7\r\n", "\t4 5 6"]));
    let inp = io.read_input().unwrap();
    assert_eq!(inp.c, -3);
    assert_eq!(inp.source, vec![Pos { y: -5, x: 7 }]);
    assert_eq!(inp.house, vec![Pos { y: 4, x: 5 }]);
}

#[test]
fn read_input_rejects_malformed() {
    assert!(IO::new(lines(&["3 2 x 8", "0 0", "1 1", "2 2"])).read_input().is_none());
    assert!(IO::new(lines(&["3  2 1 8", "0 0", "1 1", "2 2"])).read_input().is_none());
    assert!(IO::new(lines(&["3 2 1", "0 0", "1 1", "2 2"])).read_input().is_none());
    assert!(IO::new(lines(&["3 2 1 8", "0 0", "1"])).read_input().is_none());
    assert!(IO::new(lines(&["3 2 1 8", "0 0"])).read_input().is_none());
    assert!(IO::new(lines(&["-3 0 0 8"])).read_input().is_none());
    assert!(IO::new(lines(&[])).read_input().is_none());
}

#[test]
fn read_input_failure_consumes_nothing() {
    let mut io = IO::new(lines(&["oops", "7"]));
    assert!(io.read_input().is_none());
    assert_eq!(io.read_result(), None);
}

#[test]
fn read_result_values() {
    let mut io = IO::new(lines(&["  -1 ", "0", "2", "9223372036854775807", "-9223372036854775808", "9223372036854775808"]));
    assert_eq!(io.read_result(), Some(-1));
    assert_eq!(io.read_result(), Some(0));
    assert_eq!(io.read_result(), Some(2));
    assert_eq!(io.read_result(), Some(i64::MAX));
    assert_eq!(io.read_result(), Some(i64::MIN));
    assert_eq!(io.read_result(), None);
}

#[test]
fn record_damage_and_responses() {
    let mut s = State::new(N);
    let a = Pos { y: 3, x: 4 };
    s.record_damage(&a, 50);
    assert_eq!(s.damage.get(&a), 50);
    assert_eq!(s.damage_before_break.get(&a), 0);
    s.record_damage(&a, 25);
    assert_eq!(s.damage.get(&a), 75);
    assert_eq!(s.damage_before_break.get(&a), 50);
    assert_eq!(s.apply_response(&a, 0), Response::NotBroken);
    assert!(!s.is_broken.get(&a));
    assert_eq!(s.apply_response(&a, 2), Response::Finished);
    assert_eq!(s.apply_response(&a, -1), Response::InvalidOperation);
    assert_eq!(s.apply_response(&a, 7), Response::InvalidResult);
    assert!(!s.is_broken.get(&a));
    assert_eq!(s.apply_response(&a, 1), Response::Broken);
    assert!(s.is_broken.get(&a));
}
