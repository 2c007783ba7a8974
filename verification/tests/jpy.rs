use jabba_lib::jpy::not;

#[test]
fn not_test() {
    assert_eq!(not(true), false);
    assert_eq!(not(false), true);
    assert_eq!(not(1 == 2), true);
    assert_eq!(not(5 < 6), false);
}
