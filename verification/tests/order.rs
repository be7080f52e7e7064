use txn_lock::order::precedes;

#[test]
fn precedence_is_strict() {
    assert!(precedes(&1, &2));
    assert!(!precedes(&2, &1));
    assert!(!precedes(&2, &2));
    assert!(precedes(&"a", &"b"));
    assert!(precedes(&(1, 9), &(2, 0)));
}
