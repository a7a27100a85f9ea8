use malbolge::value::Value;

#[test]
fn increment_wraps_modulo_59049() {
    let mut v = Value::zero();
    v.incr();
    assert_eq!(v.val(), 1);
    let mut top = Value::new(59048);
    top.incr();
    assert_eq!(top.val(), 0);
    let mut mid = Value::new(29524);
    mid.incr();
    assert_eq!(mid.val(), 29525);
}

#[test]
fn rotate_right_moves_low_trit_to_top() {
    assert_eq!(Value::new(1).shr().val(), 19683);
    assert_eq!(Value::new(5).shr().val(), 2 * 19683 + 1);
    assert_eq!(Value::zero().shr().val(), 0);
    assert_eq!(Value::new(59048).shr().val(), 59048);
}

#[test]
fn rotate_right_ten_times_is_identity() {
    for start in [0u16, 1, 2, 12345, 29524, 59047, 59048] {
        let mut v = Value::new(start);
        for _ in 0..10 {
            v = v.shr();
        }
        assert_eq!(v.val(), start);
    }
}

#[test]
fn rotate_right_is_injective_on_a_sample() {
    // distinct inputs keep distinct images under one rotation
    let mut seen = std::collections::HashSet::new();
    for v in 0u16..2000 {
        assert!(seen.insert(Value::new(v).shr().val()));
    }
}

#[test]
fn crazy_operation_matches_table_examples() {
    // all trit pairs (0,0): every result trit is 1
    assert_eq!(Value::zero().crz(Value::zero()).val(), 29524);
    // low trit pair (0,1) gives 1, the rest stay 1
    assert_eq!(Value::zero().crz(Value::new(1)).val(), 29524);
    // low trit pair (1,0) gives 0, the rest stay 1
    assert_eq!(Value::new(1).crz(Value::zero()).val(), 29523);
}

#[test]
fn crazy_operation_is_not_commutative() {
    let a = Value::zero();
    let b = Value::new(1);
    assert_ne!(a.crz(b).val(), b.crz(a).val());
}
