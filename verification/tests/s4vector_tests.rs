use nimble::s4vector::S4Vector;

#[test]
fn order_is_lexicographic() {
    let base = S4Vector { ssn: 1, sum: 2, sid: 3, seq: 4 };
    let bigger_ssn = S4Vector { ssn: 2, sum: 0, sid: 0, seq: 0 };
    let bigger_sum = S4Vector { ssn: 1, sum: 3, sid: 0, seq: 0 };
    let bigger_sid = S4Vector { ssn: 1, sum: 2, sid: 4, seq: 0 };
    let bigger_seq = S4Vector { ssn: 1, sum: 2, sid: 3, seq: 5 };

    assert!(base.is_less(&bigger_ssn));
    assert!(base.is_less(&bigger_sum));
    assert!(base.is_less(&bigger_sid));
    assert!(base.is_less(&bigger_seq));
    assert!(!bigger_ssn.is_less(&base));
    assert!(!base.is_less(&base));
}

#[test]
fn generate_takes_the_next_sequence_number() {
    let mut counter: u64 = 0;
    let first = S4Vector::generate(None, None, 1, 2, &mut counter);
    let second = S4Vector::generate(None, None, 1, 2, &mut counter);
    assert_eq!(first.seq, 0);
    assert_eq!(second.seq, 1);
    assert_eq!(counter, 2);
    assert_ne!(first, second);
    assert!(first.is_less(&second));
}

#[test]
fn generate_sums_one_above_the_deeper_anchor() {
    let mut counter: u64 = 5;
    let left = S4Vector { ssn: 1, sum: 4, sid: 1, seq: 0 };
    let right = S4Vector { ssn: 1, sum: 7, sid: 2, seq: 0 };
    let s4 = S4Vector::generate(Some(&left), Some(&right), 1, 3, &mut counter);
    assert_eq!(s4.sum, 8);
    assert_eq!(s4.ssn, 1);
    assert_eq!(s4.sid, 3);
    assert_eq!(s4.seq, 5);
    assert!(left.is_less(&s4));
    assert!(right.is_less(&s4));

    let mut counter2: u64 = 0;
    let headless = S4Vector::generate(None, None, 1, 1, &mut counter2);
    assert_eq!(headless.sum, 1);
}
