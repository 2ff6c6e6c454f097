use binomial_iter::{binom, gcd, mul_div_gcd, BinomialIter};

#[test]
fn gcd_values() {
    assert_eq!(gcd(12, 18), 6);
    assert_eq!(gcd(17, 5), 1);
    assert_eq!(gcd(u32::MAX, 3), 3);
}

#[test]
fn gcd_of_zero_is_one() {
    assert_eq!(gcd(0, 5), 1);
    assert_eq!(gcd(7, 0), 1);
    assert_eq!(gcd(0, 0), 1);
}

#[test]
fn mul_div_gcd_values() {
    assert_eq!(mul_div_gcd(10, 6, 4), Some(15));
    assert_eq!(mul_div_gcd(0, 9, 3), Some(0));
    assert_eq!(mul_div_gcd(9, 0, 3), Some(0));
    assert_eq!(mul_div_gcd(7, 3, 0), None);
}

#[test]
fn mul_div_gcd_cancels_before_multiplying() {
    assert_eq!(mul_div_gcd(u32::MAX, 2, 2), Some(u32::MAX));
    assert_eq!(mul_div_gcd(u32::MAX - 1, u32::MAX, u32::MAX), Some(u32::MAX - 1));
    assert_eq!(mul_div_gcd(u32::MAX, 4, 2), None);
}

#[test]
fn round_trip_returns_same_state() {
    let start = BinomialIter::new(10, 4);
    let mut it = start;
    assert!(it.inc_n().is_some());
    assert!(it.inc_k().is_some());
    assert!(it.inc_k().is_some());
    assert!(it.dec_n().is_some());
    assert!(it.dec_k().is_some());
    assert!(it.dec_k().is_some());
    assert!(it == start);
    assert_eq!(it.binom(), binom(10, 4));
    assert_eq!(it.binom(), 210);
}

#[test]
fn pascal_symmetry() {
    for n in 0..30 {
        for k in 0..=n {
            assert_eq!(binom(n, k), binom(n, n - k));
        }
    }
}

#[test]
fn boundary_values_and_inc_k_to_n() {
    for n in 0..34 {
        assert_eq!(binom(n, 0), 1);
        assert_eq!(binom(n, n), 1);
        let mut it = BinomialIter::new(n, 0);
        for k in 1..=n {
            assert_eq!(it.inc_k(), Some((k, binom(n, k))));
        }
        assert_eq!(it.inc_k(), None);
    }
}

#[test]
fn inc_n_sequence_ends_on_overflow() {
    let cases: [(u32, u32, u32); 4] = [
        (2, 92682, 4294930221),
        (3, 2954, 4291795704),
        (4, 568, 4291262010),
        (5, 222, 4294249674),
    ];
    for (k, last_n, last_value) in cases {
        let mut it = BinomialIter::new(k, k).iter_inc_n();
        let mut expected_n = k;
        let mut last = (0, 0);
        while let Some((n, value)) = it.next() {
            assert_eq!(n, expected_n);
            if n < 300 {
                assert_eq!(value, binom(n, k));
            }
            expected_n += 1;
            last = (n, value);
        }
        assert_eq!(last, (last_n, last_value));
        assert_eq!(it.next(), None);
        assert_eq!(it.next(), None);
    }
}

#[test]
fn sequence_reports_current_state_first() {
    let mut it = BinomialIter::new(6, 3).iter_dec_n();
    assert_eq!(it.next(), Some((6, 20)));
    assert_eq!(it.next(), Some((5, 10)));
    assert_eq!(it.next(), Some((4, 4)));
    assert_eq!(it.next(), Some((3, 1)));
    assert_eq!(it.next(), None);
    assert_eq!(it.inner().n(), 3);
}
