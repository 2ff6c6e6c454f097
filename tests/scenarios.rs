use binomial_iter::{binom, checked_binom, BinomialIter, Step};

#[test]
fn inc_n_from_five_choose_two() {
    let mut it = BinomialIter::new(5, 2);
    assert_eq!(it.binom(), 10);
    assert_eq!(it.inc_n(), Some((6, 15)));
    assert_eq!(it.inc_n(), Some((7, 21)));
    assert_eq!((it.n(), it.k(), it.binom()), (7, 2, 21));
}

#[test]
fn dec_k_down_to_zero() {
    let mut it = BinomialIter::new(5, 2);
    assert_eq!(it.binom(), 10);
    assert_eq!(it.dec_k(), Some((1, 5)));
    assert_eq!(it.dec_k(), Some((0, 1)));
    assert_eq!(it.dec_k(), None);
    assert_eq!((it.n(), it.k(), it.binom()), (5, 0, 1));
}

#[test]
fn dec_n_at_diagonal_has_no_successor() {
    let mut it = BinomialIter::new(0, 0);
    assert_eq!(it.binom(), 1);
    assert_eq!(it.dec_n(), None);
    assert_eq!((it.n(), it.k(), it.binom()), (0, 0, 1));
}

#[test]
fn k_above_n_is_rejected() {
    assert!(BinomialIter::try_new(2, 3).is_none());
}

#[test]
fn try_new_rejects_overflowing_start() {
    assert!(BinomialIter::try_new(35, 17).is_none());
    let it = BinomialIter::try_new(34, 17).unwrap();
    assert_eq!((it.n(), it.k(), it.binom()), (34, 17, 2333606220));
    assert_eq!(checked_binom(35, 17), None);
    assert_eq!(checked_binom(34, 17), Some(2333606220));
}

#[test]
fn binom_values() {
    assert_eq!(binom(0, 0), 1);
    assert_eq!(binom(10, 3), 120);
    assert_eq!(binom(52, 5), 2598960);
    assert_eq!(binom(2, 3), 0);
    assert_eq!(binom(u32::MAX, 1), u32::MAX);
}

#[test]
fn inc_k_and_dec_n_values() {
    let mut it = BinomialIter::new(7, 2);
    assert_eq!(it.inc_k(), Some((3, 35)));
    assert_eq!(it.dec_n(), Some((6, 20)));
    assert_eq!(it.step(Step::IncN), Some((7, 35)));
    assert_eq!(it.step(Step::DecK), Some((2, 21)));
}

#[test]
fn inc_k_stops_at_n() {
    let mut it = BinomialIter::new(3, 2);
    assert_eq!(it.inc_k(), Some((3, 1)));
    assert_eq!(it.inc_k(), None);
    assert_eq!((it.n(), it.k(), it.binom()), (3, 3, 1));
}

#[test]
fn inc_n_at_largest_n() {
    let mut it = BinomialIter::new(u32::MAX, 0);
    assert_eq!(it.inc_n(), None);
    assert_eq!((it.n(), it.k(), it.binom()), (u32::MAX, 0, 1));
    let mut it = BinomialIter::new(u32::MAX, u32::MAX);
    assert_eq!(it.inc_n(), None);
    assert_eq!(it.dec_n(), None);
    assert_eq!(it.dec_k(), Some((u32::MAX - 1, u32::MAX)));
}

#[test]
fn dec_k_stops_on_overflow() {
    let mut it = BinomialIter::new(40, 39).iter_dec_k();
    let mut last = (0, 0);
    while let Some(pair) = it.next() {
        assert_eq!(binom(40, pair.0), pair.1);
        last = pair;
    }
    assert_eq!(last, (29, 2311801440));
    assert_eq!((it.inner().n(), it.inner().k()), (40, 29));
}

#[test]
fn inc_k_stops_on_overflow() {
    let mut it = BinomialIter::new(40, 0);
    let mut k = 0;
    while let Some((k1, _)) = it.inc_k() {
        k = k1;
    }
    assert_eq!(k, 11);
    assert_eq!(it.binom(), 2311801440);
}
