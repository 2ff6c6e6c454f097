use binomial_iter::{binom, BinomialIter};

const N: u32 = 1000;

// `inc_k` and `dec_k` are tested together because it is not known in advance
// for which `n` choose `k` `binom` can still be used.
#[test]
fn k_iter() {
    for n in 0..N {
        let mut it = BinomialIter::new(n, 0).iter_inc_k();

        while let Some((k, bin)) = it.next() {
            assert!(binom(n, k) == bin);
            println!("{}|{} = {}", n, k, bin);
        }

        let mut it = it.inner().iter_dec_k();

        while let Some((k, bin)) = it.next() {
            assert!(binom(n, k) == bin);
            println!("{}|{} = {}", n, k, bin);
        }
    }
}
