//! Binomial coefficients `C(n, k)` kept up to date while `n` or `k` moves by
//! one: each step is a single reduced multiply-divide on the current value.
pub mod arith;
pub mod coeff;
pub mod iter;

pub use arith::{gcd, mul_div_gcd};
pub use coeff::{binom, checked_binom};
pub use iter::{BinomialIter, BinomialSeq, Step};
