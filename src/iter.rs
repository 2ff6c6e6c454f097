//! The moving position `(n, k)` in Pascal's triangle with its coefficient,
//! and the sequences that walk it in one direction.
use vstd::prelude::*;
use crate::arith::mul_div_gcd;
use crate::coeff::{binomial, checked_binom, lemma_exact_quotient, lemma_step_k, lemma_step_n};

verus! {

/// A direction in which a position moves by one.
#[derive(Clone, Copy, PartialEq, Eq, Structural, Debug)]
pub enum Step {
    IncN,
    DecN,
    IncK,
    DecK,
}

impl Step {
    /// The step moves `n`, and a sequence of such steps reports `n`; the
    /// others move and report `k`.
    pub open spec fn moves_n(self) -> bool {
        self is IncN || self is DecN
    }
}

/// The position one `step` away from `(n, k)`, where the coefficient there
/// is defined and fits in a `u32`; `None` where there is no such successor.
pub open spec fn step_target(step: Step, n: nat, k: nat) -> Option<(nat, nat)> {
    match step {
        Step::IncN => if n < u32::MAX && binomial(n + 1, k) <= u32::MAX {
            Some((n + 1, k))
        } else {
            None
        },
        Step::DecN => if n > k {
            Some(((n - 1) as nat, k))
        } else {
            None
        },
        Step::IncK => if k < n && binomial(n, k + 1) <= u32::MAX {
            Some((n, k + 1))
        } else {
            None
        },
        Step::DecK => if k > 0 && binomial(n, (k - 1) as nat) <= u32::MAX {
            Some((n, (k - 1) as nat))
        } else {
            None
        },
    }
}

/// A position `(n, k)`, `k <= n`, together with `C(n, k)`, which the step
/// methods keep up to date.
#[derive(Clone, Copy, PartialEq, Eq, Structural, Debug)]
pub struct BinomialIter {
    n: u32,
    k: u32,
    binom: u32,
}

impl BinomialIter {
    pub closed spec fn spec_n(&self) -> nat {
        self.n as nat
    }

    pub closed spec fn spec_k(&self) -> nat {
        self.k as nat
    }

    pub closed spec fn spec_binom(&self) -> nat {
        self.binom as nat
    }

    /// `k <= n` and the value held is `C(n, k)`.
    pub open spec fn wf(&self) -> bool {
        &&& self.spec_k() <= self.spec_n()
        &&& self.spec_binom() == binomial(self.spec_n(), self.spec_k())
    }

    /// The index that a step in direction `step` reports.
    pub open spec fn spec_index(&self, step: Step) -> nat {
        if step.moves_n() {
            self.spec_n()
        } else {
            self.spec_k()
        }
    }

    /// `after` and `r` are what one step in direction `step` gives from
    /// `self`: the successor position and the pair (moved index, new
    /// coefficient), or, where there is no successor, `self` unchanged and
    /// `None`.
    pub open spec fn stepped(&self, step: Step, after: BinomialIter, r: Option<(u32, u32)>) -> bool {
        match step_target(step, self.spec_n(), self.spec_k()) {
            Some((n, k)) => {
                &&& after.spec_n() == n
                &&& after.spec_k() == k
                &&& r == Some((after.spec_index(step) as u32, after.spec_binom() as u32))
            },
            None => after == *self && r is None,
        }
    }

    /// The position `(n, k)`, its coefficient computed once from the
    /// recursive definition.
    pub fn new(n: u32, k: u32) -> (r: BinomialIter)
        requires
            k <= n,
            binomial(n as nat, k as nat) <= u32::MAX,
        ensures
            r.wf(),
            r.spec_n() == n,
            r.spec_k() == k,
    {
        BinomialIter { n, k, binom: crate::coeff::binom(n, k) }
    }

    /// The position `(n, k)`, or `None` when `k > n` or `C(n, k)` does not
    /// fit in a `u32`.
    pub fn try_new(n: u32, k: u32) -> (r: Option<BinomialIter>)
        ensures
            r is Some <==> k <= n && binomial(n as nat, k as nat) <= u32::MAX,
            r matches Some(it) ==> it.wf() && it.spec_n() == n && it.spec_k() == k,
    {
        if k > n {
            return None;
        }
        match checked_binom(n, k) {
            Some(binom) => Some(BinomialIter { n, k, binom }),
            None => None,
        }
    }

    /// The current `n`.
    pub fn n(&self) -> (r: u32)
        ensures
            r == self.spec_n(),
    {
        self.n
    }

    /// The current `k`.
    pub fn k(&self) -> (r: u32)
        ensures
            r == self.spec_k(),
    {
        self.k
    }

    /// The current `C(n, k)`.
    pub fn binom(&self) -> (r: u32)
        ensures
            r == self.spec_binom(),
    {
        self.binom
    }

    /// Moves to `n + 1` and returns `(n + 1, C(n + 1, k))`; `None`, with
    /// nothing changed, when `n + 1` or the new coefficient overflows.
    pub fn inc_n(&mut self) -> (r: Option<(u32, u32)>)
        requires
            old(self).wf(),
        ensures
            final(self).wf(),
            old(self).stepped(Step::IncN, *final(self), r),
    {
        if self.n == u32::MAX {
            return None;
        }
        let n1 = self.n + 1;
        proof {
            lemma_step_n(self.n as nat, self.k as nat);
            lemma_exact_quotient(self.binom * n1, (n1 - self.k) as int, binomial(n1 as nat, self.k as nat) as int);
        }
        match mul_div_gcd(self.binom, n1, n1 - self.k) {
            Some(binom) => {
                self.n = n1;
                self.binom = binom;
                Some((n1, binom))
            },
            None => None,
        }
    }

    /// Moves to `n - 1` and returns `(n - 1, C(n - 1, k))`; `None`, with
    /// nothing changed, when `n == k`.
    pub fn dec_n(&mut self) -> (r: Option<(u32, u32)>)
        requires
            old(self).wf(),
        ensures
            final(self).wf(),
            old(self).stepped(Step::DecN, *final(self), r),
    {
        if self.n <= self.k {
            return None;
        }
        let n1 = self.n - 1;
        proof {
            lemma_step_n(n1 as nat, self.k as nat);
            lemma_exact_quotient(self.binom * (self.n - self.k), self.n as int, binomial(n1 as nat, self.k as nat) as int);
        }
        match mul_div_gcd(self.binom, self.n - self.k, self.n) {
            Some(binom) => {
                self.n = n1;
                self.binom = binom;
                Some((n1, binom))
            },
            None => None,
        }
    }

    /// Moves to `k + 1` and returns `(k + 1, C(n, k + 1))`; `None`, with
    /// nothing changed, when `k == n` or the new coefficient overflows.
    pub fn inc_k(&mut self) -> (r: Option<(u32, u32)>)
        requires
            old(self).wf(),
        ensures
            final(self).wf(),
            old(self).stepped(Step::IncK, *final(self), r),
    {
        if self.n <= self.k {
            return None;
        }
        let k1 = self.k + 1;
        proof {
            lemma_step_k(self.n as nat, self.k as nat);
            lemma_exact_quotient(self.binom * (self.n - self.k), k1 as int, binomial(self.n as nat, k1 as nat) as int);
        }
        match mul_div_gcd(self.binom, self.n - self.k, k1) {
            Some(binom) => {
                self.k = k1;
                self.binom = binom;
                Some((k1, binom))
            },
            None => None,
        }
    }

    /// Moves to `k - 1` and returns `(k - 1, C(n, k - 1))`; `None`, with
    /// nothing changed, when `k == 0` or the new coefficient overflows.
    pub fn dec_k(&mut self) -> (r: Option<(u32, u32)>)
        requires
            old(self).wf(),
        ensures
            final(self).wf(),
            old(self).stepped(Step::DecK, *final(self), r),
    {
        if self.k == 0 {
            return None;
        }
        let k1 = self.k - 1;
        proof {
            lemma_step_k(self.n as nat, k1 as nat);
            lemma_exact_quotient(self.binom * self.k, (self.n - k1) as int, binomial(self.n as nat, k1 as nat) as int);
        }
        match mul_div_gcd(self.binom, self.k, self.n - k1) {
            Some(binom) => {
                self.k = k1;
                self.binom = binom;
                Some((k1, binom))
            },
            None => None,
        }
    }
}

/// Round trip: two well-formed positions at the same `(n, k)` are equal, so
/// whatever steps lead back to a position, the value held there is the one
/// that `new` computes from the recursive definition.
pub proof fn lemma_round_trip(a: BinomialIter, b: BinomialIter)
    requires
        a.wf(),
        b.wf(),
        a.spec_n() == b.spec_n(),
        a.spec_k() == b.spec_k(),
    ensures
        a == b,
        a.spec_binom() == binomial(a.spec_n(), a.spec_k()),
{
}

impl BinomialIter {
    /// One step in direction `step`.
    pub fn step(&mut self, step: Step) -> (r: Option<(u32, u32)>)
        requires
            old(self).wf(),
        ensures
            final(self).wf(),
            old(self).stepped(step, *final(self), r),
    {
        match step {
            Step::IncN => self.inc_n(),
            Step::DecN => self.dec_n(),
            Step::IncK => self.inc_k(),
            Step::DecK => self.dec_k(),
        }
    }

    /// The sequence that reports `(n, C(n, k))` here, then after each `inc_n`.
    pub fn iter_inc_n(self) -> (r: BinomialSeq)
        requires
            self.wf(),
        ensures
            r.wf(),
            r.spec_inner() == self,
            r.spec_step() == Step::IncN,
            r.spec_first(),
    {
        BinomialSeq { inner: self, step: Step::IncN, first: true }
    }

    /// The sequence that reports `(n, C(n, k))` here, then after each `dec_n`.
    pub fn iter_dec_n(self) -> (r: BinomialSeq)
        requires
            self.wf(),
        ensures
            r.wf(),
            r.spec_inner() == self,
            r.spec_step() == Step::DecN,
            r.spec_first(),
    {
        BinomialSeq { inner: self, step: Step::DecN, first: true }
    }

    /// The sequence that reports `(k, C(n, k))` here, then after each `inc_k`.
    pub fn iter_inc_k(self) -> (r: BinomialSeq)
        requires
            self.wf(),
        ensures
            r.wf(),
            r.spec_inner() == self,
            r.spec_step() == Step::IncK,
            r.spec_first(),
    {
        BinomialSeq { inner: self, step: Step::IncK, first: true }
    }

    /// The sequence that reports `(k, C(n, k))` here, then after each `dec_k`.
    pub fn iter_dec_k(self) -> (r: BinomialSeq)
        requires
            self.wf(),
        ensures
            r.wf(),
            r.spec_inner() == self,
            r.spec_step() == Step::DecK,
            r.spec_first(),
    {
        BinomialSeq { inner: self, step: Step::DecK, first: true }
    }
}

/// A forward-only sequence over a `BinomialIter` that it owns: first the
/// current (index, coefficient), then the result of each further step, until
/// a step has no successor.
pub struct BinomialSeq {
    inner: BinomialIter,
    step: Step,
    first: bool,
}

impl BinomialSeq {
    pub closed spec fn spec_inner(&self) -> BinomialIter {
        self.inner
    }

    pub closed spec fn spec_step(&self) -> Step {
        self.step
    }

    /// The current position has not been reported yet.
    pub closed spec fn spec_first(&self) -> bool {
        self.first
    }

    pub open spec fn wf(&self) -> bool {
        self.spec_inner().wf()
    }

    /// A bound on how many more elements the sequence can report.
    pub open spec fn remaining(&self) -> nat {
        let it = self.spec_inner();
        (if self.spec_first() { 1nat } else { 0nat }) + match self.spec_step() {
            Step::IncN => (u32::MAX - it.spec_n()) as nat,
            Step::DecN => (it.spec_n() - it.spec_k()) as nat,
            Step::IncK => (it.spec_n() - it.spec_k()) as nat,
            Step::DecK => it.spec_k(),
        }
    }

    /// The next (index, coefficient): the current one on the first call,
    /// then the result of one more step. Each element reported brings
    /// `remaining` down, so every such sequence ends.
    pub fn next(&mut self) -> (r: Option<(u32, u32)>)
        requires
            old(self).wf(),
        ensures
            final(self).wf(),
            final(self).spec_step() == old(self).spec_step(),
            !final(self).spec_first(),
            if old(self).spec_first() {
                &&& final(self).spec_inner() == old(self).spec_inner()
                &&& r == Some((
                    old(self).spec_inner().spec_index(old(self).spec_step()) as u32,
                    old(self).spec_inner().spec_binom() as u32,
                ))
            } else {
                old(self).spec_inner().stepped(old(self).spec_step(), final(self).spec_inner(), r)
            },
            r is Some ==> final(self).remaining() < old(self).remaining(),
    {
        if self.first {
            self.first = false;
            let index = match self.step {
                Step::IncN | Step::DecN => self.inner.n,
                Step::IncK | Step::DecK => self.inner.k,
            };
            Some((index, self.inner.binom))
        } else {
            self.inner.step(self.step)
        }
    }

    /// The position the sequence has reached.
    pub fn inner(&self) -> (r: &BinomialIter)
        ensures
            *r == self.spec_inner(),
    {
        &self.inner
    }
}

} // verus!
