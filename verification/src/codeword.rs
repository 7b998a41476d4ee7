//! Generation of a full Reed–Solomon codeword: the polynomial evaluated at
//! every element of `F_p`, by either representation.
use vstd::prelude::*;
use vstd::arithmetic::div_mod::lemma_mod_bound;
use crate::poly::{evaluate_polynomial, poly_eval};
use crate::lagrange::{evaluate_lagrange, lagrange_eval, lemma_lagrange_identity_at_anchors};
use crate::fermat::is_prime;

verus! {

/// The codeword of the coefficient polynomial `message`: a sequence of
/// length `p` whose entry `i` is `f(i) mod p`.
pub fn codeword_polynomial(message: &[u64], p: u64) -> (r: Vec<u64>)
    requires
        p >= 1,
    ensures
        r@.len() == p,
        forall|i: int| 0 <= i < p ==> r@[i] == poly_eval(message@, p as int, i),
{
    let mut out: Vec<u64> = Vec::new();
    let mut xv: u64 = 0;
    while xv < p
        invariant
            p >= 1,
            xv <= p,
            out@.len() == xv,
            forall|i: int| 0 <= i < xv ==> out@[i] == poly_eval(message@, p as int, i),
        decreases p - xv,
    {
        out.push(evaluate_polynomial(message, p, xv));
        xv = xv + 1;
    }
    out
}

/// The codeword of the polynomial interpolated through `(xs[i], message[i])`:
/// a sequence of length `p` whose entry `i` is the interpolated value at `i`.
/// As with `evaluate_lagrange`, the entries describe the interpolated
/// polynomial only when `p` is prime and the anchors are pairwise distinct.
pub fn codeword_lagrange(message: &[u64], xs: &[u64], p: u64) -> (r: Vec<u64>)
    requires
        p >= 2,
        message@.len() == xs@.len(),
        forall|j: int| 0 <= j < xs@.len() ==> xs@[j] < p,
    ensures
        r@.len() == p,
        forall|i: int| 0 <= i < p ==> r@[i] == lagrange_eval(message@, xs@, p as int, i),
{
    let mut out: Vec<u64> = Vec::new();
    let mut xv: u64 = 0;
    while xv < p
        invariant
            p >= 2,
            xv <= p,
            message@.len() == xs@.len(),
            forall|j: int| 0 <= j < xs@.len() ==> xs@[j] < p,
            out@.len() == xv,
            forall|i: int| 0 <= i < xv ==> out@[i] == lagrange_eval(message@, xs@, p as int, i),
        decreases p - xv,
    {
        out.push(evaluate_lagrange(message, xs, p, xv));
        xv = xv + 1;
    }
    out
}

/// Cross-representation agreement at the anchors: when the value sequence
/// holds the coefficient polynomial's own evaluations at pairwise distinct
/// anchors, the two codewords coincide at every anchor position. Agreement
/// at the remaining points rests on uniqueness of the interpolating
/// polynomial, which is not proved here.
pub proof fn lemma_codewords_agree_at_anchors(
    message: Seq<u64>,
    values: Seq<u64>,
    xs: Seq<u64>,
    p: int,
    i: int,
)
    requires
        is_prime(p),
        values.len() == xs.len(),
        0 <= i < xs.len(),
        forall|j: int| 0 <= j < xs.len() ==> xs[j] < p,
        forall|j1: int, j2: int| 0 <= j1 < j2 < xs.len() ==> xs[j1] != xs[j2],
        forall|j: int| 0 <= j < values.len()
            ==> values[j] == poly_eval(message, p, #[trigger] xs[j] as int),
    ensures
        lagrange_eval(values, xs, p, xs[i] as int) == poly_eval(message, p, xs[i] as int),
{
    assert forall|j: int| 0 <= j < values.len() implies #[trigger] values[j] < p by {
        lemma_mod_bound(crate::poly::poly_term_sum(message, xs[j] as int, message.len() as int),
            p);
    }
    lemma_lagrange_identity_at_anchors(values, xs, p, i);
}

} // verus!
