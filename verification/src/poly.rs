//! Evaluation of a coefficient-form polynomial over `F_p`.
use vstd::prelude::*;
use vstd::arithmetic::power::*;
use vstd::arithmetic::div_mod::*;

verus! {

/// The unreduced sum of the first `n` terms of the polynomial with
/// coefficients `m` (ascending power order) at the point `x`:
/// `m[0]*x^0 + m[1]*x^1 + ... + m[n-1]*x^(n-1)`.
pub open spec fn poly_term_sum(m: Seq<u64>, x: int, n: int) -> int
    decreases n,
{
    if n <= 0 {
        0
    } else {
        poly_term_sum(m, x, n - 1) + m[n - 1] * pow(x, (n - 1) as nat)
    }
}

/// The value of the polynomial with coefficients `m` at `x`, reduced mod `p`.
pub open spec fn poly_eval(m: Seq<u64>, p: int, x: int) -> int
    recommends
        p >= 1,
{
    poly_term_sum(m, x, m.len() as int) % p
}

/// Evaluates `f(x) = sum message[i] * x^i mod p`, reducing after every
/// operation. Total for every coefficient sequence, including the empty one,
/// which evaluates to 0.
pub fn evaluate_polynomial(message: &[u64], p: u64, x: u64) -> (r: u64)
    requires
        p >= 1,
    ensures
        r == poly_eval(message@, p as int, x as int),
        r < p,
{
    let mut result: u64 = 0;
    let mut xi: u64 = 1 % p;
    let n = message.len();
    proof {
        lemma_pow0(x as int);
        lemma_small_mod(0, p as nat);
    }
    let mut i: usize = 0;
    while i < n
        invariant
            p >= 1,
            i <= n,
            n == message@.len(),
            result == poly_term_sum(message@, x as int, i as int) % (p as int),
            result < p,
            xi == pow(x as int, i as nat) % (p as int),
            xi < p,
        decreases n - i,
    {
        let coeff = message[i];
        proof {
            assert((coeff as int) * (xi as int) <= 0xFFFF_FFFF_FFFF_FFFFu64
                * 0xFFFF_FFFF_FFFF_FFFFu64) by (nonlinear_arith)
                requires
                    coeff <= 0xFFFF_FFFF_FFFF_FFFFu64,
                    xi <= 0xFFFF_FFFF_FFFF_FFFFu64;
        }
        let term: u64 = (((coeff as u128) * (xi as u128)) % (p as u128)) as u64;
        proof {
            let pi = p as int;
            let xint = x as int;
            lemma_mul_mod_noop_right(coeff as int, pow(xint, i as nat), pi);
            assert(term == (coeff as int * pow(xint, i as nat)) % pi);
            lemma_add_mod_noop(poly_term_sum(message@, xint, i as int),
                coeff as int * pow(xint, i as nat), pi);
            assert((result + term) % pi
                == poly_term_sum(message@, xint, (i + 1) as int) % pi);
        }
        result = (((result as u128) + (term as u128)) % (p as u128)) as u64;
        proof {
            let pi = p as int;
            let xint = x as int;
            lemma_mul_mod_noop_left(pow(xint, i as nat), xint, pi);
            lemma_pow_adds(xint, i as nat, 1);
            lemma_pow1(xint);
            assert((xi as int) * (x as int) <= 0xFFFF_FFFF_FFFF_FFFFu64
                * 0xFFFF_FFFF_FFFF_FFFFu64) by (nonlinear_arith)
                requires
                    xi <= 0xFFFF_FFFF_FFFF_FFFFu64,
                    x <= 0xFFFF_FFFF_FFFF_FFFFu64;
        }
        xi = (((xi as u128) * (x as u128)) % (p as u128)) as u64;
        i = i + 1;
    }
    result
}

/// The polynomial evaluated at 0 is its constant term reduced mod `p`, or 0
/// when the coefficient sequence is empty: every term past the first carries
/// a factor `0^i = 0`.
pub proof fn lemma_evaluate_at_zero(m: Seq<u64>, p: int)
    requires
        p >= 1,
    ensures
        m.len() == 0 ==> poly_eval(m, p, 0) == 0,
        m.len() > 0 ==> poly_eval(m, p, 0) == (m[0] as int) % p,
{
    lemma_term_sum_at_zero(m, m.len() as int);
}

/// The unreduced term sum at `x = 0` collapses to the constant term.
proof fn lemma_term_sum_at_zero(m: Seq<u64>, n: int)
    requires
        n <= m.len(),
    ensures
        n <= 0 ==> poly_term_sum(m, 0, n) == 0,
        n > 0 ==> poly_term_sum(m, 0, n) == m[0],
    decreases n,
{
    if n > 0 {
        lemma_term_sum_at_zero(m, n - 1);
        if n == 1 {
            lemma_pow0(0);
        } else {
            lemma0_pow((n - 1) as nat);
        }
    }
}

/// The empty coefficient sequence evaluates to 0 at every point.
pub proof fn lemma_empty_message_evaluates_to_zero(p: int, x: int)
    requires
        p >= 1,
    ensures
        poly_eval(Seq::<u64>::empty(), p, x) == 0,
{
    lemma_small_mod(0, p as nat);
}

} // verus!
