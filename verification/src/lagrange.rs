//! Lagrange interpolation over `F_p`: reconstructs the unique polynomial of
//! degree < k through k anchored values and evaluates it at one point.
use vstd::prelude::*;
use vstd::arithmetic::power::*;
use vstd::arithmetic::div_mod::*;
use crate::field::mod_inv;
use crate::fermat::{is_prime, lemma_fermat_little, lemma_mod_mul_nonzero_general};

verus! {

/// The unreduced numerator product of the `i`-th Lagrange basis polynomial at
/// `x`, over the first `n` anchors: `prod_{j < n, j != i} (x - xs[j])`.
pub open spec fn basis_num(x: int, xs: Seq<u64>, i: int, n: int) -> int
    decreases n,
{
    if n <= 0 {
        1
    } else if n - 1 == i {
        basis_num(x, xs, i, n - 1)
    } else {
        basis_num(x, xs, i, n - 1) * (x - xs[n - 1])
    }
}

/// The unreduced denominator product of the `i`-th Lagrange basis polynomial,
/// over the first `n` anchors: `prod_{j < n, j != i} (xs[i] - xs[j])`.
pub open spec fn basis_den(xs: Seq<u64>, i: int, n: int) -> int
    decreases n,
{
    if n <= 0 {
        1
    } else if n - 1 == i {
        basis_den(xs, i, n - 1)
    } else {
        basis_den(xs, i, n - 1) * (xs[i] - xs[n - 1])
    }
}

/// The value of the `i`-th Lagrange basis polynomial at `x`, reduced mod `p`:
/// the numerator product times the Fermat inverse of the denominator product.
pub open spec fn basis_val(x: int, xs: Seq<u64>, p: int, i: int) -> int
    recommends
        p >= 2,
{
    (basis_num(x, xs, i, xs.len() as int)
        * pow(basis_den(xs, i, xs.len() as int), (p - 2) as nat)) % p
}

/// The unreduced sum of the first `n` interpolation terms:
/// `sum_{i < n} values[i] * L_i(x)` with each basis value already reduced.
pub open spec fn lagrange_terms(values: Seq<u64>, xs: Seq<u64>, p: int, x: int, n: int) -> int
    decreases n,
{
    if n <= 0 {
        0
    } else {
        lagrange_terms(values, xs, p, x, n - 1) + values[n - 1] * basis_val(x, xs, p, n - 1)
    }
}

/// The interpolated value at `x` of the polynomial through
/// `(xs[i], values[i])` for all `i`, reduced mod `p`.
pub open spec fn lagrange_eval(values: Seq<u64>, xs: Seq<u64>, p: int, x: int) -> int
    recommends
        p >= 2,
        values.len() == xs.len(),
{
    lagrange_terms(values, xs, p, x, values.len() as int) % p
}

/// Evaluates at `x` the Lagrange interpolation polynomial through the points
/// `(xs[i], message[i])`, over `F_p`.
///
/// The result is the interpolated polynomial's value only when `p` is prime
/// and the anchors are pairwise distinct mod `p`; a repeated anchor makes a
/// denominator zero and its Fermat inverse meaningless. Those are caller
/// obligations, not checked here — the computed value is still well defined
/// and is pinned down exactly by the `ensures`.
pub fn evaluate_lagrange(message: &[u64], xs: &[u64], p: u64, x: u64) -> (r: u64)
    requires
        p >= 2,
        message@.len() == xs@.len(),
        forall|j: int| 0 <= j < xs@.len() ==> xs@[j] < p,
    ensures
        r == lagrange_eval(message@, xs@, p as int, x as int),
        r < p,
{
    let k = message.len();
    let mut result: u64 = 0;
    proof {
        lemma_small_mod(0, p as nat);
    }
    let mut i: usize = 0;
    while i < k
        invariant
            p >= 2,
            i <= k,
            k == message@.len(),
            k == xs@.len(),
            forall|j: int| 0 <= j < xs@.len() ==> xs@[j] < p,
            result == lagrange_terms(message@, xs@, p as int, x as int, i as int) % (p as int),
            result < p,
        decreases k - i,
    {
        let mut num: u64 = 1 % p;
        let mut den: u64 = 1 % p;
        let mut j: usize = 0;
        while j < k
            invariant
                p >= 2,
                i < k,
                j <= k,
                k == message@.len(),
                k == xs@.len(),
                forall|jj: int| 0 <= jj < xs@.len() ==> xs@[jj] < p,
                num == basis_num(x as int, xs@, i as int, j as int) % (p as int),
                num < p,
                den == basis_den(xs@, i as int, j as int) % (p as int),
                den < p,
            decreases k - j,
        {
            if i != j {
                let fx: u64 = (((x as u128) + (p as u128) - (xs[j] as u128)) % (p as u128)) as u64;
                let fd: u64 = (((xs[i] as u128) + (p as u128) - (xs[j] as u128)) % (p as u128)) as u64;
                proof {
                    let pi = p as int;
                    lemma_mod_add_multiples_vanish(x as int - xs@[j as int], pi);
                    assert(fx == (x as int - xs@[j as int]) % pi);
                    lemma_mod_add_multiples_vanish(xs@[i as int] - xs@[j as int], pi);
                    assert(fd == (xs@[i as int] - xs@[j as int]) % pi);
                    assert((num as int) * (fx as int) <= 0xFFFF_FFFF_FFFF_FFFFu64
                        * 0xFFFF_FFFF_FFFF_FFFFu64) by (nonlinear_arith)
                        requires
                            num <= 0xFFFF_FFFF_FFFF_FFFFu64,
                            fx <= 0xFFFF_FFFF_FFFF_FFFFu64;
                    assert((den as int) * (fd as int) <= 0xFFFF_FFFF_FFFF_FFFFu64
                        * 0xFFFF_FFFF_FFFF_FFFFu64) by (nonlinear_arith)
                        requires
                            den <= 0xFFFF_FFFF_FFFF_FFFFu64,
                            fd <= 0xFFFF_FFFF_FFFF_FFFFu64;
                    lemma_mul_mod_noop(basis_num(x as int, xs@, i as int, j as int),
                        x as int - xs@[j as int], pi);
                    lemma_mul_mod_noop(basis_den(xs@, i as int, j as int),
                        xs@[i as int] - xs@[j as int], pi);
                }
                num = (((num as u128) * (fx as u128)) % (p as u128)) as u64;
                den = (((den as u128) * (fd as u128)) % (p as u128)) as u64;
            }
            j = j + 1;
        }
        let inv = mod_inv(den, p);
        proof {
            let pi = p as int;
            let nb = basis_num(x as int, xs@, i as int, k as int);
            let db = basis_den(xs@, i as int, k as int);
            lemma_pow_mod_noop(db, (p - 2) as nat, pi);
            assert(inv == pow(db, (p - 2) as nat) % pi);
            assert((num as int) * (inv as int) <= 0xFFFF_FFFF_FFFF_FFFFu64
                * 0xFFFF_FFFF_FFFF_FFFFu64) by (nonlinear_arith)
                requires
                    num <= 0xFFFF_FFFF_FFFF_FFFFu64,
                    inv <= 0xFFFF_FFFF_FFFF_FFFFu64;
            lemma_mul_mod_noop(nb, pow(db, (p - 2) as nat), pi);
        }
        let li: u64 = (((num as u128) * (inv as u128)) % (p as u128)) as u64;
        let mi = message[i];
        proof {
            let pi = p as int;
            assert(li == basis_val(x as int, xs@, pi, i as int));
            assert((mi as int) * (li as int) <= 0xFFFF_FFFF_FFFF_FFFFu64
                * 0xFFFF_FFFF_FFFF_FFFFu64) by (nonlinear_arith)
                requires
                    mi <= 0xFFFF_FFFF_FFFF_FFFFu64,
                    li <= 0xFFFF_FFFF_FFFF_FFFFu64;
            lemma_add_mod_noop(lagrange_terms(message@, xs@, pi, x as int, i as int),
                (mi as int) * basis_val(x as int, xs@, pi, i as int), pi);
        }
        let term: u64 = (((mi as u128) * (li as u128)) % (p as u128)) as u64;
        proof {
            let pi = p as int;
            lemma_mod_twice((mi as int) * basis_val(x as int, xs@, pi, i as int), pi);
            lemma_add_mod_noop_right(lagrange_terms(message@, xs@, pi, x as int, i as int),
                (mi as int) * basis_val(x as int, xs@, pi, i as int), pi);
        }
        result = (((result as u128) + (term as u128)) % (p as u128)) as u64;
        i = i + 1;
    }
    result
}

/// A basis numerator vanishes mod `p` once the evaluation point coincides
/// with an anchor other than the basis's own: that factor is zero.
proof fn lemma_basis_num_zero(x: int, xs: Seq<u64>, i: int, n: int, l: int, p: int)
    requires
        p >= 2,
        0 <= l < n <= xs.len(),
        l != i,
        x == xs[l],
    ensures
        basis_num(x, xs, i, n) % p == 0,
    decreases n,
{
    lemma_small_mod(0, p as nat);
    if n - 1 == l {
        assert(basis_num(x, xs, i, n) == basis_num(x, xs, i, n - 1) * 0);
    } else {
        lemma_basis_num_zero(x, xs, i, n - 1, l, p);
        if n - 1 != i {
            lemma_mul_mod_noop_left(basis_num(x, xs, i, n - 1), x - xs[n - 1], p);
        }
    }
}

/// At its own anchor, a basis polynomial's numerator product equals its
/// denominator product: the factors coincide.
proof fn lemma_basis_num_is_den(xs: Seq<u64>, i: int, n: int)
    requires
        0 <= i < xs.len(),
        n <= xs.len(),
    ensures
        basis_num(xs[i] as int, xs, i, n) == basis_den(xs, i, n),
    decreases n,
{
    if n > 0 {
        lemma_basis_num_is_den(xs, i, n - 1);
    }
}

/// With pairwise distinct anchors below a prime `p`, a basis denominator is
/// nonzero mod `p`: each factor is, and `F_p` has no zero divisors.
proof fn lemma_basis_den_nonzero(xs: Seq<u64>, p: int, i: int, n: int)
    requires
        is_prime(p),
        0 <= i < xs.len(),
        n <= xs.len(),
        forall|j: int| 0 <= j < xs.len() ==> xs[j] < p,
        forall|j1: int, j2: int| 0 <= j1 < j2 < xs.len() ==> xs[j1] != xs[j2],
    ensures
        basis_den(xs, i, n) % p != 0,
    decreases n,
{
    if n <= 0 {
        lemma_small_mod(1, p as nat);
    } else if n - 1 == i {
        lemma_basis_den_nonzero(xs, p, i, n - 1);
    } else {
        lemma_basis_den_nonzero(xs, p, i, n - 1);
        let d = xs[i] as int - xs[n - 1] as int;
        assert(xs[i] != xs[n - 1]);
        if d > 0 {
            lemma_small_mod(d as nat, p as nat);
        } else {
            lemma_mod_add_multiples_vanish(d, p);
            lemma_small_mod((p + d) as nat, p as nat);
        }
        lemma_mod_mul_nonzero_general(p, basis_den(xs, i, n - 1), d);
    }
}

/// At its own anchor, a Lagrange basis polynomial evaluates to exactly 1:
/// the numerator equals the denominator, whose Fermat inverse cancels it.
proof fn lemma_basis_val_at_own_anchor(xs: Seq<u64>, p: int, i: int)
    requires
        is_prime(p),
        0 <= i < xs.len(),
        forall|j: int| 0 <= j < xs.len() ==> xs[j] < p,
        forall|j1: int, j2: int| 0 <= j1 < j2 < xs.len() ==> xs[j1] != xs[j2],
    ensures
        basis_val(xs[i] as int, xs, p, i) == 1,
{
    let n = xs.len() as int;
    lemma_basis_num_is_den(xs, i, n);
    let d = basis_den(xs, i, n);
    lemma_basis_den_nonzero(xs, p, i, n);
    let dr = d % p;
    lemma_mod_bound(d, p);
    lemma_mul_mod_noop(d, pow(d, (p - 2) as nat), p);
    lemma_pow_mod_noop(d, (p - 2) as nat, p);
    lemma_mul_mod_noop_right(dr, pow(dr, (p - 2) as nat), p);
    lemma_pow_adds(dr, 1, (p - 2) as nat);
    lemma_pow1(dr);
    lemma_fermat_little(p, dr);
    assert(basis_val(xs[i] as int, xs, p, i) == (d * pow(d, (p - 2) as nat)) % p);
    assert((d * pow(d, (p - 2) as nat)) % p == (dr * (pow(dr, (p - 2) as nat) % p)) % p);
    assert((dr * (pow(dr, (p - 2) as nat) % p)) % p == (dr * pow(dr, (p - 2) as nat)) % p);
    assert(dr * pow(dr, (p - 2) as nat) == pow(dr, (p - 1) as nat));
}

/// At the anchor `xs[i]`, every other basis polynomial evaluates to 0: its
/// numerator carries the vanishing factor.
proof fn lemma_basis_val_at_other_anchor(xs: Seq<u64>, p: int, i: int, j: int)
    requires
        p >= 2,
        0 <= i < xs.len(),
        0 <= j < xs.len(),
        i != j,
    ensures
        basis_val(xs[i] as int, xs, p, j) == 0,
{
    let n = xs.len() as int;
    let nb = basis_num(xs[i] as int, xs, j, n);
    let pd = pow(basis_den(xs, j, n), (p - 2) as nat);
    lemma_basis_num_zero(xs[i] as int, xs, j, n, i, p);
    assert(nb % p == 0);
    lemma_mul_mod_noop_left(nb, pd, p);
    assert(((nb % p) * pd) % p == (nb * pd) % p);
    lemma_small_mod(0, p as nat);
    assert((nb % p) * pd == 0);
    assert(basis_val(xs[i] as int, xs, p, j) == (nb * pd) % p);
}

/// The interpolation sum at the anchor `xs[i]` collapses to the single term
/// `values[i]`: every other basis value is 0, and the `i`-th is 1.
proof fn lemma_lagrange_terms_at_anchor(values: Seq<u64>, xs: Seq<u64>, p: int, i: int, n: int)
    requires
        is_prime(p),
        values.len() == xs.len(),
        0 <= i < xs.len(),
        n <= xs.len(),
        forall|j: int| 0 <= j < xs.len() ==> xs[j] < p,
        forall|j1: int, j2: int| 0 <= j1 < j2 < xs.len() ==> xs[j1] != xs[j2],
    ensures
        n <= i ==> lagrange_terms(values, xs, p, xs[i] as int, n) == 0,
        n > i ==> lagrange_terms(values, xs, p, xs[i] as int, n) == values[i],
    decreases n,
{
    if n > 0 {
        lemma_lagrange_terms_at_anchor(values, xs, p, i, n - 1);
        if n - 1 == i {
            lemma_basis_val_at_own_anchor(xs, p, i);
        } else {
            lemma_basis_val_at_other_anchor(xs, p, i, n - 1);
        }
    }
}

/// Interpolation identity at the anchors: for prime `p`, pairwise distinct
/// anchors, and values below `p`, the interpolated polynomial passes through
/// every given point: `lagrange_eval(values, xs, p, xs[i]) == values[i]`.
pub proof fn lemma_lagrange_identity_at_anchors(values: Seq<u64>, xs: Seq<u64>, p: int, i: int)
    requires
        is_prime(p),
        values.len() == xs.len(),
        0 <= i < xs.len(),
        forall|j: int| 0 <= j < xs.len() ==> xs[j] < p,
        forall|j1: int, j2: int| 0 <= j1 < j2 < xs.len() ==> xs[j1] != xs[j2],
        forall|j: int| 0 <= j < values.len() ==> values[j] < p,
    ensures
        lagrange_eval(values, xs, p, xs[i] as int) == values[i],
{
    lemma_lagrange_terms_at_anchor(values, xs, p, i, values.len() as int);
    lemma_small_mod(values[i] as nat, p as nat);
}

} // verus!
