//! Number theory behind the Fermat inverse: primality, Bézout coefficients,
//! and Fermat's little theorem.
use vstd::prelude::*;
use vstd::arithmetic::div_mod::*;
use vstd::arithmetic::power::*;
use vstd::seq_lib::*;
use vstd::set_lib::*;
use crate::field::mod_inv_spec;

verus! {

/// `p` is a prime number: at least 2, with no divisor strictly between 1
/// and itself.
pub open spec fn is_prime(p: int) -> bool {
    p >= 2 && forall|d: int| 2 <= d < p ==> #[trigger] (p % d) != 0
}

/// Euclid's greatest common divisor.
spec fn gcd(a: nat, b: nat) -> nat
    decreases b,
{
    if b == 0 {
        a
    } else {
        gcd(b, a % b)
    }
}

/// The gcd of `a > 0` and `b` is positive and divides both.
proof fn lemma_gcd_divides(a: nat, b: nat)
    requires
        a > 0,
    ensures
        gcd(a, b) > 0,
        a % gcd(a, b) == 0,
        b % gcd(a, b) == 0,
    decreases b,
{
    let g = gcd(a, b) as int;
    if b == 0 {
        lemma_mod_self_0(a as int);
        lemma_small_mod(0, a);
    } else {
        lemma_gcd_divides(b, a % b);
        lemma_fundamental_div_mod(a as int, b as int);
        lemma_fundamental_div_mod(b as int, g);
        lemma_fundamental_div_mod((a % b) as int, g);
        let q = a as int / b as int;
        let k1 = b as int / g;
        let k2 = (a % b) as int / g;
        assert(a as int == (k1 * q + k2) * g) by (nonlinear_arith)
            requires
                a as int == b as int * q + (a % b),
                b as int == g * k1,
                (a % b) as int == g * k2;
        lemma_mod_multiples_basic(k1 * q + k2, g);
    }
}

/// Bézout's identity: coefficients `u, v` with `u*a + v*b == gcd(a, b)`.
proof fn lemma_bezout(a: nat, b: nat) -> (uv: (int, int))
    ensures
        uv.0 * a + uv.1 * b == gcd(a, b),
    decreases b,
{
    if b == 0 {
        (1int, 0int)
    } else {
        let (u2, v2) = lemma_bezout(b, a % b);
        lemma_fundamental_div_mod(a as int, b as int);
        let q = a as int / b as int;
        assert(v2 * a + (u2 - v2 * q) * b == u2 * b + v2 * (a - b * q)) by (nonlinear_arith);
        (v2, u2 - v2 * q)
    }
}

/// For prime `p` and `0 < a < p` there is a `v` with `v*a ≡ 1 (mod p)`:
/// `a` and `p` are coprime, so Bézout coefficients give the inverse.
proof fn lemma_prime_inverse(p: int, a: int) -> (v: int)
    requires
        is_prime(p),
        0 < a < p,
    ensures
        (v * a) % p == 1,
{
    lemma_gcd_divides(p as nat, a as nat);
    let g = gcd(p as nat, a as nat);
    if g > p {
        lemma_small_mod(p as nat, g);
        assert(false);
    }
    if 2 <= g < p {
        assert(p % (g as int) != 0);
        assert(false);
    }
    if g == p {
        lemma_small_mod(a as nat, g);
        assert(false);
    }
    assert(g == 1);
    let (u, v) = lemma_bezout(p as nat, a as nat);
    assert(u * p + v * a == 1);
    lemma_mod_multiples_vanish(u, v * a, p);
    assert(p * u + v * a == u * p + v * a) by (nonlinear_arith);
    lemma_small_mod(1, p as nat);
    v
}

/// Multiplication by `a` is injective mod a prime `p`: from
/// `a*x ≡ a*y (mod p)` follows `x == y` for canonical `x`, `y`.
proof fn lemma_mod_mul_cancel(p: int, a: int, x: int, y: int)
    requires
        is_prime(p),
        0 < a < p,
        0 <= x < p,
        0 <= y < p,
        (a * x) % p == (a * y) % p,
    ensures
        x == y,
{
    let v = lemma_prime_inverse(p, a);
    assert(v * (a * x) == (v * a) * x) by (nonlinear_arith);
    assert(v * (a * y) == (v * a) * y) by (nonlinear_arith);
    lemma_mul_mod_noop_right(v, a * x, p);
    lemma_mul_mod_noop_right(v, a * y, p);
    lemma_mul_mod_noop_left(v * a, x, p);
    lemma_mul_mod_noop_left(v * a, y, p);
    lemma_small_mod(x as nat, p as nat);
    lemma_small_mod(y as nat, p as nat);
    assert(x == (1 * x) % p);
    assert(y == (1 * y) % p);
}

/// A product of two values that are nonzero mod a prime `p` is itself
/// nonzero mod `p`: the field `F_p` has no zero divisors.
pub proof fn lemma_mod_mul_nonzero_general(p: int, x: int, y: int)
    requires
        is_prime(p),
        x % p != 0,
        y % p != 0,
    ensures
        (x * y) % p != 0,
{
    lemma_mul_mod_noop(x, y, p);
    lemma_mod_bound(x, p);
    lemma_mod_bound(y, p);
    lemma_mod_mul_nonzero(p, x % p, y % p);
}

/// The product of the values of a sequence of integers.
spec fn seq_prod(s: Seq<int>) -> int
    decreases s.len(),
{
    if s.len() == 0 {
        1
    } else {
        seq_prod(s.drop_last()) * s.last()
    }
}

/// The sequence `1, 2, ..., k`.
spec fn id_seq(k: nat) -> Seq<int> {
    Seq::new(k, |i: int| 1 + i)
}

/// The sequence `a*1 mod p, a*2 mod p, ..., a*k mod p`.
spec fn mul_seq(a: int, p: int, k: nat) -> Seq<int> {
    Seq::new(k, |i: int| (a * (1 + i)) % p)
}

/// Multiplication mod `p`, as a fold operator.
spec fn mulmod_fn(p: int) -> spec_fn(int, int) -> int {
    |x: int, acc: int| (x * acc) % p
}

/// A product of two nonzero canonical elements is nonzero mod a prime `p`.
proof fn lemma_mod_mul_nonzero(p: int, a: int, x: int)
    requires
        is_prime(p),
        0 < a < p,
        0 < x < p,
    ensures
        (a * x) % p != 0,
{
    if (a * x) % p == 0 {
        lemma_small_mod(0, p as nat);
        assert((a * 0) % p == 0);
        lemma_mod_mul_cancel(p, a, x, 0);
        assert(false);
    }
}

/// One step of the running-product argument: multiplying a partial product
/// by the reduced factor `(a*k) % p` agrees mod `p` with pulling the extra
/// factor `a` out to the power and the factor `k` into the plain product.
proof fn lemma_prod_step(pm1: int, pk1: int, pi1: int, a: int, k: int, p: int)
    requires
        p >= 2,
        pm1 % p == (pk1 * pi1) % p,
    ensures
        (pm1 * ((a * k) % p)) % p == ((a * pk1) * (pi1 * k)) % p,
{
    lemma_mul_mod_noop_general(pm1, a * k, p);
    lemma_mul_mod_noop_general(pk1 * pi1, a * k, p);
    assert((pk1 * pi1) * (a * k) == (a * pk1) * (pi1 * k)) by (nonlinear_arith);
}

/// Reducing the running product mod `p` step by step: the product of
/// `a*1, ..., a*k` (each reduced) agrees mod `p` with `a^k` times the
/// product of `1, ..., k`.
#[verifier::rlimit(60)]
proof fn lemma_mul_seq_prod(a: int, p: int, k: nat)
    requires
        p >= 2,
    ensures
        seq_prod(mul_seq(a, p, k)) % p == (pow(a, k) * seq_prod(id_seq(k))) % p,
    decreases k,
{
    if k == 0 {
        assert(mul_seq(a, p, 0).len() == 0);
        assert(id_seq(0).len() == 0);
        lemma_pow0(a);
    } else {
        lemma_mul_seq_prod(a, p, (k - 1) as nat);
        let m1 = mul_seq(a, p, (k - 1) as nat);
        let mk = mul_seq(a, p, k);
        let i1 = id_seq((k - 1) as nat);
        let ik = id_seq(k);
        assert(mk.drop_last() =~= m1);
        assert(ik.drop_last() =~= i1);
        assert(mk.last() == (a * k) % p);
        assert(ik.last() == k);
        let pm1 = seq_prod(m1);
        let pi1 = seq_prod(i1);
        let pk1 = pow(a, (k - 1) as nat);
        assert(seq_prod(mk) == pm1 * ((a * k) % p));
        assert(seq_prod(ik) == pi1 * k);
        lemma_prod_step(pm1, pk1, pi1, a, k as int, p);
        lemma_pow_adds(a, (k - 1) as nat, 1);
        lemma_pow1(a);
        assert(pow(a, k) == pk1 * a);
    }
}

/// Folding multiplication mod `p` over a nonempty sequence from a reduced
/// seed yields the sequence's full product times the seed, reduced mod `p`.
proof fn lemma_fold_is_prod(s: Seq<int>, p: int, v: int)
    requires
        p >= 2,
        0 <= v < p,
        s.len() > 0,
    ensures
        s.fold_right(mulmod_fn(p), v) == (seq_prod(s) * v) % p,
    decreases s.len(),
{
    let f = mulmod_fn(p);
    let v2 = f(s.last(), v);
    assert(v2 == (s.last() * v) % p);
    assert(s.fold_right(f, v) == s.drop_last().fold_right(f, v2));
    if s.len() == 1 {
        assert(s.drop_last().len() == 0);
        assert(s.drop_last().fold_right(f, v2) == v2);
        assert(seq_prod(s.drop_last()) == 1);
        assert(seq_prod(s) == s.last());
    } else {
        lemma_mod_bound(s.last() * v, p);
        lemma_fold_is_prod(s.drop_last(), p, v2);
        lemma_mul_mod_noop_general(seq_prod(s.drop_last()), s.last() * v, p);
        assert(seq_prod(s.drop_last()) * (s.last() * v) == (seq_prod(s.drop_last()) * s.last())
            * v) by (nonlinear_arith);
    }
}

/// For prime `p` and `0 < a < p`, the reduced values `a*1, ..., a*(p-1)`
/// are a permutation of `1, ..., p-1`: multiplication by `a` keeps them
/// nonzero and distinct, and there are `p-1` of them.
proof fn lemma_mul_seq_permutes(p: int, a: int)
    requires
        is_prime(p),
        0 < a < p,
    ensures
        mul_seq(a, p, (p - 1) as nat).to_multiset() == id_seq((p - 1) as nat).to_multiset(),
{
    broadcast use vstd::seq_lib::group_to_multiset_ensures;

    let k = (p - 1) as nat;
    let ms = mul_seq(a, p, k);
    let ids = id_seq(k);
    assert forall|i: int| 0 <= i < k implies 1 <= #[trigger] ms[i] < p by {
        lemma_mod_bound(a * (1 + i), p);
        lemma_mod_mul_nonzero(p, a, 1 + i);
    }
    assert forall|i: int, j: int| 0 <= i < k && 0 <= j < k && i != j implies ms[i] != ms[j] by {
        if ms[i] == ms[j] {
            lemma_mod_mul_cancel(p, a, 1 + i, 1 + j);
        }
    }
    assert(ms.no_duplicates());
    assert(ids.no_duplicates());
    ms.unique_seq_to_set();
    ids.unique_seq_to_set();
    assert forall|e: int| ms.to_set().contains(e) implies ids.to_set().contains(e) by {
        let i = choose|i: int| 0 <= i < ms.len() && ms[i] == e;
        assert(1 <= e < p);
        assert(ids[e - 1] == e);
        assert(ids.contains(e));
    }
    lemma_subset_equality(ms.to_set(), ids.to_set());
    ms.lemma_multiset_has_no_duplicates();
    ids.lemma_multiset_has_no_duplicates();
    assert forall|e: int| ms.to_multiset().count(e) == ids.to_multiset().count(e) by {
        if ms.contains(e) {
            assert(ms.to_set().contains(e));
            assert(ids.contains(e));
        } else if ids.contains(e) {
            assert(ids.to_set().contains(e));
            assert(ms.contains(e));
        }
    }
    assert(ms.to_multiset() =~= ids.to_multiset());
}

/// The product `1 * 2 * ... * k` has a multiplicative inverse mod a prime
/// `p` whenever `k < p`: each factor has one, so the product does.
proof fn lemma_factorial_inverse(p: int, k: nat) -> (g: int)
    requires
        is_prime(p),
        k <= p - 1,
    ensures
        (seq_prod(id_seq(k)) * g) % p == 1,
    decreases k,
{
    lemma_small_mod(1, p as nat);
    if k == 0 {
        assert(id_seq(0).len() == 0);
        1int
    } else {
        let g1 = lemma_factorial_inverse(p, (k - 1) as nat);
        let v = lemma_prime_inverse(p, k as int);
        let pi1 = seq_prod(id_seq((k - 1) as nat));
        assert(id_seq(k).drop_last() =~= id_seq((k - 1) as nat));
        assert(seq_prod(id_seq(k)) == pi1 * k);
        assert((pi1 * k) * (g1 * v) == (pi1 * g1) * (v * k)) by (nonlinear_arith);
        lemma_mul_mod_noop_general(pi1 * g1, v * k, p);
        g1 * v
    }
}

/// Fermat's little theorem: for prime `p` and `0 < a < p`,
/// `a^(p-1) ≡ 1 (mod p)`.
pub proof fn lemma_fermat_little(p: int, a: int)
    requires
        is_prime(p),
        0 < a < p,
    ensures
        pow(a, (p - 1) as nat) % p == 1,
{
    let k = (p - 1) as nat;
    let ms = mul_seq(a, p, k);
    let ids = id_seq(k);
    let f = mulmod_fn(p);
    assert forall|x: int, y: int, v: int| #[trigger] f(x, f(y, v)) == f(y, f(x, v)) by {
        lemma_mul_mod_noop_general(x, y * v, p);
        lemma_mul_mod_noop_general(y, x * v, p);
        assert(x * (y * v) == y * (x * v)) by (nonlinear_arith);
    }
    assert(commutative_foldr(f));
    lemma_mul_seq_permutes(p, a);
    lemma_fold_right_permutation(ms, ids, f, 1);
    lemma_fold_is_prod(ms, p, 1);
    lemma_fold_is_prod(ids, p, 1);
    lemma_mul_seq_prod(a, p, k);
    let pp = seq_prod(ids);
    let pw = pow(a, k);
    assert(seq_prod(ms) % p == pp % p);
    assert(pw * pp % p == pp % p) by {
        lemma_mul_mod_noop_general(seq_prod(ms), 1, p);
        lemma_mul_mod_noop_general(pp, 1, p);
    }
    let g = lemma_factorial_inverse(p, k);
    lemma_mul_mod_noop_general(pw, pp * g, p);
    assert(pw * (pp * g) == (pw * pp) * g) by (nonlinear_arith);
    lemma_mul_mod_noop_general(pw * pp, g, p);
    lemma_mul_mod_noop_general(pp, g, p);
    lemma_small_mod(1, p as nat);
    assert(pw % p == (pw * ((pp * g) % p)) % p);
    assert((pw * ((pp * g) % p)) % p == (pw * (pp * g)) % p);
    assert(((pw * pp) % p * g) % p == ((pp % p) * g) % p);
    assert(((pp % p) * g) % p == (pp * g) % p);
}

/// The Fermat inverse is a genuine inverse: for prime `p` and `0 < a < p`,
/// `(a * mod_inv_spec(a, p)) % p == 1`.
pub proof fn lemma_mod_inv_correct(p: int, a: int)
    requires
        is_prime(p),
        0 < a < p,
    ensures
        (a * mod_inv_spec(a, p)) % p == 1,
{
    lemma_mul_mod_noop_right(a, pow(a, (p - 2) as nat), p);
    lemma_pow_adds(a, 1, (p - 2) as nat);
    lemma_pow1(a);
    lemma_fermat_little(p, a);
    assert((a * (pow(a, (p - 2) as nat) % p)) % p == (a * pow(a, (p - 2) as nat)) % p);
    assert(a * pow(a, (p - 2) as nat) == pow(a, (p - 1) as nat));
}

} // verus!
