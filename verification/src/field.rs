//! Arithmetic over the prime field `F_p`: modular exponentiation and the
//! modular inverse obtained from Fermat's little theorem.
use vstd::prelude::*;
use vstd::arithmetic::power::*;
use vstd::arithmetic::div_mod::*;

verus! {

/// The value `mod_inv(a, p)` returns: `a^(p-2) mod p`, the multiplicative
/// inverse of `a` in `F_p` whenever `p` is prime and `a` is not a multiple
/// of `p`.
pub open spec fn mod_inv_spec(a: int, p: int) -> int
    recommends
        p >= 2,
{
    pow(a, (p - 2) as nat) % p
}

/// Modular exponentiation by squaring: `b^e mod m`.
fn mod_pow(b: u64, e: u64, m: u64) -> (r: u64)
    requires
        m >= 1,
    ensures
        r == pow(b as int, e as nat) % (m as int),
        r < m,
    decreases e,
{
    if e == 0 {
        proof {
            lemma_pow0(b as int);
        }
        1 % m
    } else {
        let h = mod_pow(b, e / 2, m);
        proof {
            assert((h as int) * (h as int) <= 0xFFFF_FFFF_FFFF_FFFFu64
                * 0xFFFF_FFFF_FFFF_FFFFu64) by (nonlinear_arith)
                requires
                    h <= 0xFFFF_FFFF_FFFF_FFFFu64;
        }
        let sq: u64 = (((h as u128) * (h as u128)) % (m as u128)) as u64;
        proof {
            let bi = b as int;
            let mi = m as int;
            let eh = (e / 2) as nat;
            lemma_pow_adds(bi, eh, eh);
            lemma_mul_mod_noop(pow(bi, eh), pow(bi, eh), mi);
            assert(sq == pow(bi, (eh + eh) as nat) % mi);
        }
        if e % 2 == 0 {
            assert((e / 2) as nat + (e / 2) as nat == e as nat);
            sq
        } else {
            let bm = b % m;
            proof {
                assert((sq as int) * (bm as int) <= 0xFFFF_FFFF_FFFF_FFFFu64
                    * 0xFFFF_FFFF_FFFF_FFFFu64) by (nonlinear_arith)
                    requires
                        sq <= 0xFFFF_FFFF_FFFF_FFFFu64,
                        bm <= 0xFFFF_FFFF_FFFF_FFFFu64;
            }
            let r2: u64 = (((sq as u128) * (bm as u128)) % (m as u128)) as u64;
            proof {
                let bi = b as int;
                let mi = m as int;
                let eh = (e / 2) as nat;
                lemma_pow_adds(bi, (eh + eh) as nat, 1);
                lemma_pow1(bi);
                lemma_mul_mod_noop(pow(bi, (eh + eh) as nat), bi, mi);
                assert((eh + eh + 1) as nat == e as nat);
                assert(r2 == ((pow(bi, (eh + eh) as nat) % mi) * (bi % mi)) % mi);
            }
            r2
        }
    }
}

/// Multiplicative inverse of `a` modulo `p`, computed as `a^(p-2) mod p`
/// (Fermat's little theorem). The result is a genuine inverse only when `p`
/// is prime and `a` is not a multiple of `p`; for `a ≡ 0 (mod p)` the value
/// is 0, which is not an inverse — callers own that precondition.
pub fn mod_inv(a: u64, p: u64) -> (r: u64)
    requires
        p >= 2,
    ensures
        r == mod_inv_spec(a as int, p as int),
        r < p,
{
    mod_pow(a, p - 2, p)
}

} // verus!
