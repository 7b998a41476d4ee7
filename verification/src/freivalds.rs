//! Freivalds' probabilistic check that a matrix product `a * b` equals `c`,
//! over 64-bit integers with wrapping arithmetic.
use vstd::prelude::*;
use vstd::arithmetic::div_mod::*;
use rand::Rng;

verus! {

/// The unreduced dot product of the first `n` paired entries of `row` and `v`.
pub open spec fn dot_sum(row: Seq<u64>, v: Seq<u64>, n: int) -> int
    decreases n,
{
    if n <= 0 {
        0
    } else {
        dot_sum(row, v, n - 1) + row[n - 1] * v[n - 1]
    }
}

/// The dot product of `row` and `v` (over as many entries as both hold),
/// wrapping at the 64-bit boundary.
pub open spec fn dot_wrap(row: Seq<u64>, v: Seq<u64>) -> u64 {
    (dot_sum(row, v,
        if row.len() <= v.len() { row.len() as int } else { v.len() as int })
        % 0x1_0000_0000_0000_0000) as u64
}

/// The views of a sequence of row vectors.
pub open spec fn rows_view(m: Seq<Vec<u64>>) -> Seq<Seq<u64>> {
    m.map_values(|r: Vec<u64>| r@)
}

/// The matrix-vector product `m * v` with every entry a wrapping dot product.
pub open spec fn mat_vec_wrap(m: Seq<Seq<u64>>, v: Seq<u64>) -> Seq<u64> {
    Seq::new(m.len(), |i: int| dot_wrap(m[i], v))
}

/// Every row of `m` has as many entries as `m` has rows.
pub open spec fn is_square(m: Seq<Seq<u64>>) -> bool {
    forall|i: int| 0 <= i < m.len() ==> #[trigger] m[i].len() == m.len()
}

/// The sum `row[0]*b[0][j] + ... + row[m-1]*b[m-1][j]`: the dot product of
/// `row` with column `j` of `b`, over the first `m` rows, unreduced.
pub open spec fn col_dot_sum(row: Seq<u64>, b: Seq<Seq<u64>>, j: int, m: int) -> int
    decreases m,
{
    if m <= 0 {
        0
    } else {
        col_dot_sum(row, b, j, m - 1) + row[m - 1] * b[m - 1][j]
    }
}

/// The product of two square matrices, every entry a wrapping dot product
/// of a row of `a` with a column of `b`.
pub open spec fn matmul_wrap(a: Seq<Seq<u64>>, b: Seq<Seq<u64>>) -> Seq<Seq<u64>> {
    Seq::new(a.len(), |i: int|
        Seq::new(a.len(), |j: int|
            ((col_dot_sum(a[i], b, j, a[i].len() as int) % 0x1_0000_0000_0000_0000) as u64)))
}

/// Multiplies a matrix by a vector: entry `i` of the result is the dot
/// product of row `i` with `v`, all sums and products wrapping mod `2^64`.
pub fn mul_mat_vec(m: &[Vec<u64>], v: &[u64]) -> (r: Vec<u64>)
    ensures
        r@ == mat_vec_wrap(rows_view(m@), v@),
{
    let mut out: Vec<u64> = Vec::new();
    let rows = m.len();
    let mut i: usize = 0;
    while i < rows
        invariant
            i <= rows,
            rows == m@.len(),
            out@.len() == i,
            forall|ii: int| 0 <= ii < i ==> out@[ii] == dot_wrap(m@[ii]@, v@),
        decreases rows - i,
    {
        let row: &Vec<u64> = &m[i];
        let lim: usize = if row.len() <= v.len() { row.len() } else { v.len() };
        let mut s: u64 = 0;
        let mut j: usize = 0;
        while j < lim
            invariant
                j <= lim,
                lim <= row@.len(),
                lim <= v@.len(),
                s == dot_sum(row@, v@, j as int) % 0x1_0000_0000_0000_0000,
            decreases lim - j,
        {
            proof {
                assert((row@[j as int] as int) * (v@[j as int] as int)
                    <= 0xFFFF_FFFF_FFFF_FFFFu64 * 0xFFFF_FFFF_FFFF_FFFFu64) by (nonlinear_arith)
                    requires
                        row@[j as int] <= 0xFFFF_FFFF_FFFF_FFFFu64,
                        v@[j as int] <= 0xFFFF_FFFF_FFFF_FFFFu64;
                lemma_add_mod_noop(dot_sum(row@, v@, j as int),
                    (row@[j as int] as int) * (v@[j as int] as int),
                    0x1_0000_0000_0000_0000);
            }
            let prod: u128 = (row[j] as u128) * (v[j] as u128);
            s = (((s as u128) + prod % 0x1_0000_0000_0000_0000u128)
                % 0x1_0000_0000_0000_0000u128) as u64;
            j = j + 1;
        }
        out.push(s);
        i = i + 1;
    }
    proof {
        assert(out@ =~= mat_vec_wrap(rows_view(m@), v@));
    }
    out
}

/// The sum over the first `m` rows of `row[k]` times the unreduced dot of
/// `b[k]` with the first `mj` entries of `r`.
spec fn mixed_sum(row: Seq<u64>, b: Seq<Seq<u64>>, r: Seq<u64>, mj: int, m: int) -> int
    decreases m,
{
    if m <= 0 {
        0
    } else {
        mixed_sum(row, b, r, mj, m - 1) + row[m - 1] * dot_sum(b[m - 1], r, mj)
    }
}

/// The sum over the first `mj` columns of `row`'s dot with column `j` of
/// `b` (over the first `n` rows of `b`), times `r[j]`.
spec fn col_mix_sum(row: Seq<u64>, b: Seq<Seq<u64>>, r: Seq<u64>, n: int, mj: int) -> int
    decreases mj,
{
    if mj <= 0 {
        0
    } else {
        col_mix_sum(row, b, r, n, mj - 1) + col_dot_sum(row, b, mj - 1, n) * r[mj - 1]
    }
}

/// Dotting `row` with the already-reduced entries of `b * r` agrees mod
/// `2^64` with dotting it against the unreduced inner sums.
proof fn lemma_dot_with_reduced(row: Seq<u64>, b: Seq<Seq<u64>>, r: Seq<u64>, m: int)
    requires
        0 <= m <= b.len(),
        forall|k: int| 0 <= k < b.len() ==> #[trigger] b[k].len() == r.len(),
    ensures
        dot_sum(row, mat_vec_wrap(b, r), m) % 0x1_0000_0000_0000_0000
            == mixed_sum(row, b, r, r.len() as int, m) % 0x1_0000_0000_0000_0000,
    decreases m,
{
    let w = 0x1_0000_0000_0000_0000int;
    if m > 0 {
        lemma_dot_with_reduced(row, b, r, m - 1);
        let s = dot_sum(b[m - 1], r, r.len() as int);
        lemma_mod_bound(s, w);
        assert(mat_vec_wrap(b, r)[m - 1] == s % w);
        lemma_mul_mod_noop_right(row[m - 1] as int, s, w);
        lemma_add_mod_noop(dot_sum(row, mat_vec_wrap(b, r), m - 1), row[m - 1] * (s % w), w);
        lemma_add_mod_noop(mixed_sum(row, b, r, r.len() as int, m - 1), row[m - 1] * s, w);
        lemma_mod_twice(row[m - 1] * (s % w), w);
        lemma_mod_twice(row[m - 1] * s, w);
    }
}

/// With no columns taken, the mixed sum vanishes.
proof fn lemma_mixed_zero(row: Seq<u64>, b: Seq<Seq<u64>>, r: Seq<u64>, m: int)
    ensures
        mixed_sum(row, b, r, 0, m) == 0,
    decreases m,
{
    if m > 0 {
        lemma_mixed_zero(row, b, r, m - 1);
    }
}

/// Splitting the last column out of the mixed sum: it contributes the
/// column dot of `row` with column `mj - 1`, times `r[mj - 1]`.
proof fn lemma_mixed_split(row: Seq<u64>, b: Seq<Seq<u64>>, r: Seq<u64>, mj: int, m: int)
    requires
        1 <= mj,
        0 <= m,
    ensures
        mixed_sum(row, b, r, mj, m) == mixed_sum(row, b, r, mj - 1, m) + col_dot_sum(row, b, mj
            - 1, m) * r[mj - 1],
    decreases m,
{
    if m > 0 {
        lemma_mixed_split(row, b, r, mj, m - 1);
        let c = col_dot_sum(row, b, mj - 1, m - 1);
        let rr = r[mj - 1] as int;
        let wv = row[m - 1] as int;
        let d = dot_sum(b[m - 1], r, mj - 1);
        let e = b[m - 1][mj - 1] as int;
        assert(c * rr + wv * (d + e * rr) == wv * d + (c + wv * e) * rr) by (nonlinear_arith);
    }
}

/// Exchanging the order of summation: summing rows first and columns
/// second gives the same total as columns first and rows second.
proof fn lemma_sum_exchange(row: Seq<u64>, b: Seq<Seq<u64>>, r: Seq<u64>, mj: int)
    requires
        0 <= mj,
    ensures
        mixed_sum(row, b, r, mj, b.len() as int) == col_mix_sum(row, b, r, b.len() as int, mj),
    decreases mj,
{
    if mj == 0 {
        lemma_mixed_zero(row, b, r, b.len() as int);
    } else {
        lemma_sum_exchange(row, b, r, mj - 1);
        lemma_mixed_split(row, b, r, mj, b.len() as int);
    }
}

/// Dotting the already-reduced product-matrix row with `r` agrees mod
/// `2^64` with the column-first double sum.
proof fn lemma_dot_reduced_cols(row: Seq<u64>, b: Seq<Seq<u64>>, r: Seq<u64>, n: int, t: int)
    requires
        0 <= t <= n,
    ensures
        dot_sum(Seq::new(n as nat, |j: int|
            ((col_dot_sum(row, b, j, n) % 0x1_0000_0000_0000_0000) as u64)), r, t)
            % 0x1_0000_0000_0000_0000
            == col_mix_sum(row, b, r, n, t) % 0x1_0000_0000_0000_0000,
    decreases t,
{
    let w = 0x1_0000_0000_0000_0000int;
    let mmrow = Seq::new(n as nat, |j: int| ((col_dot_sum(row, b, j, n) % w) as u64));
    if t > 0 {
        lemma_dot_reduced_cols(row, b, r, n, t - 1);
        let c = col_dot_sum(row, b, t - 1, n);
        lemma_mod_bound(c, w);
        assert(mmrow[t - 1] == c % w);
        lemma_mul_mod_noop_left(c, r[t - 1] as int, w);
        lemma_add_mod_noop(dot_sum(mmrow, r, t - 1), (c % w) * r[t - 1], w);
        lemma_add_mod_noop(col_mix_sum(row, b, r, n, t - 1), c * r[t - 1], w);
        lemma_mod_twice((c % w) * r[t - 1], w);
        lemma_mod_twice(c * r[t - 1], w);
    }
}

/// One entry of the associativity law: dotting a row of `a` with `b * r`
/// equals dotting the corresponding row of `a * b` with `r`.
proof fn lemma_assoc_entry(row: Seq<u64>, b: Seq<Seq<u64>>, r: Seq<u64>)
    requires
        row.len() == b.len(),
        r.len() == b.len(),
        forall|k: int| 0 <= k < b.len() ==> #[trigger] b[k].len() == r.len(),
    ensures
        dot_wrap(row, mat_vec_wrap(b, r)) == dot_wrap(Seq::new(row.len(), |j: int|
            ((col_dot_sum(row, b, j, row.len() as int) % 0x1_0000_0000_0000_0000) as u64)), r),
{
    let n = b.len() as int;
    lemma_dot_with_reduced(row, b, r, n);
    lemma_sum_exchange(row, b, r, n);
    lemma_dot_reduced_cols(row, b, r, n, n);
}

/// Associativity of the wrapping products: `a * (b * r) == (a * b) * r`
/// for square matrices of matching size.
proof fn lemma_matmul_assoc(a: Seq<Seq<u64>>, b: Seq<Seq<u64>>, r: Seq<u64>)
    requires
        is_square(a),
        is_square(b),
        a.len() == b.len(),
        r.len() == a.len(),
    ensures
        mat_vec_wrap(a, mat_vec_wrap(b, r)) == mat_vec_wrap(matmul_wrap(a, b), r),
{
    let lhs = mat_vec_wrap(a, mat_vec_wrap(b, r));
    let rhs = mat_vec_wrap(matmul_wrap(a, b), r);
    assert forall|i: int| 0 <= i < a.len() implies lhs[i] == rhs[i] by {
        assert(a[i].len() == a.len());
        lemma_assoc_entry(a[i], b, r);
    }
    assert(lhs =~= rhs);
}

/// Relies on `rand::rng` and `rand::Rng::random_range` over the range
/// `0..2`: the sampled value lies below 2. Nothing more is assumed of a
/// random draw.
#[verifier::external_body]
fn random_bit() -> (r: u64)
    ensures
        r < 2,
{
    rand::rng().random_range(0..2u64)
}

/// Element-wise equality of two vectors.
fn vecs_equal(x: &Vec<u64>, y: &Vec<u64>) -> (eq: bool)
    ensures
        eq == (x@ == y@),
{
    if x.len() != y.len() {
        proof {
            assert(x@.len() != y@.len());
        }
        return false;
    }
    let n = x.len();
    let mut i: usize = 0;
    while i < n
        invariant
            i <= n,
            n == x@.len(),
            n == y@.len(),
            forall|j: int| 0 <= j < i ==> x@[j] == y@[j],
        decreases n - i,
    {
        if x[i] != y[i] {
            return false;
        }
        i = i + 1;
    }
    proof {
        assert(x@ =~= y@);
    }
    true
}

/// Freivalds' algorithm: draws random 0/1 vectors `r` and compares
/// `a * (b * r)` with `c * r` for the given number of rounds.
///
/// A `false` answer always carries a witness vector on which the two sides
/// disagree, so `a * b` and `c` genuinely differ as wrapping matrix products.
/// Conversely, when `a * b` equals `c` (as square wrapping matrix products)
/// every round agrees whatever was drawn, so the answer is `true`. Otherwise
/// a `true` answer only says that every sampled vector agreed — with zero
/// rounds it is returned unconditionally, and a disagreement can escape
/// detection with probability at most `2^-iterations`.
pub fn freivalds_test(a: &[Vec<u64>], b: &[Vec<u64>], c: &[Vec<u64>], iterations: u32) -> (res:
    bool)
    ensures
        !res ==> exists|rv: Seq<u64>|
            rv.len() == a@.len() && (forall|j: int| 0 <= j < rv.len() ==> rv[j] < 2)
                && mat_vec_wrap(rows_view(a@), mat_vec_wrap(rows_view(b@), rv))
                != #[trigger] mat_vec_wrap(rows_view(c@), rv),
        is_square(rows_view(a@)) && is_square(rows_view(b@)) && a@.len() == b@.len()
            && matmul_wrap(rows_view(a@), rows_view(b@)) == rows_view(c@) ==> res,
        iterations == 0 ==> res,
{
    let n = a.len();
    let mut it: u32 = 0;
    while it < iterations
        invariant
            it <= iterations,
            n == a@.len(),
        decreases iterations - it,
    {
        let mut r: Vec<u64> = Vec::new();
        let mut i: usize = 0;
        while i < n
            invariant
                i <= n,
                r@.len() == i,
                forall|j: int| 0 <= j < i ==> r@[j] < 2,
            decreases n - i,
        {
            r.push(random_bit());
            i = i + 1;
        }
        let br = mul_mat_vec(b, r.as_slice());
        let abr = mul_mat_vec(a, br.as_slice());
        let cr = mul_mat_vec(c, r.as_slice());
        if !vecs_equal(&abr, &cr) {
            proof {
                assert(mat_vec_wrap(rows_view(a@), mat_vec_wrap(rows_view(b@), r@))
                    != mat_vec_wrap(rows_view(c@), r@));
                if is_square(rows_view(a@)) && is_square(rows_view(b@)) && a@.len() == b@.len()
                    && matmul_wrap(rows_view(a@), rows_view(b@)) == rows_view(c@) {
                    lemma_matmul_assoc(rows_view(a@), rows_view(b@), r@);
                    assert(false);
                }
            }
            return false;
        }
        it = it + 1;
    }
    true
}

} // verus!
