//! Linear algebra over the ring and the gadget bit-decomposition.

use vstd::prelude::*;
use vstd::arithmetic::power2::*;
use crate::ring::{
    Ring, poly_ok, amod, spec_pw_add, spec_pw_sub, spec_zero, spec_negamul, conv,
    view2, view3, is_const, lemma_conv_const_right, lemma_conv_const_left,
    lemma_amod_bound, mod_add_u64, mod_sub_u64, poly_zero, ntt_fwd, ntt_fwd_batch,
    ntt_inv_normalize, spec_ntt, spec_pw_madd, ntt_pair_ok, lemma_pw_add_zero_left,
    lemma_pw_add_zero_right, lemma_negamul_poly_ok,
};
use vstd::arithmetic::mul::lemma_mul_basics;
use crate::parameters::Parameters;
use crate::EncodingError;

verus! {

/// The running sum of the products of corresponding entries of two vectors of
/// ring elements: the first `upto` products, accumulated modulo `q` starting
/// from the zero polynomial.
pub open spec fn spec_dot(a: Seq<Seq<u64>>, b: Seq<Seq<u64>>, n: nat, q: u64, upto: nat) -> Seq<u64>
    decreases upto,
{
    if upto == 0 {
        spec_zero(n)
    } else {
        spec_pw_add(
            spec_dot(a, b, n, q, (upto - 1) as nat),
            spec_negamul(a[upto - 1], b[upto - 1], q),
            q,
        )
    }
}

/// Column `i` of a matrix of ring elements.
pub open spec fn column(mat: Seq<Seq<Seq<u64>>>, i: int) -> Seq<Seq<u64>> {
    Seq::new(mat.len(), |h: int| mat[h][i])
}

/// The row-vector times matrix product: entry `i` is the dot product of `vec`
/// with column `i` of `mat`.
pub open spec fn spec_vec_mat_mul(
    vec: Seq<Seq<u64>>,
    mat: Seq<Seq<Seq<u64>>>,
    n: nat,
    q: u64,
    cols: nat,
) -> Seq<Seq<u64>> {
    Seq::new(cols, |i: int| spec_dot(vec, column(mat, i), n, q, vec.len()))
}

/// Bit `h` of the coefficient value `c`.
pub open spec fn spec_bit(c: u64, h: nat) -> u64 {
    ((((c as int) / (pow2(h) as int)) % 2) as u64)
}

/// The gadget decomposition of an `m`-row matrix `u` of ring elements:
/// `tau[h][i][j]` is bit `h` of coefficient `j` of `u[i]`.
pub open spec fn spec_bit_decompose(u: Seq<Seq<u64>>, m: nat, n: nat) -> Seq<Seq<Seq<u64>>> {
    Seq::new(m, |h: int| Seq::new(m, |i: int| Seq::new(n, |j: int| spec_bit(u[i][j], h as nat))))
}

/// Every polynomial of a vector of ring elements is well formed.
pub open spec fn row_ok(v: Seq<Seq<u64>>, n: nat, q: u64) -> bool {
    forall|i: int| 0 <= i < v.len() ==> poly_ok(#[trigger] v[i], n, q)
}

/// Every polynomial of a matrix of ring elements is well formed.
pub open spec fn mat_ok(m: Seq<Seq<Seq<u64>>>, n: nat, q: u64) -> bool {
    forall|i: int| 0 <= i < m.len() ==> row_ok(#[trigger] m[i], n, q)
}

/// Coefficient-wise modular addition of two equal-length coefficient vectors.
pub(crate) fn pw_add_exec(q: u64, a: &Vec<u64>, b: &Vec<u64>) -> (r: Vec<u64>)
    requires
        0 < q < 0x4000000000000000u64,
        a@.len() == b@.len(),
        forall|j: int| 0 <= j < a@.len() ==> a@[j] < q,
        forall|j: int| 0 <= j < b@.len() ==> b@[j] < q,
    ensures
        r@ == spec_pw_add(a@, b@, q),
        poly_ok(r@, a@.len(), q),
{
    let mut r: Vec<u64> = Vec::new();
    let len = a.len();
    let mut j: usize = 0;
    while j < len
        invariant
            j <= len,
            len == a@.len() == b@.len(),
            0 < q < 0x4000000000000000u64,
            forall|t: int| 0 <= t < len ==> a@[t] < q,
            forall|t: int| 0 <= t < len ==> b@[t] < q,
            r@.len() == j,
            forall|t: int| 0 <= t < j ==> r@[t] == amod(a@[t] + b@[t], q) && #[trigger] r@[t] < q,
        decreases len - j,
    {
        r.push(mod_add_u64(q, a[j], b[j]));
        j += 1;
    }
    proof {
        assert(r@ =~= spec_pw_add(a@, b@, q));
    }
    r
}

/// Coefficient-wise modular subtraction of two equal-length coefficient vectors.
pub(crate) fn pw_sub_exec(q: u64, a: &Vec<u64>, b: &Vec<u64>) -> (r: Vec<u64>)
    requires
        0 < q < 0x4000000000000000u64,
        a@.len() == b@.len(),
        forall|j: int| 0 <= j < a@.len() ==> a@[j] < q,
        forall|j: int| 0 <= j < b@.len() ==> b@[j] < q,
    ensures
        r@ == spec_pw_sub(a@, b@, q),
        poly_ok(r@, a@.len(), q),
{
    let mut r: Vec<u64> = Vec::new();
    let len = a.len();
    let mut j: usize = 0;
    while j < len
        invariant
            j <= len,
            len == a@.len() == b@.len(),
            0 < q < 0x4000000000000000u64,
            forall|t: int| 0 <= t < len ==> a@[t] < q,
            forall|t: int| 0 <= t < len ==> b@[t] < q,
            r@.len() == j,
            forall|t: int| 0 <= t < j ==> r@[t] == amod(a@[t] - b@[t], q) && #[trigger] r@[t] < q,
        decreases len - j,
    {
        r.push(mod_sub_u64(q, a[j], b[j]));
        j += 1;
    }
    proof {
        assert(r@ =~= spec_pw_sub(a@, b@, q));
    }
    r
}

/// Coefficient-wise ring addition of two equal-length coefficient vectors;
/// fails with a shape-mismatch error when the lengths differ.
pub fn poly_add(ring: &Ring, a: &Vec<u64>, b: &Vec<u64>) -> (r: Result<Vec<u64>, EncodingError>)
    requires
        ring.wf(),
        forall|j: int| 0 <= j < a@.len() ==> a@[j] < ring.spec_q(),
        forall|j: int| 0 <= j < b@.len() ==> b@[j] < ring.spec_q(),
    ensures
        r is Ok <==> a@.len() == b@.len(),
        r matches Ok(c) ==> c@ == spec_pw_add(a@, b@, ring.spec_q()) && poly_ok(c@, a@.len(), ring.spec_q()),
        r matches Err(e) ==> e == EncodingError::ShapeMismatch,
{
    if a.len() != b.len() {
        return Err(EncodingError::ShapeMismatch);
    }
    Ok(pw_add_exec(ring.modulus(), a, b))
}

/// Coefficient-wise ring subtraction of two equal-length coefficient vectors;
/// fails with a shape-mismatch error when the lengths differ.
pub fn poly_sub(ring: &Ring, a: &Vec<u64>, b: &Vec<u64>) -> (r: Result<Vec<u64>, EncodingError>)
    requires
        ring.wf(),
        forall|j: int| 0 <= j < a@.len() ==> a@[j] < ring.spec_q(),
        forall|j: int| 0 <= j < b@.len() ==> b@[j] < ring.spec_q(),
    ensures
        r is Ok <==> a@.len() == b@.len(),
        r matches Ok(c) ==> c@ == spec_pw_sub(a@, b@, ring.spec_q()) && poly_ok(c@, a@.len(), ring.spec_q()),
        r matches Err(e) ==> e == EncodingError::ShapeMismatch,
{
    if a.len() != b.len() {
        return Err(EncodingError::ShapeMismatch);
    }
    Ok(pw_sub_exec(ring.modulus(), a, b))
}

/// Whether every coefficient but the first is zero.
fn is_const_poly(p: &Vec<u64>) -> (r: bool)
    ensures
        r == is_const(p@),
{
    let mut j: usize = 1;
    let len = p.len();
    while j < len
        invariant
            1 <= j,
            j <= len || len <= 1,
            len == p@.len(),
            forall|t: int| 1 <= t < j && t < len ==> p@[t] == 0,
        decreases len - j,
    {
        if p[j] != 0 {
            return false;
        }
        j += 1;
    }
    true
}

/// Scale each coefficient of `a` by `v` modulo `q`.
fn scale_poly(q: u64, a: &Vec<u64>, v: u64) -> (r: Vec<u64>)
    requires
        0 < q < 0x4000000000000000u64,
        forall|j: int| 0 <= j < a@.len() ==> a@[j] < q,
        v < q,
    ensures
        r@.len() == a@.len(),
        forall|k: int| 0 <= k < a@.len() ==> r@[k] == amod((a@[k] as int) * (v as int), q),
        poly_ok(r@, a@.len(), q),
{
    let mut r: Vec<u64> = Vec::new();
    let len = a.len();
    let mut j: usize = 0;
    while j < len
        invariant
            j <= len,
            len == a@.len(),
            0 < q < 0x4000000000000000u64,
            forall|t: int| 0 <= t < len ==> a@[t] < q,
            v < q,
            r@.len() == j,
            forall|t: int| 0 <= t < j ==> r@[t] == amod((a@[t] as int) * (v as int), q) && #[trigger] r@[t] < q,
        decreases len - j,
    {
        let aj: u64 = a[j];
        proof {
            assert((aj as int) * (v as int) < 0x4000000000000000 * 0x4000000000000000) by (nonlinear_arith)
                requires
                    aj < 0x4000000000000000u64,
                    v < 0x4000000000000000u64,
            ;
        }
        let prod: u128 = (aj as u128) * (v as u128);
        let red: u64 = (prod % (q as u128)) as u64;
        proof {
            lemma_amod_bound((a@[j as int] as int) * (v as int), q);
        }
        r.push(red);
        j += 1;
    }
    r
}

/// Pointwise modular multiply-accumulate of three equal-length vectors.
fn pw_madd_exec(q: u64, acc: &Vec<u64>, u: &Vec<u64>, v: &Vec<u64>) -> (r: Vec<u64>)
    requires
        0 < q < 0x4000000000000000u64,
        acc@.len() == u@.len() == v@.len(),
        forall|j: int| 0 <= j < acc@.len() ==> acc@[j] < q,
        forall|j: int| 0 <= j < u@.len() ==> u@[j] < q,
        forall|j: int| 0 <= j < v@.len() ==> v@[j] < q,
    ensures
        r@ == spec_pw_madd(acc@, u@, v@, q),
        poly_ok(r@, acc@.len(), q),
{
    let mut r: Vec<u64> = Vec::new();
    let len = acc.len();
    let mut j: usize = 0;
    while j < len
        invariant
            j <= len,
            len == acc@.len() == u@.len() == v@.len(),
            0 < q < 0x4000000000000000u64,
            forall|t: int| 0 <= t < len ==> acc@[t] < q,
            forall|t: int| 0 <= t < len ==> u@[t] < q,
            forall|t: int| 0 <= t < len ==> v@[t] < q,
            r@.len() == j,
            forall|t: int|
                0 <= t < j ==> r@[t] == amod(acc@[t] + (u@[t] as int) * (v@[t] as int), q)
                    && #[trigger] r@[t] < q,
        decreases len - j,
    {
        let uj: u64 = u[j];
        let vj: u64 = v[j];
        proof {
            assert((uj as int) * (vj as int) < 0x4000000000000000 * 0x4000000000000000)
                by (nonlinear_arith)
                requires
                    uj < 0x4000000000000000u64,
                    vj < 0x4000000000000000u64,
            ;
        }
        let s: u128 = (acc[j] as u128) + (uj as u128) * (vj as u128);
        let red: u64 = (s % (q as u128)) as u64;
        proof {
            lemma_amod_bound(acc@[j as int] + (uj as int) * (vj as int), q);
        }
        r.push(red);
        j += 1;
    }
    proof {
        assert(r@ =~= spec_pw_madd(acc@, u@, v@, q));
    }
    r
}

/// The negacyclic product of two ring elements.  Products against a constant
/// polynomial take a verified scaling path; the general case goes through the
/// NTT backend.
pub(crate) fn poly_mul(ring: &Ring, a: &Vec<u64>, b: &Vec<u64>) -> (r: Vec<u64>)
    requires
        ring.wf(),
        poly_ok(a@, ring.spec_n(), ring.spec_q()),
        poly_ok(b@, ring.spec_n(), ring.spec_q()),
    ensures
        r@ == spec_negamul(a@, b@, ring.spec_q()),
        poly_ok(r@, ring.spec_n(), ring.spec_q()),
{
    let ghost q = ring.spec_q();
    let ghost n = ring.spec_n();
    let r: Vec<u64>;
    if is_const_poly(b) {
        r = scale_poly(ring.modulus(), a, b[0]);
        proof {
            assert forall|k: int| 0 <= k < n implies r@[k] == amod(conv(a@, b@, k, n), q) by {
                lemma_conv_const_right(a@, b@, k, n);
            };
            assert(r@ =~= spec_negamul(a@, b@, q));
        }
    } else if is_const_poly(a) {
        r = scale_poly(ring.modulus(), b, a[0]);
        proof {
            assert forall|k: int| 0 <= k < n implies r@[k] == amod(conv(a@, b@, k, n), q) by {
                lemma_conv_const_left(a@, b@, k, n);
            };
            assert(r@ =~= spec_negamul(a@, b@, q));
        }
    } else {
        let nn = ring.ring_size();
        let fa = ntt_fwd(ring, a);
        let fb = ntt_fwd(ring, b);
        let zero = poly_zero(nn);
        let f0 = ntt_fwd(ring, &zero);
        let mut facc = pw_madd_exec(ring.modulus(), &f0, &fa, &fb);
        proof {
            lemma_negamul_poly_ok(a@, b@, n, q);
            assert(ntt_pair_ok(fb@, b@, n, q));
            assert(facc@ == spec_pw_madd(spec_ntt(zero@, q), spec_ntt(a@, q), fb@, q));
            assert(facc@ == spec_ntt(
                spec_pw_add(spec_zero(n), spec_negamul(a@, b@, q), q),
                q,
            ));
            lemma_pw_add_zero_left(spec_negamul(a@, b@, q), n, q);
        }
        ntt_inv_normalize(ring, &mut facc);
        proof {
            assert(facc@ == spec_negamul(a@, b@, q));
        }
        r = facc;
    }
    r
}

/// Whether every coefficient is zero.
fn is_zero_poly(p: &Vec<u64>) -> (r: bool)
    ensures
        r == (forall|j: int| 0 <= j < p@.len() ==> p@[j] == 0),
{
    let mut j: usize = 0;
    let len = p.len();
    while j < len
        invariant
            j <= len,
            len == p@.len(),
            forall|t: int| 0 <= t < j ==> p@[t] == 0,
        decreases len - j,
    {
        if p[j] != 0 {
            return false;
        }
        j += 1;
    }
    true
}

/// The accumulated dot product always stays a reduced polynomial of length `n`.
pub proof fn lemma_dot_poly_ok(a: Seq<Seq<u64>>, b: Seq<Seq<u64>>, n: nat, q: u64, upto: nat)
    requires
        0 < q,
    ensures
        poly_ok(spec_dot(a, b, n, q, upto), n, q),
    decreases upto,
{
    if upto == 0 {
    } else {
        lemma_dot_poly_ok(a, b, n, q, (upto - 1) as nat);
        let s = spec_dot(a, b, n, q, upto);
        assert forall|j: int| 0 <= j < s.len() implies s[j] < q by {
            lemma_amod_bound(
                spec_dot(a, b, n, q, (upto - 1) as nat)[j] + spec_negamul(
                    a[upto - 1],
                    b[upto - 1],
                    q,
                )[j],
                q,
            );
        };
    }
}

/// A term whose right operand is the zero polynomial leaves the accumulated
/// dot product unchanged.
proof fn lemma_dot_step_zero(a: Seq<Seq<u64>>, b: Seq<Seq<u64>>, n: nat, q: u64, h: nat)
    requires
        0 < q,
        1 <= n,
        a[h as int].len() == n,
        b[h as int].len() == n,
        forall|j: int| 0 <= j < n ==> b[h as int][j] == 0,
    ensures
        spec_dot(a, b, n, q, h + 1) == spec_dot(a, b, n, q, h),
{
    let prev = spec_dot(a, b, n, q, h);
    lemma_dot_poly_ok(a, b, n, q, h);
    assert(is_const(b[h as int]));
    assert forall|k: int| 0 <= k < n implies spec_negamul(a[h as int], b[h as int], q)[k] == 0u64 by {
        lemma_conv_const_right(a[h as int], b[h as int], k, n);
        lemma_mul_basics(a[h as int][k] as int);
        vstd::arithmetic::div_mod::lemma_small_mod(0, q as nat);
    };
    assert(spec_negamul(a[h as int], b[h as int], q) =~= spec_zero(n));
    lemma_pw_add_zero_right(prev, n, q);
}

/// The dot product of `vec` against `col`, accumulated in the transform
/// domain: `fvec` and `fcol` hold the forward transforms of the entries, the
/// pointwise multiply-accumulates run over them, and one inverse transform
/// returns the sum.  Terms against the zero polynomial are skipped.
fn dot_from_transforms(
    ring: &Ring,
    vec: &Vec<Vec<u64>>,
    fvec: &Vec<Vec<u64>>,
    col: &Vec<Vec<u64>>,
    fcol: &Vec<Vec<u64>>,
    f0: &Vec<u64>,
) -> (r: Vec<u64>)
    requires
        ring.wf(),
        vec@.len() == col@.len(),
        fvec@.len() == vec@.len(),
        fcol@.len() == col@.len(),
        row_ok(view2(*vec), ring.spec_n(), ring.spec_q()),
        row_ok(view2(*col), ring.spec_n(), ring.spec_q()),
        forall|h: int|
            0 <= h < vec@.len() ==> #[trigger] fvec@[h]@ == spec_ntt(vec@[h]@, ring.spec_q())
                && poly_ok(fvec@[h]@, ring.spec_n(), ring.spec_q()),
        forall|h: int|
            0 <= h < col@.len() ==> #[trigger] ntt_pair_ok(
                fcol@[h]@,
                col@[h]@,
                ring.spec_n(),
                ring.spec_q(),
            ),
        f0@ == spec_ntt(spec_zero(ring.spec_n()), ring.spec_q()),
        poly_ok(f0@, ring.spec_n(), ring.spec_q()),
    ensures
        r@ == spec_dot(view2(*vec), view2(*col), ring.spec_n(), ring.spec_q(), vec@.len() as nat),
        poly_ok(r@, ring.spec_n(), ring.spec_q()),
{
    let ghost q = ring.spec_q();
    let ghost n = ring.spec_n();
    let ghost va = view2(*vec);
    let ghost vb = view2(*col);
    let len = vec.len();
    let mut facc = f0.clone();
    proof {
        assert(facc@ == spec_ntt(spec_dot(va, vb, n, q, 0), q));
    }
    let mut h: usize = 0;
    while h < len
        invariant
            h <= len,
            ring.wf(),
            q == ring.spec_q(),
            n == ring.spec_n(),
            va == view2(*vec),
            vb == view2(*col),
            len == vec@.len() == col@.len() == fvec@.len() == fcol@.len(),
            row_ok(va, n, q),
            row_ok(vb, n, q),
            forall|t: int|
                0 <= t < len ==> #[trigger] fvec@[t]@ == spec_ntt(vec@[t]@, q) && poly_ok(
                    fvec@[t]@,
                    n,
                    q,
                ),
            forall|t: int| 0 <= t < len ==> #[trigger] ntt_pair_ok(fcol@[t]@, col@[t]@, n, q),
            facc@ == spec_ntt(spec_dot(va, vb, n, q, h as nat), q),
            poly_ok(facc@, n, q),
        decreases len - h,
    {
        proof {
            assert(va[h as int] == vec@[h as int]@);
            assert(vb[h as int] == col@[h as int]@);
            lemma_dot_poly_ok(va, vb, n, q, h as nat);
        }
        if is_zero_poly(&col[h]) {
            proof {
                lemma_dot_step_zero(va, vb, n, q, h as nat);
            }
        } else {
            let ghost pre = spec_dot(va, vb, n, q, h as nat);
            proof {
                assert(ntt_pair_ok(fcol@[h as int]@, col@[h as int]@, n, q));
            }
            facc = pw_madd_exec(ring.modulus(), &facc, &fvec[h], &fcol[h]);
            proof {
                lemma_negamul_poly_ok(va[h as int], vb[h as int], n, q);
                assert(facc@ == spec_pw_madd(
                    spec_ntt(pre, q),
                    spec_ntt(va[h as int], q),
                    fcol@[h as int]@,
                    q,
                ));
                assert(facc@ == spec_ntt(
                    spec_pw_add(pre, spec_negamul(va[h as int], vb[h as int], q), q),
                    q,
                ));
                assert(spec_dot(va, vb, n, q, (h + 1) as nat) == spec_pw_add(
                    pre,
                    spec_negamul(va[h as int], vb[h as int], q),
                    q,
                ));
            }
        }
        h += 1;
    }
    proof {
        lemma_dot_poly_ok(va, vb, n, q, len as nat);
    }
    ntt_inv_normalize(ring, &mut facc);
    proof {
        assert(facc@ == spec_dot(va, vb, n, q, len as nat));
    }
    facc
}

/// The sum over `i` of `vec_a[i] * vec_b[i]` in the ring; fails with a
/// shape-mismatch error when the two vectors' lengths differ.
pub fn vec_vec_dot_product(ring: &Ring, vec_a: &Vec<Vec<u64>>, vec_b: &Vec<Vec<u64>>) -> (r: Result<
    Vec<u64>,
    EncodingError,
>)
    requires
        ring.wf(),
        row_ok(view2(*vec_a), ring.spec_n(), ring.spec_q()),
        row_ok(view2(*vec_b), ring.spec_n(), ring.spec_q()),
    ensures
        r is Ok <==> vec_a@.len() == vec_b@.len(),
        r matches Ok(c) ==> c@ == spec_dot(
            view2(*vec_a),
            view2(*vec_b),
            ring.spec_n(),
            ring.spec_q(),
            vec_a@.len() as nat,
        ) && poly_ok(c@, ring.spec_n(), ring.spec_q()),
        r matches Err(e) ==> e == EncodingError::ShapeMismatch,
{
    if vec_a.len() != vec_b.len() {
        return Err(EncodingError::ShapeMismatch);
    }
    let ghost q = ring.spec_q();
    let ghost n = ring.spec_n();
    let len = vec_a.len();
    let mut out = poly_zero(ring.ring_size());
    let mut i: usize = 0;
    while i < len
        invariant
            i <= len,
            len == vec_a@.len() == vec_b@.len(),
            ring.wf(),
            q == ring.spec_q(),
            n == ring.spec_n(),
            row_ok(view2(*vec_a), n, q),
            row_ok(view2(*vec_b), n, q),
            out@ == spec_dot(view2(*vec_a), view2(*vec_b), n, q, i as nat),
            poly_ok(out@, n, q),
        decreases len - i,
    {
        proof {
            assert(view2(*vec_a)[i as int] == vec_a@[i as int]@);
            assert(view2(*vec_b)[i as int] == vec_b@[i as int]@);
        }
        let p = poly_mul(ring, &vec_a[i], &vec_b[i]);
        out = pw_add_exec(ring.modulus(), &out, &p);
        i += 1;
    }
    Ok(out)
}

/// Treats `vec` as a row vector and multiplies it by `mat`, returning one dot
/// product per column of `mat`.  Fails with a shape-mismatch error when
/// `vec.len()` differs from the number of rows, the matrix is empty, or its
/// rows are ragged.
pub fn vec_mat_mul(ring: &Ring, vec: Vec<Vec<u64>>, mat: Vec<Vec<Vec<u64>>>) -> (r: Result<
    Vec<Vec<u64>>,
    EncodingError,
>)
    requires
        ring.wf(),
        row_ok(view2(vec), ring.spec_n(), ring.spec_q()),
        mat_ok(view3(mat), ring.spec_n(), ring.spec_q()),
    ensures
        r is Ok <==> vec@.len() == mat@.len() && mat@.len() > 0 && (forall|h: int|
            0 <= h < mat@.len() ==> #[trigger] mat@[h]@.len() == mat@[0]@.len()),
        r matches Ok(c) ==> view2(c) == spec_vec_mat_mul(
            view2(vec),
            view3(mat),
            ring.spec_n(),
            ring.spec_q(),
            mat@[0]@.len() as nat,
        ) && row_ok(view2(c), ring.spec_n(), ring.spec_q()) && c@.len() == mat@[0]@.len(),
        r matches Err(e) ==> e == EncodingError::ShapeMismatch,
{
    if mat.len() == 0 || vec.len() != mat.len() {
        return Err(EncodingError::ShapeMismatch);
    }
    let rows = mat.len();
    let cols = mat[0].len();
    let mut h: usize = 1;
    while h < rows
        invariant
            1 <= h <= rows,
            rows == mat@.len(),
            cols == mat@[0]@.len(),
            forall|t: int| 0 <= t < h ==> #[trigger] mat@[t]@.len() == cols,
        decreases rows - h,
    {
        if mat[h].len() != cols {
            return Err(EncodingError::ShapeMismatch);
        }
        h += 1;
    }
    let ghost q = ring.spec_q();
    let ghost n = ring.spec_n();
    // A vector of constant polynomials multiplies by verified scaling alone,
    // so its transforms are never needed.
    let mut vec_const = true;
    let mut vc: usize = 0;
    while vc < rows
        invariant
            vc <= rows,
            rows == vec@.len(),
        decreases rows - vc,
    {
        let c = is_const_poly(&vec[vc]);
        vec_const = vec_const && c;
        vc += 1;
    }
    // Forward transforms of the vector entries, computed once and reused for
    // every column whose dot product runs in the transform domain.
    let mut fvec: Vec<Vec<u64>> = Vec::new();
    let mut f0: Vec<u64> = Vec::new();
    if !vec_const {
        proof {
            assert forall|t: int| 0 <= t < rows implies poly_ok(#[trigger] vec@[t]@, n, q) by {
                assert(view2(vec)[t] == vec@[t]@);
            };
        }
        fvec = ntt_fwd_batch(ring, &vec);
        let zero = poly_zero(ring.ring_size());
        f0 = ntt_fwd(ring, &zero);
        proof {
            assert forall|t: int|
                0 <= t < rows implies #[trigger] fvec@[t]@ == spec_ntt(vec@[t]@, q) && poly_ok(
                fvec@[t]@,
                n,
                q,
            ) by {
                assert(ntt_pair_ok(fvec@[t]@, vec@[t]@, n, q));
            };
        }
    }
    let mut out: Vec<Vec<u64>> = Vec::new();
    let mut i: usize = 0;
    while i < cols
        invariant
            i <= cols,
            rows == mat@.len() > 0,
            cols == mat@[0]@.len(),
            vec@.len() == rows,
            forall|t: int| 0 <= t < rows ==> #[trigger] mat@[t]@.len() == cols,
            ring.wf(),
            q == ring.spec_q(),
            n == ring.spec_n(),
            row_ok(view2(vec), n, q),
            mat_ok(view3(mat), n, q),
            !vec_const ==> fvec@.len() == rows && (forall|t: int|
                0 <= t < rows ==> #[trigger] fvec@[t]@ == spec_ntt(vec@[t]@, q)
                    && poly_ok(fvec@[t]@, n, q)) && f0@ == spec_ntt(spec_zero(n), q)
                && poly_ok(f0@, n, q),
            out@.len() == i,
            forall|t: int| 0 <= t < i ==> #[trigger] out@[t]@ == spec_dot(
                view2(vec),
                column(view3(mat), t),
                n,
                q,
                vec@.len() as nat,
            ) && poly_ok(out@[t]@, n, q),
        decreases cols - i,
    {
        let mut col: Vec<Vec<u64>> = Vec::new();
        let mut t: usize = 0;
        while t < rows
            invariant
                t <= rows,
                i < cols,
                rows == mat@.len(),
                forall|u: int| 0 <= u < rows ==> #[trigger] mat@[u]@.len() == cols,
                col@.len() == t,
                forall|u: int| 0 <= u < t ==> #[trigger] col@[u]@ == view3(mat)[u][i as int],
            decreases rows - t,
        {
            let entry: Vec<u64> = mat[t][i].clone();
            proof {
                assert(entry@ == mat@[t as int]@[i as int]@);
            }
            col.push(entry);
            t += 1;
        }
        proof {
            assert(view2(col) =~= column(view3(mat), i as int));
            assert forall|u: int| 0 <= u < rows implies poly_ok(#[trigger] col@[u]@, n, q) by {
                assert(view2(col)[u] == col@[u]@);
                assert(row_ok(view3(mat)[u], n, q));
                assert(view3(mat)[u][i as int] == col@[u]@);
            };
        }
        // A column of constant polynomials multiplies by verified scaling;
        // any other column is accumulated in the transform domain.
        let mut all_const = true;
        let mut t2: usize = 0;
        while t2 < rows
            invariant
                t2 <= rows,
                rows == col@.len(),
                all_const ==> forall|u: int| 0 <= u < t2 ==> is_const(#[trigger] col@[u]@),
            decreases rows - t2,
        {
            let c = is_const_poly(&col[t2]);
            all_const = all_const && c;
            t2 += 1;
        }
        let d: Vec<u64>;
        if vec_const || all_const {
            d = match vec_vec_dot_product(ring, &vec, &col) {
                Ok(d) => d,
                Err(_) => {
                    proof {
                        assert(false);
                    }
                    return Err(EncodingError::ShapeMismatch);
                },
            };
        } else {
            let fcol = ntt_fwd_batch(ring, &col);
            proof {
                assert forall|u: int|
                    0 <= u < rows implies #[trigger] ntt_pair_ok(fcol@[u]@, col@[u]@, n, q) by {};
            }
            d = dot_from_transforms(ring, &vec, &fvec, &col, &fcol, &f0);
        }
        out.push(d);
        i += 1;
    }
    proof {
        assert(view2(out) =~= spec_vec_mat_mul(view2(vec), view3(mat), n, q, cols as nat));
    }
    Ok(out)
}

/// The gadget decomposition: `tau[h][i][j]` is bit `h` of coefficient `j` of
/// `bu[i]`.  Fails with a shape-mismatch error when `bu` does not have exactly
/// `m` rows of exactly ring-size coefficients.
pub fn bit_decompose(params: &Parameters, bu: &Vec<Vec<u64>>) -> (r: Result<
    Vec<Vec<Vec<u64>>>,
    EncodingError,
>)
    requires
        params.wf(),
    ensures
        r is Ok <==> bu@.len() == params.m && (forall|i: int|
            0 <= i < bu@.len() ==> #[trigger] bu@[i]@.len() == params.ring.spec_n()) && (forall|
            i: int,
            j: int,
        |
            0 <= i < bu@.len() && 0 <= j < bu@[i]@.len() ==> #[trigger] (bu@[i]@[j] as nat) < pow2(
                (params.m - 2) as nat,
            )),
        r matches Ok(tau) ==> view3(tau) == spec_bit_decompose(
            view2(*bu),
            params.m as nat,
            params.ring.spec_n(),
        ) && mat_ok(view3(tau), params.ring.spec_n(), params.ring.spec_q()) && tau@.len() == params.m,
        r matches Err(e) ==> e == EncodingError::ShapeMismatch,
{
    let m = params.m;
    let n = params.ring.ring_size();
    if bu.len() != m {
        return Err(EncodingError::ShapeMismatch);
    }
    // Every coefficient must fit in the m - 2 gadget bit planes: anything
    // larger would be silently truncated on reconstruction.
    let bound: u64 = 1u64 << (m - 2);
    proof {
        lemma2_to64();
        lemma2_to64_rest();
        if ((m - 2) as nat) < 63 {
            lemma_pow2_strictly_increases((m - 2) as nat, 63);
        }
        vstd::bits::lemma_u64_shl_is_mul(1u64, (m - 2) as u64);
        assert(bound as nat == pow2((m - 2) as nat));
    }
    let mut c: usize = 0;
    while c < m
        invariant
            c <= m,
            m == bu@.len(),
            n == params.ring.spec_n(),
            bound as nat == pow2((params.m - 2) as nat),
            m == params.m,
            forall|t: int| 0 <= t < c ==> #[trigger] bu@[t]@.len() == n,
            forall|t: int, j: int|
                0 <= t < c && 0 <= j < bu@[t]@.len() ==> #[trigger] (bu@[t]@[j] as nat) < pow2(
                    (params.m - 2) as nat,
                ),
        decreases m - c,
    {
        if bu[c].len() != n {
            return Err(EncodingError::ShapeMismatch);
        }
        let mut j: usize = 0;
        while j < n
            invariant
                j <= n,
                c < m,
                m == bu@.len(),
                bu@[c as int]@.len() == n,
                bound as nat == pow2((params.m - 2) as nat),
                forall|t: int| 0 <= t < j ==> #[trigger] (bu@[c as int]@[t] as nat) < pow2(
                    (params.m - 2) as nat,
                ),
            decreases n - j,
        {
            if bu[c][j] >= bound {
                return Err(EncodingError::ShapeMismatch);
            }
            j += 1;
        }
        c += 1;
    }
    let ghost tspec = spec_bit_decompose(view2(*bu), m as nat, params.ring.spec_n());
    let mut tau: Vec<Vec<Vec<u64>>> = Vec::new();
    let mut h: usize = 0;
    while h < m
        invariant
            h <= m,
            params.wf(),
            m == params.m == bu@.len(),
            n == params.ring.spec_n(),
            forall|t: int| 0 <= t < m ==> #[trigger] bu@[t]@.len() == n,
            tspec == spec_bit_decompose(view2(*bu), m as nat, params.ring.spec_n()),
            tau@.len() == h,
            forall|t: int| 0 <= t < h ==> #[trigger] view2(tau@[t]) == tspec[t],
            forall|t: int| 0 <= t < h ==> row_ok(#[trigger] view2(tau@[t]), n as nat, params.ring.spec_q()),
        decreases m - h,
    {
        let mut row: Vec<Vec<u64>> = Vec::new();
        let mut i: usize = 0;
        while i < m
            invariant
                i <= m,
                h < m,
                params.wf(),
                m == params.m == bu@.len(),
                n == params.ring.spec_n(),
                forall|t: int| 0 <= t < m ==> #[trigger] bu@[t]@.len() == n,
                tspec == spec_bit_decompose(view2(*bu), m as nat, params.ring.spec_n()),
                row@.len() == i,
                forall|t: int| 0 <= t < i ==> #[trigger] row@[t]@ == tspec[h as int][t],
                forall|t: int| 0 <= t < i ==> poly_ok(#[trigger] row@[t]@, n as nat, params.ring.spec_q()),
            decreases m - i,
        {
            let mut p: Vec<u64> = Vec::new();
            let mut j: usize = 0;
            while j < n
                invariant
                    j <= n,
                    h < m,
                    i < m,
                    params.wf(),
                    m == params.m == bu@.len(),
                    n == params.ring.spec_n(),
                    forall|t: int| 0 <= t < m ==> #[trigger] bu@[t]@.len() == n,
                    p@.len() == j,
                    forall|t: int| 0 <= t < j ==> #[trigger] p@[t] == spec_bit(bu@[i as int]@[t], h as nat)
                        && p@[t] < 2,
                decreases n - j,
            {
                let coeff: u64 = bu[i][j];
                let bit: u64 = (coeff >> (h as u64)) & 1;
                proof {
                    vstd::bits::lemma_u64_shr_is_div(coeff, h as u64);
                    let sh = coeff >> (h as u64);
                    assert((sh & 1) == sh % 2) by (bit_vector);
                    vstd::arithmetic::div_mod::lemma_mod_bound((coeff >> (h as u64)) as int, 2);
                }
                p.push(bit);
                j += 1;
            }
            proof {
                assert(p@ =~= tspec[h as int][i as int]);
            }
            row.push(p);
            i += 1;
        }
        proof {
            assert(view2(row) =~= tspec[h as int]);
        }
        tau.push(row);
        h += 1;
    }
    proof {
        assert(view3(tau) =~= tspec);
        assert forall|t: int| 0 <= t < m implies row_ok(#[trigger] view3(tau)[t], params.ring.spec_n(), params.ring.spec_q()) by {
            assert(view3(tau)[t] == view2(tau@[t]));
        };
    }
    Ok(tau)
}

} // verus!
