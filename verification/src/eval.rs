//! The ciphertext-side homomorphic evaluation matrices.

use vstd::prelude::*;
use crate::ring::{poly_ok, spec_zero, view2, view3, poly_zero};
use crate::operations::{spec_bit_decompose, row_ok, mat_ok, pw_sub_exec, bit_decompose};
use crate::pub_key::spec_neg_row;
use crate::parameters::Parameters;
use crate::EncodingError;

verus! {

/// The constant polynomial with value `v`.
pub open spec fn spec_const_poly(n: nat, v: u64) -> Seq<u64> {
    Seq::new(n, |j: int| if j == 0 { v } else { 0u64 })
}

/// The `2m x m` evaluation matrix of the addition gate: two stacked `m x m`
/// identity blocks, written as constant polynomials.
pub open spec fn spec_m_eval_add_x(m: nat, n: nat) -> Seq<Seq<Seq<u64>>> {
    Seq::new(2 * m, |r: int| Seq::new(m, |i: int| spec_const_poly(n, if r == i || r == m + i { 1u64 } else { 0u64 })))
}

/// The `2m x m` evaluation matrix of the multiplication gate: the identity
/// scaled by the attribute bit `x2` on top of the gadget decomposition of the
/// negation of the first operand's public row.
pub open spec fn spec_m_eval_mul_x(row1: Seq<Seq<u64>>, x2: u64, q: u64, m: nat, n: nat) -> Seq<
    Seq<Seq<u64>>,
> {
    Seq::new(
        2 * m,
        |r: int|
            if r < m {
                Seq::new(m, |i: int| spec_const_poly(n, if r == i { x2 } else { 0u64 }))
            } else {
                spec_bit_decompose(spec_neg_row(row1, q), m, n)[r - m]
            },
    )
}

/// The evaluation matrix of the addition gate.  It depends only on the
/// parameters, not on the attribute vector or the public key.
pub fn m_eval_add_x(params: &Parameters) -> (h: Vec<Vec<Vec<u64>>>)
    requires
        params.wf(),
    ensures
        view3(h) == spec_m_eval_add_x(params.m as nat, params.ring.spec_n()),
        mat_ok(view3(h), params.ring.spec_n(), params.ring.spec_q()),
        h@.len() == 2 * params.m,
        forall|r: int| 0 <= r < h@.len() ==> #[trigger] h@[r]@.len() == params.m,
{
    let ghost q = params.ring.spec_q();
    let ghost n = params.ring.spec_n();
    let m = params.m;
    let nn = params.ring.ring_size();
    let ghost hspec = spec_m_eval_add_x(m as nat, n);
    let mut h: Vec<Vec<Vec<u64>>> = Vec::new();
    let mut r: usize = 0;
    while r < 2 * m
        invariant
            r <= 2 * m,
            params.wf(),
            q == params.ring.spec_q(),
            n == params.ring.spec_n(),
            m == params.m,
            nn == n,
            hspec == spec_m_eval_add_x(m as nat, n),
            h@.len() == r,
            forall|t: int| 0 <= t < r ==> #[trigger] view2(h@[t]) == hspec[t],
            forall|t: int| 0 <= t < r ==> #[trigger] h@[t]@.len() == m,
            forall|t: int| 0 <= t < r ==> row_ok(#[trigger] view2(h@[t]), n, q),
        decreases 2 * m - r,
    {
        let mut row: Vec<Vec<u64>> = Vec::new();
        let mut i: usize = 0;
        while i < m
            invariant
                i <= m,
                r < 2 * m,
                params.wf(),
                q == params.ring.spec_q(),
                n == params.ring.spec_n(),
                m == params.m,
                nn == n,
                hspec == spec_m_eval_add_x(m as nat, n),
                row@.len() == i,
                forall|t: int| 0 <= t < i ==> #[trigger] row@[t]@ == hspec[r as int][t],
                forall|t: int| 0 <= t < i ==> poly_ok(#[trigger] row@[t]@, n, q),
            decreases m - i,
        {
            let mut p = poly_zero(nn);
            if r == i || r == m + i {
                p.set(0, 1);
            }
            proof {
                assert(p@ =~= hspec[r as int][i as int]);
            }
            row.push(p);
            i += 1;
        }
        proof {
            assert(view2(row) =~= hspec[r as int]);
        }
        h.push(row);
        r += 1;
    }
    proof {
        assert(view3(h) =~= hspec);
        assert forall|t: int| 0 <= t < 2 * m implies row_ok(#[trigger] view3(h)[t], n, q) by {
            assert(view3(h)[t] == view2(h@[t]));
        };
    }
    h
}

/// The evaluation matrix of the multiplication gate, built from the first
/// operand's public row and the second operand's attribute bit.  Fails with a
/// shape-mismatch error when `b_row_1` does not have exactly `m` entries.
pub fn m_eval_mul_x(params: &Parameters, b_row_1: &Vec<Vec<u64>>, x_2: u64) -> (h: Result<
    Vec<Vec<Vec<u64>>>,
    EncodingError,
>)
    requires
        params.wf(),
        x_2 <= 1,
        row_ok(view2(*b_row_1), params.ring.spec_n(), params.ring.spec_q()),
    ensures
        h is Ok <==> b_row_1@.len() == params.m,
        h matches Ok(h) ==> view3(h) == spec_m_eval_mul_x(
            view2(*b_row_1),
            x_2,
            params.ring.spec_q(),
            params.m as nat,
            params.ring.spec_n(),
        ) && mat_ok(view3(h), params.ring.spec_n(), params.ring.spec_q()) && h@.len() == 2 * params.m
            && (forall|r: int| 0 <= r < h@.len() ==> #[trigger] h@[r]@.len() == params.m),
        h matches Err(e) ==> e == EncodingError::ShapeMismatch,
{
    let ghost q = params.ring.spec_q();
    let ghost n = params.ring.spec_n();
    let m = params.m;
    let nn = params.ring.ring_size();
    if b_row_1.len() != m {
        return Err(EncodingError::ShapeMismatch);
    }
    let ghost hspec = spec_m_eval_mul_x(view2(*b_row_1), x_2, q, m as nat, n);
    let mut h: Vec<Vec<Vec<u64>>> = Vec::new();
    // Top block: the identity scaled by the constant attribute bit.
    let mut r: usize = 0;
    while r < m
        invariant
            r <= m,
            params.wf(),
            q == params.ring.spec_q(),
            n == params.ring.spec_n(),
            m == params.m,
            nn == n,
            x_2 <= 1,
            b_row_1@.len() == m,
            hspec == spec_m_eval_mul_x(view2(*b_row_1), x_2, q, m as nat, n),
            h@.len() == r,
            forall|t: int| 0 <= t < r ==> #[trigger] view2(h@[t]) == hspec[t],
            forall|t: int| 0 <= t < r ==> #[trigger] h@[t]@.len() == m,
            forall|t: int| 0 <= t < r ==> row_ok(#[trigger] view2(h@[t]), n, q),
        decreases m - r,
    {
        let mut row: Vec<Vec<u64>> = Vec::new();
        let mut i: usize = 0;
        while i < m
            invariant
                i <= m,
                r < m,
                params.wf(),
                q == params.ring.spec_q(),
                n == params.ring.spec_n(),
                m == params.m,
                nn == n,
                x_2 <= 1,
                b_row_1@.len() == m,
                hspec == spec_m_eval_mul_x(view2(*b_row_1), x_2, q, m as nat, n),
                row@.len() == i,
                forall|t: int| 0 <= t < i ==> #[trigger] row@[t]@ == hspec[r as int][t],
                forall|t: int| 0 <= t < i ==> poly_ok(#[trigger] row@[t]@, n, q),
            decreases m - i,
        {
            let mut p = poly_zero(nn);
            if r == i {
                p.set(0, x_2);
            }
            proof {
                assert(p@ =~= hspec[r as int][i as int]);
            }
            row.push(p);
            i += 1;
        }
        proof {
            assert(view2(row) =~= hspec[r as int]);
        }
        h.push(row);
        r += 1;
    }
    // Bottom block: the gadget decomposition of the negation of the row.
    let zero = poly_zero(nn);
    let qq = params.ring.modulus();
    let mut minus_b1: Vec<Vec<u64>> = Vec::new();
    let mut i: usize = 0;
    while i < m
        invariant
            i <= m,
            params.wf(),
            q == params.ring.spec_q(),
            n == params.ring.spec_n(),
            m == params.m,
            nn == n,
            qq == q,
            b_row_1@.len() == m,
            row_ok(view2(*b_row_1), n, q),
            zero@ == spec_zero(n),
            minus_b1@.len() == i,
            forall|t: int| 0 <= t < i ==> #[trigger] minus_b1@[t]@ == spec_neg_row(view2(*b_row_1), q)[t]
                && poly_ok(minus_b1@[t]@, n, q),
        decreases m - i,
    {
        proof {
            assert(view2(*b_row_1)[i as int] == b_row_1@[i as int]@);
        }
        let neg = pw_sub_exec(qq, &zero, &b_row_1[i]);
        minus_b1.push(neg);
        i += 1;
    }
    proof {
        assert(view2(minus_b1) =~= spec_neg_row(view2(*b_row_1), q));
    }
    let mut tau = match bit_decompose(params, &minus_b1) {
        Ok(tau) => tau,
        Err(_) => {
            proof {
                assert(false);
            }
            return Err(EncodingError::ShapeMismatch);
        },
    };
    let ghost tau_spec = spec_bit_decompose(spec_neg_row(view2(*b_row_1), q), m as nat, n);
    proof {
        assert(view3(tau) == tau_spec);
        assert forall|t: int| 0 <= t < tau@.len() implies #[trigger] view2(tau@[t]) == tau_spec[t]
            && row_ok(view2(tau@[t]), n, q) && tau@[t]@.len() == m by {
            assert(view3(tau)[t] == view2(tau@[t]));
            assert(row_ok(view3(tau)[t], n, q));
            assert(tau_spec[t].len() == m);
        };
        assert forall|t: int| 0 <= t < tau@.len() implies #[trigger] tau@[t]@.len() == m by {
            assert(view2(tau@[t]) == tau_spec[t]);
        };
    }
    let mut r2: usize = m;
    while r2 < 2 * m
        invariant
            m <= r2 <= 2 * m,
            params.wf(),
            q == params.ring.spec_q(),
            n == params.ring.spec_n(),
            m == params.m,
            hspec == spec_m_eval_mul_x(view2(*b_row_1), x_2, q, m as nat, n),
            tau_spec == spec_bit_decompose(spec_neg_row(view2(*b_row_1), q), m as nat, n),
            tau@.len() == 2 * m - r2,
            forall|t: int| 0 <= t < tau@.len() ==> #[trigger] view2(tau@[t]) == tau_spec[r2 - m + t],
            forall|t: int| 0 <= t < tau@.len() ==> row_ok(#[trigger] view2(tau@[t]), n, q),
            forall|t: int| 0 <= t < tau@.len() ==> #[trigger] tau@[t]@.len() == m,
            h@.len() == r2,
            forall|t: int| 0 <= t < r2 ==> #[trigger] view2(h@[t]) == hspec[t],
            forall|t: int| 0 <= t < r2 ==> #[trigger] h@[t]@.len() == m,
            forall|t: int| 0 <= t < r2 ==> row_ok(#[trigger] view2(h@[t]), n, q),
        decreases 2 * m - r2,
    {
        let row = tau.remove(0);
        proof {
            assert(hspec[r2 as int] == tau_spec[r2 - m]);
        }
        h.push(row);
        r2 += 1;
    }
    proof {
        assert(view3(h) =~= hspec);
        assert forall|t: int| 0 <= t < 2 * m implies row_ok(#[trigger] view3(h)[t], n, q) by {
            assert(view3(h)[t] == view2(h@[t]));
        };
    }
    Ok(h)
}

} // verus!
