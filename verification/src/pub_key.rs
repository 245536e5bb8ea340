//! The public encoding matrix `b` and its key-side gate operators.

use vstd::prelude::*;
use crate::ring::{
    poly_ok, spec_pw_add, spec_pw_sub, spec_zero, view2, view3, fresh_rng, rand_below,
};
use crate::operations::{
    spec_dot, column, spec_bit_decompose, row_ok, mat_ok, pw_add_exec, pw_sub_exec,
    bit_decompose, vec_mat_mul,
};
use crate::parameters::Parameters;

verus! {

/// The coefficient-wise negation of a ring element.
pub open spec fn spec_neg_poly(p: Seq<u64>, q: u64) -> Seq<u64> {
    spec_pw_sub(spec_zero(p.len()), p, q)
}

/// The negation of a whole row of ring elements.
pub open spec fn spec_neg_row(row: Seq<Seq<u64>>, q: u64) -> Seq<Seq<u64>> {
    Seq::new(row.len(), |i: int| spec_neg_poly(row[i], q))
}

/// The key-side addition gate: the element-wise sum of rows `i1` and `i2`.
pub open spec fn spec_add_gate(b: Seq<Seq<Seq<u64>>>, i1: int, i2: int, q: u64) -> Seq<Seq<u64>> {
    Seq::new(b[i1].len(), |i: int| spec_pw_add(b[i1][i], b[i2][i], q))
}

/// The gadget decomposition of the negation of row `i1`.
pub open spec fn spec_mul_gate_tau(
    b: Seq<Seq<Seq<u64>>>,
    i1: int,
    q: u64,
    m: nat,
    n: nat,
) -> Seq<Seq<Seq<u64>>> {
    spec_bit_decompose(spec_neg_row(b[i1], q), m, n)
}

/// The key-side multiplication gate: row `i2` times the gadget decomposition
/// of the negation of row `i1`.
pub open spec fn spec_mul_gate(
    b: Seq<Seq<Seq<u64>>>,
    i1: int,
    i2: int,
    q: u64,
    m: nat,
    n: nat,
) -> Seq<Seq<u64>> {
    Seq::new(m, |i: int| spec_dot(b[i2], column(spec_mul_gate_tau(b, i1, q, m, n), i), n, q, m))
}

/// The public key of the attribute encoding: a matrix `b` of `(ell + 1) * m`
/// uniformly sampled ring elements, together with the parameters it was built
/// for.
pub struct PublicKey {
    pub b: Vec<Vec<Vec<u64>>>,
    pub params: Parameters,
}

impl PublicKey {
    pub open spec fn wf(&self) -> bool {
        &&& self.params.wf()
        &&& self.b@.len() == self.params.ell + 1
        &&& forall|i: int| 0 <= i < self.b@.len() ==> #[trigger] self.b@[i]@.len() == self.params.m
        &&& mat_ok(view3(self.b), self.params.ring.spec_n(), self.params.ring.spec_q())
    }

    pub fn params(&self) -> (r: &Parameters)
        ensures
            r == &self.params,
    {
        &self.params
    }

    pub fn b(&self) -> (r: &Vec<Vec<Vec<u64>>>)
        ensures
            r == &self.b,
    {
        &self.b
    }

    /// Generate the public key: `b` is an `(ell + 1) x m` matrix with every
    /// entry drawn independently and uniformly from the ring.
    pub fn new(params: Parameters) -> (r: PublicKey)
        requires
            params.wf(),
        ensures
            r.wf(),
            r.params == params,
    {
        let ghost q = params.ring.spec_q();
        let ghost n = params.ring.spec_n();
        let rows = params.ell + 1;
        let m = params.m;
        let nn = params.ring.ring_size();
        let qq = params.ring.modulus();
        let mut rng = fresh_rng();
        let mut b: Vec<Vec<Vec<u64>>> = Vec::new();
        let mut i: usize = 0;
        while i < rows
            invariant
                i <= rows,
                params.wf(),
                q == params.ring.spec_q(),
                n == params.ring.spec_n(),
                m == params.m,
                nn == n,
                qq == q,
                b@.len() == i,
                forall|t: int| 0 <= t < i ==> #[trigger] b@[t]@.len() == m,
                forall|t: int| 0 <= t < i ==> row_ok(#[trigger] view2(b@[t]), n, q),
            decreases rows - i,
        {
            let mut row: Vec<Vec<u64>> = Vec::new();
            let mut j: usize = 0;
            while j < m
                invariant
                    j <= m,
                    params.wf(),
                    q == params.ring.spec_q(),
                    n == params.ring.spec_n(),
                    nn == n,
                    qq == q,
                    row@.len() == j,
                    forall|t: int| 0 <= t < j ==> poly_ok(#[trigger] row@[t]@, n, q),
                decreases m - j,
            {
                let mut p: Vec<u64> = Vec::new();
                let mut c: usize = 0;
                while c < nn
                    invariant
                        c <= nn,
                        params.wf(),
                        q == params.ring.spec_q(),
                        n == params.ring.spec_n(),
                        nn == n,
                        qq == q,
                        p@.len() == c,
                        forall|t: int| 0 <= t < c ==> #[trigger] p@[t] < q,
                    decreases nn - c,
                {
                    p.push(rand_below(&mut rng, qq));
                    c += 1;
                }
                row.push(p);
                j += 1;
            }
            b.push(row);
            i += 1;
        }
        proof {
            assert forall|t: int| 0 <= t < rows implies row_ok(#[trigger] view3(b)[t], n, q) by {
                assert(view3(b)[t] == view2(b@[t]));
            };
        }
        PublicKey { b, params }
    }

    /// The addition-gate operator over the public key rows at `idx_1` and `idx_2`.
    pub fn add_gate(&self, idx_1: usize, idx_2: usize) -> (r: Vec<Vec<u64>>)
        requires
            self.wf(),
            idx_1 < self.params.ell + 1,
            idx_2 < self.params.ell + 1,
        ensures
            view2(r) == spec_add_gate(view3(self.b), idx_1 as int, idx_2 as int, self.params.ring.spec_q()),
            row_ok(view2(r), self.params.ring.spec_n(), self.params.ring.spec_q()),
            r@.len() == self.params.m,
    {
        let ghost q = self.params.ring.spec_q();
        let ghost n = self.params.ring.spec_n();
        let m = self.params.m;
        let qq = self.params.ring.modulus();
        let mut out: Vec<Vec<u64>> = Vec::new();
        let mut i: usize = 0;
        while i < m
            invariant
                i <= m,
                self.wf(),
                q == self.params.ring.spec_q(),
                n == self.params.ring.spec_n(),
                m == self.params.m,
                qq == q,
                idx_1 < self.b@.len(),
                idx_2 < self.b@.len(),
                out@.len() == i,
                forall|t: int| 0 <= t < i ==> #[trigger] out@[t]@ == spec_pw_add(
                    view3(self.b)[idx_1 as int][t],
                    view3(self.b)[idx_2 as int][t],
                    q,
                ) && poly_ok(out@[t]@, n, q),
            decreases m - i,
        {
            proof {
                assert(view3(self.b)[idx_1 as int] == view2(self.b@[idx_1 as int]));
                assert(view3(self.b)[idx_2 as int] == view2(self.b@[idx_2 as int]));
                assert(view3(self.b)[idx_1 as int][i as int] == self.b@[idx_1 as int]@[i as int]@);
                assert(view3(self.b)[idx_2 as int][i as int] == self.b@[idx_2 as int]@[i as int]@);
            }
            let s = pw_add_exec(qq, &self.b[idx_1][i], &self.b[idx_2][i]);
            out.push(s);
            i += 1;
        }
        proof {
            assert(view2(out) =~= spec_add_gate(view3(self.b), idx_1 as int, idx_2 as int, q));
        }
        out
    }

    /// The multiplication-gate operator over the public key rows at `idx_1`
    /// and `idx_2`: row `idx_2` is multiplied by the gadget decomposition of the
    /// negation of row `idx_1` — the operand order is part of the protocol.
    pub fn mul_gate(&self, idx_1: usize, idx_2: usize) -> (r: Vec<Vec<u64>>)
        requires
            self.wf(),
            idx_1 < self.params.ell + 1,
            idx_2 < self.params.ell + 1,
        ensures
            view2(r) == spec_mul_gate(
                view3(self.b),
                idx_1 as int,
                idx_2 as int,
                self.params.ring.spec_q(),
                self.params.m as nat,
                self.params.ring.spec_n(),
            ),
            row_ok(view2(r), self.params.ring.spec_n(), self.params.ring.spec_q()),
            r@.len() == self.params.m,
    {
        let ghost q = self.params.ring.spec_q();
        let ghost n = self.params.ring.spec_n();
        let m = self.params.m;
        let nn = self.params.ring.ring_size();
        let qq = self.params.ring.modulus();
        // The negation of row idx_1, coefficient by coefficient.
        let zero = crate::ring::poly_zero(nn);
        let mut minus_b1: Vec<Vec<u64>> = Vec::new();
        let mut i: usize = 0;
        while i < m
            invariant
                i <= m,
                self.wf(),
                q == self.params.ring.spec_q(),
                n == self.params.ring.spec_n(),
                m == self.params.m,
                nn == n,
                qq == q,
                idx_1 < self.b@.len(),
                zero@ == spec_zero(n),
                minus_b1@.len() == i,
                forall|t: int| 0 <= t < i ==> #[trigger] minus_b1@[t]@ == spec_neg_poly(
                    view3(self.b)[idx_1 as int][t],
                    q,
                ) && poly_ok(minus_b1@[t]@, n, q),
            decreases m - i,
        {
            proof {
                assert(view3(self.b)[idx_1 as int] == view2(self.b@[idx_1 as int]));
                assert(view3(self.b)[idx_1 as int][i as int] == self.b@[idx_1 as int]@[i as int]@);
            }
            let neg = pw_sub_exec(qq, &zero, &self.b[idx_1][i]);
            minus_b1.push(neg);
            i += 1;
        }
        proof {
            assert(view2(minus_b1) =~= spec_neg_row(view3(self.b)[idx_1 as int], q));
        }
        let tau = match bit_decompose(&self.params, &minus_b1) {
            Ok(tau) => tau,
            Err(_) => {
                proof {
                    assert(false);
                }
                return Vec::new();
            },
        };
        let ghost tau_spec = spec_mul_gate_tau(view3(self.b), idx_1 as int, q, m as nat, n);
        proof {
            assert(view3(tau) == tau_spec);
            assert forall|t: int| 0 <= t < tau@.len() implies #[trigger] tau@[t]@.len() == m by {
                assert(view2(tau@[t]) == view3(tau)[t]);
                assert(tau_spec[t].len() == m);
            };
        }
        // out[i] = sum over h of b[idx_2][h] * tau[h][i]: row idx_2 of the key
        // times the decomposition matrix.
        let mut b2row: Vec<Vec<u64>> = Vec::new();
        let mut h: usize = 0;
        while h < m
            invariant
                h <= m,
                self.wf(),
                q == self.params.ring.spec_q(),
                n == self.params.ring.spec_n(),
                m == self.params.m,
                idx_2 < self.b@.len(),
                b2row@.len() == h,
                forall|t: int| 0 <= t < h ==> #[trigger] b2row@[t]@ == view3(self.b)[idx_2 as int][t]
                    && poly_ok(b2row@[t]@, n, q),
            decreases m - h,
        {
            proof {
                assert(view3(self.b)[idx_2 as int] == view2(self.b@[idx_2 as int]));
                assert(view3(self.b)[idx_2 as int][h as int] == self.b@[idx_2 as int]@[h as int]@);
            }
            let entry: Vec<u64> = self.b[idx_2][h].clone();
            proof {
                assert(entry@ == self.b@[idx_2 as int]@[h as int]@);
            }
            b2row.push(entry);
            h += 1;
        }
        proof {
            assert(view2(b2row) =~= view3(self.b)[idx_2 as int]);
            assert forall|t: int| 0 <= t < m implies poly_ok(#[trigger] view2(b2row)[t], n, q) by {
                assert(view2(b2row)[t] == b2row@[t]@);
            };
        }
        let ghost b2row_snap = b2row@;
        let out = match vec_mat_mul(&self.params.ring, b2row, tau) {
            Ok(out) => out,
            Err(_) => {
                proof {
                    assert(false);
                }
                return Vec::new();
            },
        };
        proof {
            assert forall|t: int| 0 <= t < m implies #[trigger] out@[t]@ == spec_mul_gate(
                view3(self.b),
                idx_1 as int,
                idx_2 as int,
                q,
                m as nat,
                n,
            )[t] by {
                assert(view2(out)[t] == out@[t]@);
                assert(view2(out)[t] == spec_dot(
                    view3(self.b)[idx_2 as int],
                    column(tau_spec, t),
                    n,
                    q,
                    m as nat,
                ));
            };
            assert(view2(out) =~= spec_mul_gate(view3(self.b), idx_1 as int, idx_2 as int, q, m as nat, n));
        }
        out
    }
}

} // verus!
