//! The attribute ciphertext: the deterministic inner encoding of the attribute
//! vector, a freshly sampled secret, and structured error.

use vstd::prelude::*;
use crate::ring::{
    Ring, poly_ok, spec_pw_add, spec_pw_sub, spec_zero, spec_negamul, view2, view3, fresh_rng,
    rand_below, poly_zero,
};
use crate::operations::{row_ok, mat_ok, pw_add_exec, pw_sub_exec, poly_mul};
use crate::pub_key::PublicKey;
use crate::EncodingError;

verus! {

/// The inner ciphertext matrix: row `i` is `b[i] + x[i] * g`, the gadget
/// vector being added exactly when the attribute bit `x[i]` is `1`.
pub open spec fn spec_inner(b: Seq<Seq<Seq<u64>>>, x: Seq<u64>, g: Seq<Seq<u64>>, q: u64) -> Seq<
    Seq<Seq<u64>>,
> {
    Seq::new(
        b.len(),
        |i: int| Seq::new(b[i].len(), |si: int| if x[i] == 1 { spec_pw_add(b[i][si], g[si], q) } else { b[i][si] }),
    )
}

/// The signed accumulation of the first `upto` base errors: each base error is
/// added or subtracted according to its sign bit (`true` meaning subtracted).
pub open spec fn spec_signed_sum(base: Seq<Seq<u64>>, signs: Seq<bool>, n: nat, q: u64, upto: nat) -> Seq<u64>
    decreases upto,
{
    if upto == 0 {
        spec_zero(n)
    } else if signs[upto - 1] {
        spec_pw_sub(spec_signed_sum(base, signs, n, q, (upto - 1) as nat), base[upto - 1], q)
    } else {
        spec_pw_add(spec_signed_sum(base, signs, n, q, (upto - 1) as nat), base[upto - 1], q)
    }
}

/// Every entry of `error` is the signed accumulation of the base errors under
/// the corresponding sign choices in `sgn`.
pub open spec fn error_is_signed_combination(
    error: Seq<Seq<Seq<u64>>>,
    base: Seq<Seq<u64>>,
    sgn: Seq<Seq<Seq<bool>>>,
    m: nat,
    n: nat,
    q: u64,
) -> bool {
    forall|i: int, si: int|
        0 <= i < error.len() && 0 <= si < error[i].len() ==> sgn[i][si].len() == m
            && #[trigger] error[i][si] == spec_signed_sum(base, sgn[i][si], n, q, m)
}

/// The full ciphertext: entry `(i, j)` is `inner[i][j] * secret + error[i][j]`.
pub open spec fn spec_ct_full(
    inner: Seq<Seq<Seq<u64>>>,
    secret: Seq<u64>,
    error: Seq<Seq<Seq<u64>>>,
    q: u64,
) -> Seq<Seq<Seq<u64>>> {
    Seq::new(
        inner.len(),
        |i: int| Seq::new(inner[i].len(), |j: int| spec_pw_add(spec_negamul(inner[i][j], secret, q), error[i][j], q)),
    )
}

/// An attribute ciphertext: the deterministic inner encoding, the sampled
/// secret, and the structured error matrix.
pub struct Ciphertext {
    pub inner: Vec<Vec<Vec<u64>>>,
    pub secret: Vec<u64>,
    pub error: Vec<Vec<Vec<u64>>>,
}

impl Ciphertext {
    /// Well-formedness with respect to a ring and the matrix dimensions.
    pub open spec fn wf(&self, rows: nat, m: nat, n: nat, q: u64) -> bool {
        &&& self.inner@.len() == rows
        &&& forall|i: int| 0 <= i < self.inner@.len() ==> #[trigger] self.inner@[i]@.len() == m
        &&& mat_ok(view3(self.inner), n, q)
        &&& poly_ok(self.secret@, n, q)
        &&& self.error@.len() == rows
        &&& forall|i: int| 0 <= i < self.error@.len() ==> #[trigger] self.error@[i]@.len() == m
        &&& mat_ok(view3(self.error), n, q)
    }

    pub fn inner(&self) -> (r: &Vec<Vec<Vec<u64>>>)
        ensures
            r == &self.inner,
    {
        &self.inner
    }

    /// Build the ciphertext for the attribute vector `x`: sample the secret
    /// uniformly, combine the given base errors into the structured error
    /// matrix with fresh signs per entry, and form `inner[i] = b[i] + x[i]*g`.
    /// Fails with a shape-mismatch error when `x` does not have `ell + 1`
    /// entries or the base errors do not have `m` entries.
    pub fn new(pub_key: &PublicKey, x: &Vec<u64>, base_errors: &Vec<Vec<u64>>) -> (r: Result<
        Ciphertext,
        EncodingError,
    >)
        requires
            pub_key.wf(),
            row_ok(view2(*base_errors), pub_key.params.ring.spec_n(), pub_key.params.ring.spec_q()),
        ensures
            r is Ok <==> x@.len() == pub_key.params.ell + 1 && base_errors@.len() == pub_key.params.m,
            r matches Ok(ct) ==> ct.wf(
                (pub_key.params.ell + 1) as nat,
                pub_key.params.m as nat,
                pub_key.params.ring.spec_n(),
                pub_key.params.ring.spec_q(),
            ) && view3(ct.inner) == spec_inner(
                view3(pub_key.b),
                x@,
                view2(pub_key.params.g),
                pub_key.params.ring.spec_q(),
            ) && (exists|sgn: Seq<Seq<Seq<bool>>>|
                sgn.len() == pub_key.params.ell + 1 && #[trigger] error_is_signed_combination(
                    view3(ct.error),
                    view2(*base_errors),
                    sgn,
                    pub_key.params.m as nat,
                    pub_key.params.ring.spec_n(),
                    pub_key.params.ring.spec_q(),
                )),
            r matches Err(e) ==> e == EncodingError::ShapeMismatch,
    {
        let ghost q = pub_key.params.ring.spec_q();
        let ghost n = pub_key.params.ring.spec_n();
        let rows = pub_key.params.ell + 1;
        let m = pub_key.params.m;
        let nn = pub_key.params.ring.ring_size();
        let qq = pub_key.params.ring.modulus();
        if x.len() != rows || base_errors.len() != m {
            return Err(EncodingError::ShapeMismatch);
        }
        let mut rng = fresh_rng();
        // The secret: one uniformly random ring element.
        let mut secret: Vec<u64> = Vec::new();
        let mut c: usize = 0;
        while c < nn
            invariant
                c <= nn,
                pub_key.wf(),
                q == pub_key.params.ring.spec_q(),
                nn == n == pub_key.params.ring.spec_n(),
                qq == q,
                secret@.len() == c,
                forall|t: int| 0 <= t < c ==> #[trigger] secret@[t] < q,
            decreases nn - c,
        {
            secret.push(rand_below(&mut rng, qq));
            c += 1;
        }
        // The structured error: for every entry, the base errors accumulated
        // with freshly sampled signs.
        let mut error: Vec<Vec<Vec<u64>>> = Vec::new();
        let ghost mut all_signs: Seq<Seq<Seq<bool>>> = Seq::empty();
        let mut i: usize = 0;
        while i < rows
            invariant
                i <= rows,
                pub_key.wf(),
                q == pub_key.params.ring.spec_q(),
                nn == n == pub_key.params.ring.spec_n(),
                qq == q,
                m == pub_key.params.m,
                base_errors@.len() == m,
                row_ok(view2(*base_errors), n, q),
                error@.len() == i,
                forall|t: int| 0 <= t < i ==> #[trigger] error@[t]@.len() == m,
                forall|t: int| 0 <= t < i ==> row_ok(#[trigger] view2(error@[t]), n, q),
                all_signs.len() == i,
                forall|t: int, si: int|
                    0 <= t < i && 0 <= si < error@[t]@.len() ==> (#[trigger] all_signs[t][si]).len()
                        == m && error@[t]@[si]@ == spec_signed_sum(
                        view2(*base_errors),
                        all_signs[t][si],
                        n,
                        q,
                        m as nat,
                    ),
            decreases rows - i,
        {
            let mut row: Vec<Vec<u64>> = Vec::new();
            let ghost mut row_signs: Seq<Seq<bool>> = Seq::empty();
            let mut si: usize = 0;
            while si < m
                invariant
                    si <= m,
                    pub_key.wf(),
                    q == pub_key.params.ring.spec_q(),
                    nn == n == pub_key.params.ring.spec_n(),
                    qq == q,
                    m == pub_key.params.m,
                    base_errors@.len() == m,
                    row_ok(view2(*base_errors), n, q),
                    row@.len() == si,
                    forall|t: int| 0 <= t < si ==> poly_ok(#[trigger] row@[t]@, n, q),
                    row_signs.len() == si,
                    forall|t: int|
                        0 <= t < si ==> (#[trigger] row_signs[t]).len() == m && row@[t]@
                            == spec_signed_sum(
                            view2(*base_errors),
                            row_signs[t],
                            n,
                            q,
                            m as nat,
                        ),
                decreases m - si,
            {
                let mut acc = poly_zero(nn);
                let ghost mut signs: Seq<bool> = Seq::empty();
                let mut t: usize = 0;
                while t < m
                    invariant
                        t <= m,
                        pub_key.wf(),
                        q == pub_key.params.ring.spec_q(),
                        nn == n == pub_key.params.ring.spec_n(),
                        qq == q,
                        m == pub_key.params.m,
                        base_errors@.len() == m,
                        row_ok(view2(*base_errors), n, q),
                        signs.len() == t,
                        acc@ == spec_signed_sum(view2(*base_errors), signs, n, q, t as nat),
                        poly_ok(acc@, n, q),
                    decreases m - t,
                {
                    proof {
                        assert(view2(*base_errors)[t as int] == base_errors@[t as int]@);
                    }
                    let flip = rand_below(&mut rng, 2);
                    if flip == 1 {
                        acc = pw_sub_exec(qq, &acc, &base_errors[t]);
                    } else {
                        acc = pw_add_exec(qq, &acc, &base_errors[t]);
                    }
                    proof {
                        let prev = signs;
                        signs = signs.push(flip == 1);
                        assert(signs[t as int] == (flip == 1));
                        assert(signs.subrange(0, t as int) =~= prev);
                        lemma_signed_sum_prefix(view2(*base_errors), signs, n, q, t as nat);
                        assert(spec_signed_sum(view2(*base_errors), signs, n, q, (t + 1) as nat)
                            == acc@);
                    }
                    t += 1;
                }
                proof {
                    row_signs = row_signs.push(signs);
                }
                row.push(acc);
                si += 1;
            }
            proof {
                assert forall|t: int| 0 <= t < m implies poly_ok(#[trigger] view2(row)[t], n, q) by {
                    assert(view2(row)[t] == row@[t]@);
                };
            }
            let ghost pre_error = error@;
            let ghost row_view = row@;
            error.push(row);
            proof {
                all_signs = all_signs.push(row_signs);
                assert forall|t2: int, si2: int|
                    0 <= t2 <= i && 0 <= si2 < error@[t2]@.len() implies (#[trigger] all_signs[t2][si2]).len()
                    == m && error@[t2]@[si2]@ == spec_signed_sum(
                    view2(*base_errors),
                    all_signs[t2][si2],
                    n,
                    q,
                    m as nat,
                ) by {
                    if t2 < i {
                        assert(error@[t2] == pre_error[t2]);
                        assert(all_signs[t2] == all_signs.drop_last()[t2]);
                    } else {
                        assert(error@[t2]@ == row_view);
                        assert(all_signs[t2] == row_signs);
                    }
                };
            }
            i += 1;
        }
        // The inner encoding: row i is b[i] + x[i] * g.
        let ghost ispec = spec_inner(view3(pub_key.b), x@, view2(pub_key.params.g), q);
        let mut inner: Vec<Vec<Vec<u64>>> = Vec::new();
        let mut i2: usize = 0;
        while i2 < rows
            invariant
                i2 <= rows,
                pub_key.wf(),
                q == pub_key.params.ring.spec_q(),
                nn == n == pub_key.params.ring.spec_n(),
                qq == q,
                m == pub_key.params.m,
                rows == pub_key.params.ell + 1,
                x@.len() == rows,
                ispec == spec_inner(view3(pub_key.b), x@, view2(pub_key.params.g), q),
                inner@.len() == i2,
                forall|t: int| 0 <= t < i2 ==> #[trigger] view2(inner@[t]) == ispec[t],
                forall|t: int| 0 <= t < i2 ==> #[trigger] inner@[t]@.len() == m,
                forall|t: int| 0 <= t < i2 ==> row_ok(#[trigger] view2(inner@[t]), n, q),
            decreases rows - i2,
        {
            let xi = x[i2];
            let mut row: Vec<Vec<u64>> = Vec::new();
            let ghost mut row_signs: Seq<Seq<bool>> = Seq::empty();
            let mut si: usize = 0;
            while si < m
                invariant
                    si <= m,
                    i2 < rows,
                    pub_key.wf(),
                    q == pub_key.params.ring.spec_q(),
                    nn == n == pub_key.params.ring.spec_n(),
                    qq == q,
                    m == pub_key.params.m,
                    rows == pub_key.params.ell + 1,
                    x@.len() == rows,
                    xi == x@[i2 as int],
                    ispec == spec_inner(view3(pub_key.b), x@, view2(pub_key.params.g), q),
                    row@.len() == si,
                    forall|t: int| 0 <= t < si ==> #[trigger] row@[t]@ == ispec[i2 as int][t],
                    forall|t: int| 0 <= t < si ==> poly_ok(#[trigger] row@[t]@, n, q),
                decreases m - si,
            {
                proof {
                    assert(view3(pub_key.b)[i2 as int] == view2(pub_key.b@[i2 as int]));
                    assert(view3(pub_key.b)[i2 as int][si as int] == pub_key.b@[i2 as int]@[si as int]@);
                    assert(view2(pub_key.params.g).len() == pub_key.params.g@.len());
                    assert(view2(pub_key.params.g) == crate::parameters::spec_gadget(
                        m as nat,
                        n,
                    ));
                    assert(pub_key.params.g@.len() == m);
                    assert(view2(pub_key.params.g)[si as int] == pub_key.params.g@[si as int]@);
                    assert(poly_ok(pub_key.params.g@[si as int]@, n, q));
                }
                let entry: Vec<u64>;
                if xi == 1 {
                    entry = pw_add_exec(qq, &pub_key.b[i2][si], &pub_key.params.g[si]);
                } else {
                    entry = pub_key.b[i2][si].clone();
                    proof {
                        assert(entry@ == pub_key.b@[i2 as int]@[si as int]@);
                    }
                }
                row.push(entry);
                si += 1;
            }
            proof {
                assert(view2(row) =~= ispec[i2 as int]);
            }
            inner.push(row);
            i2 += 1;
        }
        proof {
            assert(view3(inner) =~= ispec);
            assert forall|t: int| 0 <= t < rows implies row_ok(#[trigger] view3(inner)[t], n, q) by {
                assert(view3(inner)[t] == view2(inner@[t]));
            };
            assert forall|t: int| 0 <= t < rows implies row_ok(#[trigger] view3(error)[t], n, q) by {
                assert(view3(error)[t] == view2(error@[t]));
            };
        }
        proof {
            assert(error_is_signed_combination(
                view3(error),
                view2(*base_errors),
                all_signs,
                m as nat,
                n,
                q,
            )) by {
                assert forall|t: int, si: int|
                    0 <= t < view3(error).len() && 0 <= si < view3(error)[t].len() implies all_signs[t][si].len()
                    == m && #[trigger] view3(error)[t][si] == spec_signed_sum(
                    view2(*base_errors),
                    all_signs[t][si],
                    n,
                    q,
                    m as nat,
                ) by {
                    assert(view3(error)[t] == view2(error@[t]));
                    assert(view3(error)[t][si] == error@[t]@[si]@);
                };
            };
        }
        Ok(Ciphertext { inner, secret, error })
    }

    /// The full (noisy) ciphertext: every entry is the Ring-LWE sample
    /// `inner[i][j] * secret + error[i][j]`.
    pub fn compute_ct_full(&self, ring: &Ring) -> (r: Vec<Vec<Vec<u64>>>)
        requires
            ring.wf(),
            self.inner@.len() == self.error@.len(),
            forall|i: int| 0 <= i < self.inner@.len() ==> #[trigger] self.inner@[i]@.len()
                == self.error@[i]@.len(),
            mat_ok(view3(self.inner), ring.spec_n(), ring.spec_q()),
            mat_ok(view3(self.error), ring.spec_n(), ring.spec_q()),
            poly_ok(self.secret@, ring.spec_n(), ring.spec_q()),
        ensures
            view3(r) == spec_ct_full(view3(self.inner), self.secret@, view3(self.error), ring.spec_q()),
            mat_ok(view3(r), ring.spec_n(), ring.spec_q()),
    {
        let ghost q = ring.spec_q();
        let ghost n = ring.spec_n();
        let qq = ring.modulus();
        let rows = self.inner.len();
        let ghost cspec = spec_ct_full(view3(self.inner), self.secret@, view3(self.error), q);
        let mut out: Vec<Vec<Vec<u64>>> = Vec::new();
        let mut i: usize = 0;
        while i < rows
            invariant
                i <= rows,
                ring.wf(),
                q == ring.spec_q(),
                n == ring.spec_n(),
                qq == q,
                rows == self.inner@.len() == self.error@.len(),
                forall|t: int| 0 <= t < rows ==> #[trigger] self.inner@[t]@.len() == self.error@[t]@.len(),
                mat_ok(view3(self.inner), n, q),
                mat_ok(view3(self.error), n, q),
                poly_ok(self.secret@, n, q),
                cspec == spec_ct_full(view3(self.inner), self.secret@, view3(self.error), q),
                out@.len() == i,
                forall|t: int| 0 <= t < i ==> #[trigger] view2(out@[t]) == cspec[t],
                forall|t: int| 0 <= t < i ==> row_ok(#[trigger] view2(out@[t]), n, q),
            decreases rows - i,
        {
            let cols = self.inner[i].len();
            let mut row: Vec<Vec<u64>> = Vec::new();
            let mut j: usize = 0;
            while j < cols
                invariant
                    j <= cols,
                    i < rows,
                    ring.wf(),
                    q == ring.spec_q(),
                    n == ring.spec_n(),
                    qq == q,
                    rows == self.inner@.len() == self.error@.len(),
                    cols == self.inner@[i as int]@.len() == self.error@[i as int]@.len(),
                    mat_ok(view3(self.inner), n, q),
                    mat_ok(view3(self.error), n, q),
                    poly_ok(self.secret@, n, q),
                    cspec == spec_ct_full(view3(self.inner), self.secret@, view3(self.error), q),
                    row@.len() == j,
                    forall|t: int| 0 <= t < j ==> #[trigger] row@[t]@ == cspec[i as int][t],
                    forall|t: int| 0 <= t < j ==> poly_ok(#[trigger] row@[t]@, n, q),
                decreases cols - j,
            {
                proof {
                    assert(view3(self.inner)[i as int] == view2(self.inner@[i as int]));
                    assert(view3(self.inner)[i as int][j as int] == self.inner@[i as int]@[j as int]@);
                    assert(view3(self.error)[i as int] == view2(self.error@[i as int]));
                    assert(view3(self.error)[i as int][j as int] == self.error@[i as int]@[j as int]@);
                }
                let p = poly_mul(ring, &self.inner[i][j], &self.secret);
                let e = pw_add_exec(qq, &p, &self.error[i][j]);
                row.push(e);
                j += 1;
            }
            proof {
                assert(view2(row) =~= cspec[i as int]);
            }
            out.push(row);
            i += 1;
        }
        proof {
            assert(view3(out) =~= cspec);
            assert forall|t: int| 0 <= t < rows implies row_ok(#[trigger] view3(out)[t], n, q) by {
                assert(view3(out)[t] == view2(out@[t]));
            };
        }
        out
    }
}

/// Extending the sign sequence by one does not change the accumulated prefix.
proof fn lemma_signed_sum_prefix(base: Seq<Seq<u64>>, signs: Seq<bool>, n: nat, q: u64, upto: nat)
    requires
        upto < signs.len(),
    ensures
        spec_signed_sum(base, signs, n, q, upto) == spec_signed_sum(
            base,
            signs.subrange(0, upto as int),
            n,
            q,
            upto,
        ),
    decreases upto,
{
    if upto > 0 {
        lemma_signed_sum_prefix(base, signs, n, q, (upto - 1) as nat);
        assert(signs.subrange(0, upto as int).subrange(0, upto - 1) =~= signs.subrange(
            0,
            upto - 1,
        ));
        lemma_signed_sum_prefix(base, signs.subrange(0, upto as int), n, q, (upto - 1) as nat);
    }
}

} // verus!
