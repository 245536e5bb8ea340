//! The algebraic laws of the encoding: the gadget round-trip and the exact
//! correctness identities of the two homomorphic gate evaluations.

use vstd::prelude::*;
use vstd::arithmetic::power2::*;
use vstd::arithmetic::div_mod::{
    lemma_small_mod, lemma_add_mod_noop, lemma_mul_mod_noop_left, lemma_mod_breakdown,
    lemma_mod_bound, lemma_mod_twice,
};
use vstd::arithmetic::mul::{lemma_mul_is_distributive_add, lemma_mul_is_distributive_add_other_way, lemma_mul_basics};
use crate::ring::{
    poly_ok, amod, spec_pw_add, conv, is_const, lemma_conv_const_right,
    lemma_conv_const_left, lemma_amod_bound,
};
use crate::operations::{spec_dot, column, spec_vec_mat_mul, spec_bit, spec_bit_decompose, row_ok, mat_ok};
use crate::parameters::spec_gadget;
use crate::pub_key::{spec_add_gate, spec_mul_gate, spec_mul_gate_tau, spec_neg_row};
use crate::ciphertext::spec_inner;
use crate::eval::{spec_const_poly, spec_m_eval_add_x, spec_m_eval_mul_x};

verus! {

/// Each coefficient of `p` scaled by `c`, modulo `q`.
pub open spec fn spec_scale(p: Seq<u64>, c: u64, q: u64) -> Seq<u64> {
    Seq::new(p.len(), |j: int| amod((p[j] as int) * (c as int), q))
}

/// The integer sum of the first `upto` convolution coefficients at position
/// `j` of the products `a[i] * b[i]`.
pub open spec fn dot_sum(a: Seq<Seq<u64>>, b: Seq<Seq<u64>>, j: int, upto: nat) -> int
    decreases upto,
{
    if upto == 0 {
        0
    } else {
        dot_sum(a, b, j, (upto - 1) as nat) + conv(a[upto - 1], b[upto - 1], j, a[upto - 1].len())
    }
}

/// Coefficient `j` of the accumulated dot product is the reduction of the
/// integer sum of the convolution coefficients.
pub proof fn lemma_dot_coeff(a: Seq<Seq<u64>>, b: Seq<Seq<u64>>, n: nat, q: u64, upto: nat, j: int)
    requires
        0 < q,
        0 <= j < n,
        forall|i: int| 0 <= i < upto ==> (#[trigger] a[i]).len() == n,
    ensures
        spec_dot(a, b, n, q, upto).len() == n,
        spec_dot(a, b, n, q, upto)[j] == amod(dot_sum(a, b, j, upto), q),
    decreases upto,
{
    if upto == 0 {
        lemma_small_mod(0, q as nat);
    } else {
        lemma_dot_coeff(a, b, n, q, (upto - 1) as nat, j);
        let s1 = dot_sum(a, b, j, (upto - 1) as nat);
        let c = conv(a[upto - 1], b[upto - 1], j, a[upto - 1].len());
        lemma_mod_bound(s1, q as int);
        lemma_mod_bound(c, q as int);
        lemma_amod_bound(c, q);
        lemma_add_mod_noop(s1, c, q as int);
    }
}

/// The weighted bit sum of `c`: the first `upto` bit planes, each weighted by
/// its power of two when below `mm2` and by zero from `mm2` on.
pub open spec fn gbit_sum(c: u64, mm2: nat, upto: nat) -> int
    decreases upto,
{
    if upto == 0 {
        0
    } else {
        gbit_sum(c, mm2, (upto - 1) as nat) + if upto - 1 < mm2 {
            (pow2((upto - 1) as nat) as int) * (spec_bit(c, (upto - 1) as nat) as int)
        } else {
            0
        }
    }
}

/// The weighted bit sum reconstructs `c % 2^upto` while below `mm2`, and
/// freezes at `c % 2^mm2` from there on.
pub proof fn lemma_gbit_sum_value(c: u64, mm2: nat, upto: nat)
    ensures
        gbit_sum(c, mm2, upto) == if upto <= mm2 {
            (c as int) % (pow2(upto) as int)
        } else {
            (c as int) % (pow2(mm2) as int)
        },
    decreases upto,
{
    lemma_pow2_pos(mm2);
    if upto == 0 {
        lemma2_to64();
        lemma_small_mod(0, 1);
        assert((c as int) % (pow2(0) as int) == c % 1);
    } else {
        lemma_gbit_sum_value(c, mm2, (upto - 1) as nat);
        if upto - 1 < mm2 {
            let h = (upto - 1) as nat;
            lemma_pow2_pos(h);
            lemma_pow2_adds(h, 1);
            lemma2_to64();
            lemma_mod_breakdown(c as int, pow2(h) as int, 2);
            assert(pow2(upto) == pow2(h) * 2);
        }
    }
}

/// The dot product of the gadget vector against column `i` of the bit
/// decomposition of `u` sums the weighted bit planes of `u[i][j]`.
pub proof fn lemma_gadget_column_sum(u: Seq<Seq<u64>>, m: nat, n: nat, i: int, j: int, upto: nat)
    requires
        2 <= m,
        1 <= n,
        0 <= i < m,
        0 <= j < n,
        upto <= m,
        forall|t: int| 0 <= t < m ==> #[trigger] pow2(t as nat) <= u64::MAX,
    ensures
        dot_sum(
            spec_gadget(m, n),
            column(spec_bit_decompose(u, m, n), i),
            j,
            upto,
        ) == gbit_sum(u[i][j], (m - 2) as nat, upto),
    decreases upto,
{
    if upto > 0 {
        lemma_gadget_column_sum(u, m, n, i, j, (upto - 1) as nat);
        let h = upto - 1;
        let g = spec_gadget(m, n);
        let tau_col = column(spec_bit_decompose(u, m, n), i);
        assert(is_const(g[h]));
        assert(g[h].len() == n && tau_col[h].len() == n);
        lemma_conv_const_left(g[h], tau_col[h], j, n);
        assert(conv(g[h], tau_col[h], j, n) == (g[h][0] as int) * (tau_col[h][j] as int));
        assert(tau_col[h][j] == spec_bit(u[i][j], h as nat));
    }
}

/// Gadget round-trip: multiplying the gadget vector by the bit decomposition
/// of a well-formed matrix `u` of `m` ring elements returns `u` exactly,
/// because every coefficient is below the modulus and the modulus fits in the
/// `m - 2` gadget bit planes.
pub proof fn lemma_gadget_round_trip(u: Seq<Seq<u64>>, m: nat, n: nat, q: u64)
    requires
        2 <= m <= 64,
        1 <= n,
        0 < q,
        (q as nat) <= pow2((m - 2) as nat),
        u.len() == m,
        row_ok(u, n, q),
    ensures
        spec_vec_mat_mul(spec_gadget(m, n), spec_bit_decompose(u, m, n), n, q, m) == u,
{
    let g = spec_gadget(m, n);
    let tau = spec_bit_decompose(u, m, n);
    let out = spec_vec_mat_mul(g, tau, n, q, m);
    assert forall|t: int| 0 <= t < m implies #[trigger] pow2(t as nat) <= u64::MAX by {
        lemma2_to64();
        lemma2_to64_rest();
        if (t as nat) < 64 {
            lemma_pow2_strictly_increases(t as nat, 64);
        }
    };
    assert forall|i: int| 0 <= i < m implies out[i] == u[i] by {
        assert(poly_ok(u[i], n, q));
        assert(g.len() == m);
        assert forall|t: int| 0 <= t < m implies (#[trigger] g[t]).len() == n by {};
        lemma_dot_coeff(g, column(tau, i), n, q, m, 0);
        assert(out[i].len() == n);
        assert forall|j: int| 0 <= j < n implies out[i][j] == u[i][j] by {
            lemma_dot_coeff(g, column(tau, i), n, q, m, j);
            lemma_gadget_column_sum(u, m, n, i, j, m);
            lemma_gbit_sum_value(u[i][j], (m - 2) as nat, m);
            // u[i][j] < q <= 2^(m-2), so the frozen bit sum is u[i][j] itself.
            lemma_pow2_pos((m - 2) as nat);
            lemma_small_mod(u[i][j] as nat, pow2((m - 2) as nat));
            lemma_small_mod(u[i][j] as nat, q as nat);
        };
        assert(out[i] =~= u[i]);
    };
    assert(out =~= u);
}

/// The concatenation of two vectors of ring elements.
pub open spec fn concat2(a: Seq<Seq<u64>>, b: Seq<Seq<u64>>) -> Seq<Seq<u64>> {
    Seq::new(a.len() + b.len(), |r: int| if r < a.len() { a[r] } else { b[r - a.len()] })
}

/// The dot product against a column of the addition-gate evaluation matrix
/// picks out the two identity hits.
proof fn lemma_add_col_sum(cc: Seq<Seq<u64>>, m: nat, n: nat, i: int, j: int, upto: nat)
    requires
        1 <= n,
        0 <= i < m,
        0 <= j < n,
        upto <= 2 * m,
        cc.len() == 2 * m,
        forall|r: int| 0 <= r < cc.len() ==> (#[trigger] cc[r]).len() == n,
    ensures
        dot_sum(cc, column(spec_m_eval_add_x(m, n), i), j, upto) == (if i < upto {
            cc[i][j] as int
        } else {
            0
        }) + (if m + i < upto {
            cc[m + i][j] as int
        } else {
            0
        }),
    decreases upto,
{
    if upto > 0 {
        lemma_add_col_sum(cc, m, n, i, j, (upto - 1) as nat);
        let r = upto - 1;
        let col = column(spec_m_eval_add_x(m, n), i);
        assert(col[r] == spec_const_poly(n, if r == i || r == m + i { 1u64 } else { 0u64 }));
        assert(is_const(col[r]));
        assert(col[r].len() == n && cc[r].len() == n);
        lemma_conv_const_right(cc[r], col[r], j, n);
        let term = conv(cc[r], col[r], j, cc[r].len());
        assert(term == (cc[r][j] as int) * (col[r][0] as int));
        assert(dot_sum(cc, col, j, upto) == dot_sum(cc, col, j, (upto - 1) as nat) + term);
        if r == i {
            assert(col[r][0] == 1u64);
            assert(term == cc[i][j] as int);
        } else if r == m + i {
            assert(col[r][0] == 1u64);
            assert(term == cc[m + i][j] as int);
        } else {
            assert(col[r][0] == 0u64);
            assert(term == 0);
        }
    }
}

/// Additive homomorphism: concatenating the inner encodings of two attribute
/// rows and applying the addition evaluation matrix yields the key-side
/// addition gate shifted by `(x[i1] + x[i2])` times the gadget vector.
pub proof fn lemma_add_homomorphism(
    b: Seq<Seq<Seq<u64>>>,
    x: Seq<u64>,
    i1: int,
    i2: int,
    m: nat,
    n: nat,
    q: u64,
)
    requires
        1 <= n,
        1 <= m,
        0 < q,
        b.len() == x.len(),
        0 <= i1 < b.len(),
        0 <= i2 < b.len(),
        i1 != i2,
        forall|i: int| 0 <= i < b.len() ==> (#[trigger] b[i]).len() == m,
        mat_ok(b, n, q),
        forall|i: int| 0 <= i < x.len() ==> #[trigger] x[i] <= 1,
        x[0] == 1,
    ensures
        spec_vec_mat_mul(
            concat2(
                spec_inner(b, x, spec_gadget(m, n), q)[i1],
                spec_inner(b, x, spec_gadget(m, n), q)[i2],
            ),
            spec_m_eval_add_x(m, n),
            n,
            q,
            m,
        ) == Seq::new(
            m,
            |i: int| spec_pw_add(
                spec_add_gate(b, i1, i2, q)[i],
                spec_scale(spec_gadget(m, n)[i], (x[i1] + x[i2]) as u64, q),
                q,
            ),
        ),
{
    let g = spec_gadget(m, n);
    let inner = spec_inner(b, x, g, q);
    let cc = concat2(inner[i1], inner[i2]);
    let h_add = spec_m_eval_add_x(m, n);
    let out = spec_vec_mat_mul(cc, h_add, n, q, m);
    let rhs = Seq::new(
        m,
        |i: int| spec_pw_add(
            spec_add_gate(b, i1, i2, q)[i],
            spec_scale(g[i], (x[i1] + x[i2]) as u64, q),
            q,
        ),
    );
    let x1 = x[i1] as int;
    let x2 = x[i2] as int;
    assert(inner[i1].len() == m && inner[i2].len() == m);
    assert forall|r: int| 0 <= r < cc.len() implies (#[trigger] cc[r]).len() == n by {
        if r < m {
            lemma_inner_entry(b, x, g, q, n, m, i1, r);
        } else {
            lemma_inner_entry(b, x, g, q, n, m, i2, r - m);
        }
    };
    assert forall|i: int| 0 <= i < m implies out[i] == rhs[i] by {
        lemma_dot_coeff(cc, column(h_add, i), n, q, 2 * m, 0);
        assert(out[i].len() == n);
        assert(rhs[i].len() == n);
        assert forall|j: int| 0 <= j < n implies out[i][j] == rhs[i][j] by {
            lemma_dot_coeff(cc, column(h_add, i), n, q, 2 * m, j);
            lemma_add_col_sum(cc, m, n, i, j, 2 * m);
            let b1 = b[i1][i][j] as int;
            let b2 = b[i2][i][j] as int;
            let gj = g[i][j] as int;
            lemma_inner_coeff(b, x, g, q, n, m, i1, i, j);
            lemma_inner_coeff(b, x, g, q, n, m, i2, i, j);
            assert(cc[i][j] == inner[i1][i][j] && cc[m + i][j] == inner[i2][i][j]);
            let qi = q as int;
            // Both sides reduce to (b1 + b2 + (x1 + x2) * gj) % q.
            lemma_add_mod_noop(b1 + x1 * gj, b2 + x2 * gj, qi);
            lemma_add_mod_noop(b1 + b2, gj * (x1 + x2), qi);
            lemma_mul_is_distributive_add(gj, x1, x2);
            lemma_amod_bound(b1 + b2, q);
            lemma_amod_bound(gj * (x1 + x2), q);
            assert(out[i][j] == amod((b1 + x1 * gj) % qi + (b2 + x2 * gj) % qi, q));
            assert(rhs[i][j] == amod((b1 + b2) % qi + (gj * (x1 + x2)) % qi, q));
        };
        assert(out[i] =~= rhs[i]);
    };
    assert(out =~= rhs);
}

/// Entry `(row, si)` of the inner encoding is a ring element of length `n`.
proof fn lemma_inner_entry(
    b: Seq<Seq<Seq<u64>>>,
    x: Seq<u64>,
    g: Seq<Seq<u64>>,
    q: u64,
    n: nat,
    m: nat,
    row: int,
    si: int,
)
    requires
        0 < q,
        0 <= row < b.len(),
        b[row].len() == m,
        0 <= si < m,
        mat_ok(b, n, q),
    ensures
        spec_inner(b, x, g, q)[row][si].len() == n,
{
    assert(poly_ok(b[row][si], n, q));
}

/// Coefficient `j` of entry `(row, si)` of the inner encoding is congruent to
/// `b[row][si][j] + x[row] * g[si][j]` and lies below `q`.
proof fn lemma_inner_coeff(
    b: Seq<Seq<Seq<u64>>>,
    x: Seq<u64>,
    g: Seq<Seq<u64>>,
    q: u64,
    n: nat,
    m: nat,
    row: int,
    si: int,
    j: int,
)
    requires
        0 < q,
        0 <= row < b.len(),
        row < x.len(),
        b[row].len() == m,
        0 <= si < m,
        0 <= j < n,
        x[row] <= 1,
        mat_ok(b, n, q),
    ensures
        spec_inner(b, x, g, q)[row][si][j] < q,
        spec_inner(b, x, g, q)[row][si][j] as int == (b[row][si][j] + (x[row] as int) * (g[si][j] as int)) % (q as int),
{
    assert(poly_ok(b[row][si], n, q));
    let bj = b[row][si][j] as int;
    let gj = g[si][j] as int;
    if x[row] == 1 {
        assert(spec_inner(b, x, g, q)[row][si] == spec_pw_add(b[row][si], g[si], q));
        lemma_amod_bound(bj + gj, q);
    } else {
        assert(spec_inner(b, x, g, q)[row][si] == b[row][si]);
        lemma_small_mod(b[row][si][j] as nat, q as nat);
    }
}

/// The dot product against a column of the multiplication-gate evaluation
/// matrix: the scaled identity hit from the top block plus the running sum
/// against the gadget decomposition in the bottom block.
proof fn lemma_mul_col_sum(
    ct1: Seq<Seq<u64>>,
    ct2: Seq<Seq<u64>>,
    row1: Seq<Seq<u64>>,
    x2: u64,
    q: u64,
    m: nat,
    n: nat,
    i: int,
    j: int,
    upto: nat,
)
    requires
        1 <= n,
        0 <= i < m,
        0 <= j < n,
        upto <= 2 * m,
        ct1.len() == m,
        ct2.len() == m,
        forall|r: int| 0 <= r < m ==> (#[trigger] ct1[r]).len() == n,
        forall|r: int| 0 <= r < m ==> (#[trigger] ct2[r]).len() == n,
    ensures
        dot_sum(
            concat2(ct1, ct2),
            column(spec_m_eval_mul_x(row1, x2, q, m, n), i),
            j,
            upto,
        ) == (if i < upto {
            (ct1[i][j] as int) * (x2 as int)
        } else {
            0
        }) + (if upto >= m {
            dot_sum(
                ct2,
                column(spec_bit_decompose(spec_neg_row(row1, q), m, n), i),
                j,
                (upto - m) as nat,
            )
        } else {
            0
        }),
    decreases upto,
{
    if upto > 0 {
        lemma_mul_col_sum(ct1, ct2, row1, x2, q, m, n, i, j, (upto - 1) as nat);
        let r = upto - 1;
        let cc = concat2(ct1, ct2);
        let col = column(spec_m_eval_mul_x(row1, x2, q, m, n), i);
        let tau = spec_bit_decompose(spec_neg_row(row1, q), m, n);
        let term = conv(cc[r], col[r], j, cc[r].len());
        assert(dot_sum(cc, col, j, upto) == dot_sum(cc, col, j, (upto - 1) as nat) + term);
        if r < m {
            assert(cc[r] == ct1[r]);
            assert(col[r] == spec_const_poly(n, if r == i { x2 } else { 0u64 }));
            assert(is_const(col[r]));
            lemma_conv_const_right(cc[r], col[r], j, n);
            assert(term == (ct1[r][j] as int) * (col[r][0] as int));
            if r == i {
                assert(col[r][0] == x2);
            } else {
                assert(col[r][0] == 0u64);
                lemma_mul_basics(ct1[r][j] as int);
                assert(term == 0);
            }
        } else {
            let h = r - m;
            assert(cc[r] == ct2[h]);
            assert(col[r] == tau[h][i]);
            assert(column(tau, i)[h] == tau[h][i]);
            assert(dot_sum(ct2, column(tau, i), j, (h + 1) as nat) == dot_sum(
                ct2,
                column(tau, i),
                j,
                h as nat,
            ) + conv(ct2[h], column(tau, i)[h], j, ct2[h].len()));
        }
    }
}

/// Convolving a pointwise modular sum on the left is, modulo `q`, the sum of
/// the two convolutions.
proof fn lemma_conv_pw_add_left(u: Seq<u64>, e: Seq<u64>, t: Seq<u64>, j: int, q: u64, upto: nat)
    requires
        0 < q,
        u.len() == e.len(),
        upto <= u.len(),
    ensures
        conv(spec_pw_add(u, e, q), t, j, upto) % (q as int) == (conv(u, t, j, upto) + conv(
            e,
            t,
            j,
            upto,
        )) % (q as int),
    decreases upto,
{
    let qi = q as int;
    let w = spec_pw_add(u, e, q);
    if upto == 0 {
        assert(conv(w, t, j, 0) == 0);
    } else {
        lemma_conv_pw_add_left(u, e, t, j, q, (upto - 1) as nat);
        let i = upto - 1;
        let ne = crate::ring::neg_ext(t, j - i);
        let cw = conv(w, t, j, (upto - 1) as nat);
        let cu = conv(u, t, j, (upto - 1) as nat);
        let ce = conv(e, t, j, (upto - 1) as nat);
        lemma_amod_bound(u[i] + e[i], q);
        assert((w[i] as int) == (u[i] + e[i]) % qi);
        lemma_mul_mod_noop_left(u[i] + e[i], ne, qi);
        lemma_mul_is_distributive_add_other_way(ne, u[i] as int, e[i] as int);
        assert(((w[i] as int) * ne) % qi == ((u[i] as int) * ne + (e[i] as int) * ne) % qi);
        lemma_add_mod_noop(cw, (w[i] as int) * ne, qi);
        lemma_add_mod_noop(cu + ce, (u[i] as int) * ne + (e[i] as int) * ne, qi);
        assert((cw + (w[i] as int) * ne) % qi == ((cw % qi) + (((w[i] as int) * ne) % qi)) % qi);
        assert(((cu + ce) % qi + ((u[i] as int) * ne + (e[i] as int) * ne) % qi) % qi == (cu + ce
            + (u[i] as int) * ne + (e[i] as int) * ne) % qi);
    }
}

/// A dot product whose left entries are pointwise modular sums splits, modulo
/// `q`, into the two dot products.
proof fn lemma_dot_sum_pw_add(
    a1: Seq<Seq<u64>>,
    a2: Seq<Seq<u64>>,
    w: Seq<Seq<u64>>,
    bcol: Seq<Seq<u64>>,
    j: int,
    q: u64,
    upto: nat,
)
    requires
        0 < q,
        forall|h: int| 0 <= h < upto ==> #[trigger] w[h] == spec_pw_add(a1[h], a2[h], q),
        forall|h: int| 0 <= h < upto ==> (#[trigger] a1[h]).len() == a2[h].len(),
    ensures
        dot_sum(w, bcol, j, upto) % (q as int) == (dot_sum(a1, bcol, j, upto) + dot_sum(
            a2,
            bcol,
            j,
            upto,
        )) % (q as int),
    decreases upto,
{
    let qi = q as int;
    if upto == 0 {
    } else {
        lemma_dot_sum_pw_add(a1, a2, w, bcol, j, q, (upto - 1) as nat);
        let h = upto - 1;
        let sw = dot_sum(w, bcol, j, (upto - 1) as nat);
        let s1 = dot_sum(a1, bcol, j, (upto - 1) as nat);
        let s2 = dot_sum(a2, bcol, j, (upto - 1) as nat);
        let tw = conv(w[h], bcol[h], j, w[h].len());
        let t1 = conv(a1[h], bcol[h], j, a1[h].len());
        let t2 = conv(a2[h], bcol[h], j, a2[h].len());
        assert(w[h].len() == a1[h].len());
        lemma_conv_pw_add_left(a1[h], a2[h], bcol[h], j, q, a1[h].len() as nat);
        assert(tw % qi == (t1 + t2) % qi);
        lemma_add_mod_noop(sw, tw, qi);
        lemma_add_mod_noop(s1 + s2, t1 + t2, qi);
        assert((sw + tw) % qi == ((sw % qi) + (tw % qi)) % qi);
        assert(((s1 + s2) % qi + (t1 + t2) % qi) % qi == (s1 + s2 + t1 + t2) % qi);
    }
}

/// Multiplicative homomorphism: concatenating the inner encodings of two
/// attribute rows and applying the multiplication evaluation matrix yields the
/// key-side multiplication gate shifted by `x[i1] * x[i2]` times the gadget
/// vector.
pub proof fn lemma_mul_homomorphism(
    b: Seq<Seq<Seq<u64>>>,
    x: Seq<u64>,
    i1: int,
    i2: int,
    m: nat,
    n: nat,
    q: u64,
)
    requires
        1 <= n,
        2 <= m <= 64,
        0 < q,
        (q as nat) <= pow2((m - 2) as nat),
        b.len() == x.len(),
        0 <= i1 < b.len(),
        0 <= i2 < b.len(),
        i1 != i2,
        forall|i: int| 0 <= i < b.len() ==> (#[trigger] b[i]).len() == m,
        mat_ok(b, n, q),
        forall|i: int| 0 <= i < x.len() ==> #[trigger] x[i] <= 1,
        x[0] == 1,
    ensures
        spec_vec_mat_mul(
            concat2(
                spec_inner(b, x, spec_gadget(m, n), q)[i1],
                spec_inner(b, x, spec_gadget(m, n), q)[i2],
            ),
            spec_m_eval_mul_x(b[i1], x[i2], q, m, n),
            n,
            q,
            m,
        ) == Seq::new(
            m,
            |i: int| spec_pw_add(
                spec_mul_gate(b, i1, i2, q, m, n)[i],
                spec_scale(spec_gadget(m, n)[i], (x[i1] * x[i2]) as u64, q),
                q,
            ),
        ),
{
    let qi = q as int;
    let g = spec_gadget(m, n);
    let inner = spec_inner(b, x, g, q);
    let ct1 = inner[i1];
    let ct2 = inner[i2];
    let cc = concat2(ct1, ct2);
    let neg1 = spec_neg_row(b[i1], q);
    let tau = spec_bit_decompose(neg1, m, n);
    let h_mul = spec_m_eval_mul_x(b[i1], x[i2], q, m, n);
    let out = spec_vec_mat_mul(cc, h_mul, n, q, m);
    let rhs = Seq::new(
        m,
        |i: int| spec_pw_add(
            spec_mul_gate(b, i1, i2, q, m, n)[i],
            spec_scale(g[i], (x[i1] * x[i2]) as u64, q),
            q,
        ),
    );
    let x1 = x[i1] as int;
    let x2 = x[i2];
    assert(tau == spec_mul_gate_tau(b, i1, q, m, n));
    assert forall|t: int| 0 <= t < m implies #[trigger] pow2(t as nat) <= u64::MAX by {
        lemma2_to64();
        lemma2_to64_rest();
        if (t as nat) < 64 {
            lemma_pow2_strictly_increases(t as nat, 64);
        }
    };
    assert forall|r: int| 0 <= r < m implies (#[trigger] ct1[r]).len() == n && (#[trigger] ct2[r]).len() == n by {
        lemma_inner_entry(b, x, g, q, n, m, i1, r);
        lemma_inner_entry(b, x, g, q, n, m, i2, r);
    };
    assert forall|r: int| 0 <= r < cc.len() implies (#[trigger] cc[r]).len() == n by {
        if r < m {
            assert(cc[r] == ct1[r]);
        } else {
            assert(cc[r] == ct2[r - m]);
        }
    };
    assert forall|i: int| 0 <= i < m implies out[i] == rhs[i] by {
        lemma_dot_coeff(cc, column(h_mul, i), n, q, 2 * m, 0);
        lemma_dot_coeff(b[i2], column(tau, i), n, q, m, 0);
        assert(out[i].len() == n);
        assert(rhs[i].len() == n);
        assert forall|j: int| 0 <= j < n implies out[i][j] == rhs[i][j] by {
            lemma_dot_coeff(cc, column(h_mul, i), n, q, 2 * m, j);
            lemma_mul_col_sum(ct1, ct2, b[i1], x2, q, m, n, i, j, 2 * m);
            lemma_dot_coeff(b[i2], column(tau, i), n, q, m, j);
            let d_b2 = dot_sum(b[i2], column(tau, i), j, m);
            let mg = spec_mul_gate(b, i1, i2, q, m, n)[i][j];
            assert(mg as int == d_b2 % qi);
            lemma_amod_bound(d_b2, q);
            let b1 = b[i1][i][j] as int;
            let gj = g[i][j] as int;
            lemma_inner_coeff(b, x, g, q, n, m, i1, i, j);
            let a_top = ct1[i][j] as int;
            assert(a_top == (b1 + x1 * gj) % qi && a_top < qi);
            if x2 == 0 {
                lemma_mul_basics(a_top);
                lemma_mul_basics(gj);
                lemma_mul_basics(x1);
                assert(ct2 =~= b[i2]);
                let s = dot_sum(ct2, column(tau, i), j, m);
                assert(s == d_b2);
                assert(out[i][j] == amod(a_top * 0 + s, q));
                lemma_small_mod(mg as nat, q as nat);
                lemma_small_mod(0, q as nat);
                assert((gj * ((x[i1] * x[i2]) as u64)) == 0);
                assert(rhs[i][j] == amod(mg as int + amod(0, q), q));
                assert(out[i][j] == rhs[i][j]);
            } else {
                assert(x2 == 1);
                // ct2 is b[i2] shifted by the gadget row-wise.
                assert forall|h: int| 0 <= h < m implies #[trigger] ct2[h] == spec_pw_add(
                    b[i2][h],
                    g[h],
                    q,
                ) by {};
                assert forall|h: int| 0 <= h < m implies (#[trigger] b[i2][h]).len() == g[h].len() by {
                    assert(poly_ok(b[i2][h], n, q));
                };
                lemma_dot_sum_pw_add(b[i2], g, ct2, column(tau, i), j, q, m);
                let t_sum = dot_sum(ct2, column(tau, i), j, m);
                let d_g = dot_sum(g, column(tau, i), j, m);
                assert(t_sum % qi == (d_b2 + d_g) % qi);
                // The gadget part reconstructs the negated coefficient exactly.
                lemma_gadget_column_sum(neg1, m, n, i, j, m);
                lemma_gbit_sum_value(neg1[i][j], (m - 2) as nat, m);
                lemma_amod_bound(0 - b1, q);
                lemma_pow2_pos((m - 2) as nat);
                lemma_small_mod(neg1[i][j] as nat, pow2((m - 2) as nat));
                assert(neg1[i][j] as int == (0 - b1) % qi);
                assert(d_g == (0 - b1) % qi);
                // Reduce the left side.
                lemma_mul_basics(a_top);
                lemma_mul_basics(x1);
                assert(out[i][j] == amod(a_top * 1 + t_sum, q));
                lemma_small_mod(a_top as nat, q as nat);
                lemma_add_mod_noop(a_top, t_sum, qi);
                assert((a_top + t_sum) % qi == ((a_top % qi) + (t_sum % qi)) % qi);
                lemma_add_mod_noop(b1 + x1 * gj, d_b2 + d_g, qi);
                lemma_mod_twice(b1 + x1 * gj, qi);
                lemma_mod_twice(d_b2 + d_g, qi);
                assert((a_top + t_sum) % qi == ((b1 + x1 * gj) + (d_b2 + d_g)) % qi);
                vstd::arithmetic::div_mod::lemma_add_mod_noop_right(
                    b1 + x1 * gj + d_b2,
                    0 - b1,
                    qi,
                );
                assert((b1 + x1 * gj + d_b2 + d_g) % qi == (b1 + x1 * gj + d_b2 + (0 - b1)) % qi);
                assert((a_top + t_sum) % qi == (x1 * gj + d_b2) % qi);
                // Reduce the right side.
                assert((x[i1] * x[i2]) as int == x1);
                let sc = amod(gj * x1, q);
                assert(rhs[i][j] == amod(mg as int + sc as int, q));
                lemma_amod_bound(gj * x1, q);
                lemma_add_mod_noop(d_b2, gj * x1, qi);
                assert((mg as int + sc as int) % qi == (d_b2 + gj * x1) % qi);
                assert(out[i][j] == rhs[i][j]);
            }
        };
        assert(out[i] =~= rhs[i]);
    };
    assert(out =~= rhs);
}

} // verus!
