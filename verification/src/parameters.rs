//! Parameters of the attribute encoding: the ring, the gadget width `m`, the
//! attribute count `ell`, and the gadget vector `g`.

use vstd::prelude::*;
use vstd::arithmetic::power2::*;
use crate::ring::{Ring, ring_new, find_ntt_prime, poly_zero, poly_ok, view2, is_prime_spec};
use crate::EncodingError;

verus! {

/// The number of binary digits of `x`.
pub open spec fn bit_length(x: u64) -> nat
    decreases x,
{
    if x == 0 {
        0nat
    } else {
        1nat + bit_length(x / 2)
    }
}

pub proof fn lemma_bit_length_bounds(x: u64)
    ensures
        (x as nat) < pow2(bit_length(x)),
        x >= 1 ==> pow2((bit_length(x) - 1) as nat) <= x as nat,
    decreases x,
{
    lemma2_to64();
    if x != 0 {
        lemma_bit_length_bounds(x / 2);
        lemma_pow2_unfold(bit_length(x));
        vstd::arithmetic::div_mod::lemma_fundamental_div_mod(x as int, 2);
        if x / 2 >= 1 {
            lemma_pow2_unfold((bit_length(x) - 1) as nat);
        }
    }
}

pub proof fn lemma_bit_length_le(x: u64, k: nat)
    requires
        (x as nat) < pow2(k),
    ensures
        bit_length(x) <= k,
    decreases x,
{
    if x > 0 {
        if k == 0 {
            assert(pow2(0) == 1) by {
                lemma2_to64();
            };
        } else {
            lemma_pow2_unfold(k);
            lemma_bit_length_le(x / 2, (k - 1) as nat);
        }
    }
}

/// The gadget vector: `m` constant polynomials, the first `m - 2` holding the
/// powers of two and the last two holding zero.
pub open spec fn spec_gadget(m: nat, n: nat) -> Seq<Seq<u64>> {
    Seq::new(m, |i: int| Seq::new(n, |j: int| if j == 0 && i < m - 2 { pow2(i as nat) as u64 } else { 0u64 }))
}

/// Parameters for the attribute encoding over `Z_q[X]/(X^n + 1)`.
///
/// `ell` is the number of attributes, `m = k + 2` where `k` is the bit-length
/// of the chosen prime modulus, and `g` is the gadget vector.
pub struct Parameters {
    pub ell: usize,
    pub m: usize,
    pub ring: Ring,
    pub g: Vec<Vec<u64>>,
}

impl Parameters {
    pub open spec fn wf(&self) -> bool {
        &&& self.ell < usize::MAX
        &&& self.ring.wf()
        &&& is_prime_spec(self.ring.spec_q() as int)
        &&& (self.ring.spec_q() as int) % (2 * (self.ring.spec_n() as int)) == 1
        &&& self.m == bit_length(self.ring.spec_q()) + 2
        &&& 3 <= self.m <= 64
        &&& (self.ring.spec_q() as nat) < pow2((self.m - 2) as nat)
        &&& view2(self.g) == spec_gadget(self.m as nat, self.ring.spec_n())
        &&& forall|i: int| 0 <= i < self.g@.len() ==> poly_ok(#[trigger] self.g@[i]@, self.ring.spec_n(), self.ring.spec_q())
    }

    pub fn ell(&self) -> (r: usize)
        ensures
            r == self.ell,
    {
        self.ell
    }

    pub fn m(&self) -> (r: usize)
        ensures
            r == self.m,
    {
        self.m
    }

    pub fn g(&self) -> (r: &Vec<Vec<u64>>)
        ensures
            r == &self.g,
    {
        &self.g
    }

    pub fn ring(&self) -> (r: &Ring)
        ensures
            r == &self.ring,
    {
        &self.ring
    }

    /// Initialize the parameters: pick a prime modulus of bit-length `k` with
    /// `q = 1 (mod 2^(log_ring_size + 1))`, build the ring and the gadget
    /// vector.  Fails with a configuration error when no compatible prime
    /// exists in the search space or the requested sizes are out of range.
    #[verifier::rlimit(100)]
    pub fn new(log_ring_size: usize, k: usize, ell: usize) -> (r: Result<Parameters, EncodingError>)
        ensures
            (log_ring_size < 4 || log_ring_size > 30 || k < log_ring_size + 2 || k > 62 || ell
                == usize::MAX) ==> r is Err,
            r matches Ok(p) ==> p.wf() && p.ell == ell && p.m == k + 2
                && p.ring.spec_n() == pow2(log_ring_size as nat),
            r is Err ==> !(4 <= log_ring_size <= 30 && log_ring_size + 2 <= k <= 62 && ell
                < usize::MAX && (exists|p: int|
                pow2((k - 1) as nat) <= p < pow2(k as nat) && #[trigger] (p % (pow2(
                    (log_ring_size + 1) as nat,
                ) as int)) == 1 && is_prime_spec(p))),
            r matches Err(e) ==> e == EncodingError::NoCompatibleModulus,
    {
        if log_ring_size < 4 || log_ring_size > 30 || k < 2 || k > 62 || ell == usize::MAX
            || k < log_ring_size + 2 {
            return Err(EncodingError::NoCompatibleModulus);
        }
        proof {
            lemma2_to64();
            lemma2_to64_rest();
            lemma_pow2_strictly_increases(log_ring_size as nat, 31);
            lemma_pow2_strictly_increases((k - 1) as nat, 63);
            lemma_pow2_strictly_increases(k as nat, 63);
            lemma_pow2_pos(log_ring_size as nat);
            lemma_pow2_pos((k - 1) as nat);
        }
        let n64: u64 = 1u64 << log_ring_size;
        assert(n64 == pow2(log_ring_size as nat)) by {
            vstd::bits::lemma_u64_shl_is_mul(1u64, log_ring_size as u64);
        };
        let n: usize = n64 as usize;
        let two_n: u64 = 2 * n64;
        let lo: u64 = 1u64 << (k - 1);
        assert(lo == pow2((k - 1) as nat)) by {
            vstd::bits::lemma_u64_shl_is_mul(1u64, (k - 1) as u64);
        };
        let hi_plus: u64 = 1u64 << k;
        assert(hi_plus == pow2(k as nat)) by {
            vstd::bits::lemma_u64_shl_is_mul(1u64, k as u64);
        };
        proof {
            lemma_pow2_pos(k as nat);
        }
        let hi: u64 = hi_plus - 1;
        proof {
            // The step of the progression divides the width of the search
            // range, so the range holds a progression point: 2^(k-1) + 1.
            lemma_pow2_adds((log_ring_size + 1) as nat, (k - log_ring_size - 2) as nat);
            lemma_pow2_unfold((log_ring_size + 1) as nat);
            lemma_pow2_pos((k - log_ring_size - 2) as nat);
            lemma_pow2_unfold((k - 1) as nat);
            lemma_pow2_pos((k - 2) as nat);
            assert(two_n as int == pow2((log_ring_size + 1) as nat));
            let w = pow2((k - log_ring_size - 2) as nat) as int;
            assert((two_n as int) * w == pow2((k - 1) as nat));
            assert(lo <= (two_n as int) * w + 1 <= hi);
        }
        let q_found = find_ntt_prime(two_n, lo, hi);
        let q: u64 = match q_found {
            None => {
                proof {
                    // No prime of the searched shape exists: the failure
                    // clause of the contract holds with this very range.
                    if exists|pr: int|
                        pow2((k - 1) as nat) <= pr < pow2(k as nat) && #[trigger] (pr % (pow2(
                            (log_ring_size + 1) as nat,
                        ) as int)) == 1 && is_prime_spec(pr) {
                        let pr = choose|pr: int|
                            pow2((k - 1) as nat) <= pr < pow2(k as nat) && #[trigger] (pr % (pow2(
                                (log_ring_size + 1) as nat,
                            ) as int)) == 1 && is_prime_spec(pr);
                        assert(lo <= pr <= hi && pr % (two_n as int) == 1 && is_prime_spec(pr));
                        assert(false);
                    }
                }
                return Err(EncodingError::NoCompatibleModulus);
            },
            Some(q) => q,
        };
        // The prime is odd and at least `lo`, so its bit-length is exactly `k`.
        proof {
            lemma_pow2_unfold((k - 1) as nat);
            assert(q % 2 == 1);
            assert(q > lo);
            lemma_bit_length_le(q, k as nat);
            lemma_bit_length_bounds(q);
            if bit_length(q) < (k - 1) as nat {
                lemma_pow2_strictly_increases(bit_length(q), (k - 1) as nat);
            }
            assert(bit_length(q) == k);
        }
        let kk = bit_length_u64(q);
        let m = kk + 2;
        proof {
            // The plan is owed: n is a power of two of at least 16 and q is a
            // prime with q = 1 (mod 2n).
            assert(n as nat == pow2(log_ring_size as nat));
            assert((q as int) % (2 * (n as int)) == 1);
        }
        let ring = match ring_new(n, q) {
            None => {
                proof {
                    assert(exists|e: nat| n as nat == pow2(e)) by {
                        assert(n as nat == pow2(log_ring_size as nat));
                    };
                    assert(false);
                }
                return Err(EncodingError::NoCompatibleModulus);
            },
            Some(ring) => ring,
        };
        proof {
            assert(ring.wf());
            assert forall|i: nat| i < m - 2 implies pow2(i) < ring.spec_q() by {
                if i < (k - 1) as nat {
                    lemma_pow2_strictly_increases(i, (k - 1) as nat);
                }
            };
        }
        let g = init_gadget_vector(&ring, m);
        Ok(Parameters { ell, m, ring, g })
    }
}

/// The number of binary digits of `x`, computed by repeated halving.
pub fn bit_length_u64(x: u64) -> (r: usize)
    ensures
        r == bit_length(x),
{
    proof {
        lemma2_to64();
        lemma2_to64_rest();
        lemma_bit_length_le(x, 64);
    }
    let mut v: u64 = x;
    let mut r: usize = 0;
    while v > 0
        invariant
            r + bit_length(v) == bit_length(x),
            bit_length(x) <= 64,
        decreases v,
    {
        v = v / 2;
        r += 1;
    }
    r
}

/// Initialize the gadget vector `g` for the attribute encoding:
/// `g = [2^0, 2^1, ..., 2^(m-3), 0, 0]`, each element a constant polynomial.
pub fn init_gadget_vector(ring: &Ring, m: usize) -> (g: Vec<Vec<u64>>)
    requires
        ring.wf(),
        3 <= m <= 64,
        forall|i: nat| i < m - 2 ==> pow2(i) < ring.spec_q(),
    ensures
        view2(g) == spec_gadget(m as nat, ring.spec_n()),
        forall|i: int| 0 <= i < g@.len() ==> poly_ok(#[trigger] g@[i]@, ring.spec_n(), ring.spec_q()),
{
    let n = ring.ring_size();
    let ghost gspec = spec_gadget(m as nat, ring.spec_n());
    let mut g: Vec<Vec<u64>> = Vec::new();
    let mut i: usize = 0;
    while i < m
        invariant
            i <= m,
            3 <= m <= 64,
            ring.wf(),
            n == ring.spec_n(),
            gspec == spec_gadget(m as nat, ring.spec_n()),
            forall|i0: nat| i0 < m - 2 ==> pow2(i0) < ring.spec_q(),
            g@.len() == i,
            forall|t: int| 0 <= t < i ==> #[trigger] g@[t]@ == gspec[t],
            forall|t: int| 0 <= t < i ==> poly_ok(#[trigger] g@[t]@, ring.spec_n(), ring.spec_q()),
        decreases m - i,
    {
        let mut gi = poly_zero(n);
        if i < m - 2 {
            proof {
                assert(pow2(i as nat) < ring.spec_q());
                vstd::bits::lemma_u64_shl_is_mul(1u64, i as u64);
            }
            gi.set(0, 1u64 << i);
        }
        proof {
            assert(gi@ =~= gspec[i as int]);
        }
        g.push(gi);
        i += 1;
    }
    proof {
        assert(view2(g) =~= gspec);
    }
    g
}

} // verus!
