//! The polynomial ring Z_q[X]/(X^n + 1) for a prime modulus q.
//!
//! A ring element is a `Vec<u64>` of exactly `n` coefficients, each reduced
//! modulo `q`.  Addition and subtraction are implemented and verified here;
//! the negacyclic product is obtained from an NTT backend through a trusted
//! wrapper whose contract states the exact convolution.

use vstd::prelude::*;
use rayon::iter::{IntoParallelRefIterator, ParallelIterator};
use vstd::arithmetic::div_mod::{
    lemma_small_mod, lemma_mod_sub_multiples_vanish, lemma_mod_add_multiples_vanish,
    lemma_mod_bound,
};
use vstd::arithmetic::power2::pow2;

verus! {

/// A well-formed ring element: `n` coefficients, each below `q`.
pub open spec fn poly_ok(p: Seq<u64>, n: nat, q: u64) -> bool {
    p.len() == n && (forall|j: int| 0 <= j < p.len() ==> p[j] < q)
}

/// Primality, stated arithmetically: at least 2 and without a proper divisor.
pub open spec fn is_prime_spec(p: int) -> bool {
    p >= 2 && (forall|d: int| 2 <= d < p ==> #[trigger] (p % d) != 0)
}

/// The canonical representative of `x` modulo `q` (for `q > 0` it lies in `[0, q)`).
pub open spec fn amod(x: int, q: u64) -> u64 {
    (x % (q as int)) as u64
}

/// Coefficient-wise modular addition.
pub open spec fn spec_pw_add(a: Seq<u64>, b: Seq<u64>, q: u64) -> Seq<u64> {
    Seq::new(a.len(), |j: int| amod(a[j] + b[j], q))
}

/// Coefficient-wise modular subtraction.
pub open spec fn spec_pw_sub(a: Seq<u64>, b: Seq<u64>, q: u64) -> Seq<u64> {
    Seq::new(a.len(), |j: int| amod(a[j] - b[j], q))
}

/// Coefficient-wise modular multiply-accumulate: `acc + u * v`, pointwise.
pub open spec fn spec_pw_madd(acc: Seq<u64>, u: Seq<u64>, v: Seq<u64>, q: u64) -> Seq<u64> {
    Seq::new(acc.len(), |t: int| amod(acc[t] + (u[t] as int) * (v[t] as int), q))
}

/// The all-zero polynomial of length `n`.
pub open spec fn spec_zero(n: nat) -> Seq<u64> {
    Seq::new(n, |j: int| 0u64)
}

/// Coefficient `j` of `b` under the negacyclic extension: inside `[0, n)` the
/// coefficient itself, inside `[-n, 0)` the negation of the wrapped-around
/// coefficient, and `0` elsewhere.
pub open spec fn neg_ext(b: Seq<u64>, j: int) -> int {
    if 0 <= j < b.len() {
        b[j] as int
    } else if -(b.len() as int) <= j < 0 {
        -(b[j + b.len()] as int)
    } else {
        0
    }
}

/// Partial negacyclic convolution: the sum over `i < upto` of
/// `a[i] * neg_ext(b, k - i)`.
pub open spec fn conv(a: Seq<u64>, b: Seq<u64>, k: int, upto: nat) -> int
    decreases upto,
{
    if upto == 0 {
        0
    } else {
        conv(a, b, k, (upto - 1) as nat) + (a[upto - 1] as int) * neg_ext(b, k - (upto - 1))
    }
}

/// The negacyclic product of `a` and `b` modulo `q`: coefficient `k` is the
/// full convolution coefficient `k` minus coefficient `k + n`, reduced mod `q`.
pub open spec fn spec_negamul(a: Seq<u64>, b: Seq<u64>, q: u64) -> Seq<u64> {
    Seq::new(a.len(), |k: int| amod(conv(a, b, k, a.len()), q))
}

/// The coefficient sequences of a vector of ring elements.
pub open spec fn view2(v: Vec<Vec<u64>>) -> Seq<Seq<u64>> {
    Seq::new(v@.len(), |i: int| v@[i]@)
}

/// The coefficient sequences of a matrix of ring elements.
pub open spec fn view3(v: Vec<Vec<Vec<u64>>>) -> Seq<Seq<Seq<u64>>> {
    Seq::new(v@.len(), |i: int| view2(v@[i]))
}

/// A constant polynomial: every coefficient but the first is zero.
pub open spec fn is_const(p: Seq<u64>) -> bool {
    forall|j: int| 1 <= j < p.len() ==> p[j] == 0
}

/// Convolving against a constant polynomial `b` with value `v` picks out the
/// single term `a[k] * v` once the sum has passed index `k`.
pub proof fn lemma_conv_const_right(a: Seq<u64>, b: Seq<u64>, k: int, upto: nat)
    requires
        a.len() == b.len(),
        is_const(b),
        0 <= k < a.len(),
        upto <= a.len(),
    ensures
        conv(a, b, k, upto) == if k < upto { (a[k] as int) * (b[0] as int) } else { 0 },
    decreases upto,
{
    if upto > 0 {
        lemma_conv_const_right(a, b, k, (upto - 1) as nat);
        let i = upto - 1;
        let j = k - i;
        if j == 0 {
            assert(neg_ext(b, j) == b[0] as int);
        } else if j > 0 {
            assert(neg_ext(b, j) == 0);
        } else {
            assert(1 <= j + b.len() < b.len());
            assert(neg_ext(b, j) == 0);
        }
    }
}

/// Convolving a constant polynomial `a` with value `v` against `b` yields the
/// single term `v * b[k]`.
pub proof fn lemma_conv_const_left(a: Seq<u64>, b: Seq<u64>, k: int, upto: nat)
    requires
        a.len() == b.len(),
        is_const(a),
        0 <= k < a.len(),
        upto <= a.len(),
    ensures
        conv(a, b, k, upto) == if upto > 0 { (a[0] as int) * (b[k] as int) } else { 0 },
    decreases upto,
{
    if upto > 0 {
        lemma_conv_const_left(a, b, k, (upto - 1) as nat);
        let i = upto - 1;
        if i == 0 {
            assert(neg_ext(b, k) == b[k] as int);
        } else {
            assert(a[i] == 0);
        }
    }
}

/// Reduction modulo a positive `q` lands in `[0, q)`.
pub proof fn lemma_amod_bound(x: int, q: u64)
    requires
        q > 0,
    ensures
        amod(x, q) < q,
        amod(x, q) as int == x % (q as int),
{
    lemma_mod_bound(x, q as int);
}

#[verifier::external_type_specification]
#[verifier::external_body]
pub struct ExPlan(concrete_ntt::prime64::Plan);

#[verifier::external_type_specification]
#[verifier::external_body]
pub struct ExThreadRng(rand::rngs::ThreadRng);

/// A handle for the ring Z_q[X]/(X^n + 1).
///
/// The fields are private: every value is built by `ring_new`, which stores in
/// `q` and `n` exactly the modulus and the polynomial size the NTT plan was
/// built for.
pub struct Ring {
    q: u64,
    n: usize,
    plan: concrete_ntt::prime64::Plan,
}

impl Ring {
    /// The modulus of the ring.
    pub closed spec fn spec_q(&self) -> u64 {
        self.q
    }

    /// The number of coefficients of a ring element.
    pub closed spec fn spec_n(&self) -> nat {
        self.n as nat
    }

    /// The bounds every ring handle of this library satisfies.
    pub open spec fn wf(&self) -> bool {
        &&& 3 <= self.spec_q()
        &&& self.spec_q() % 2 == 1
        &&& self.spec_q() < 0x4000000000000000u64
        &&& 16 <= self.spec_n()
    }

    pub fn modulus(&self) -> (r: u64)
        ensures
            r == self.spec_q(),
    {
        self.q
    }

    pub fn ring_size(&self) -> (r: usize)
        ensures
            r == self.spec_n(),
    {
        self.n
    }
}

/// Relies on `concrete_ntt::prime64::Plan::try_new`: it returns a negacyclic
/// NTT plan for the given polynomial size and modulus, or `None` when the size
/// is below 16 or not a power of two, the modulus is not prime, or no suitable
/// root of unity exists.  For a prime modulus with `q = 1 (mod 2n)` and `n` a
/// power of two at least 16, a primitive `2n`-th root of unity exists and the
/// crate's root search finds one, so the plan is built.  The modulus must be
/// at least 2: the crate's division precomputation refuses smaller divisors.
#[verifier::external_body]
pub(crate) fn ring_new(n: usize, q: u64) -> (r: Option<Ring>)
    requires
        q >= 2,
    ensures
        r is Some ==> r->Some_0.spec_q() == q && r->Some_0.spec_n() == n as nat,
        r is None ==> !(16 <= n && (exists|e: nat| n as nat == pow2(e)) && is_prime_spec(q as int)
            && (q as int) % (2 * (n as int)) == 1),
{
    concrete_ntt::prime64::Plan::try_new(n, q).map(|plan| Ring { q, n, plan })
}

/// Relies on `concrete_ntt::prime::largest_prime_in_arithmetic_progression64`:
/// it scans the points of the progression `factor * x + 1` inside `[lo, hi]`
/// downward and returns the first prime, so it returns `Some` exactly when a
/// prime of that form lies in the range, and then the largest one.  The range
/// must hold at least one point of the progression: on an empty scan the
/// function's index arithmetic underflows.
#[verifier::external_body]
pub(crate) fn find_ntt_prime(factor: u64, lo: u64, hi: u64) -> (r: Option<u64>)
    requires
        factor >= 2,
        exists|x: int| lo <= #[trigger] ((factor as int) * x) + 1 <= hi,
    ensures
        r is None ==> !(exists|p: int|
            lo <= p <= hi && #[trigger] (p % (factor as int)) == 1 && is_prime_spec(p)),
        r matches Some(p) ==> lo <= p <= hi && p % factor == 1 && is_prime_spec(p as int)
            && (factor % 2 == 0 ==> p % 2 == 1) && (forall|p2: int|
            lo <= p2 <= hi && #[trigger] (p2 % (factor as int)) == 1 && is_prime_spec(p2)
                ==> p2 <= p),
{
    concrete_ntt::prime::largest_prime_in_arithmetic_progression64(factor, 1, lo, hi)
}

/// The forward negacyclic number-theoretic transform of a reduced coefficient
/// vector, a pure function of the coefficients and the modulus.
pub uninterp spec fn spec_ntt(a: Seq<u64>, q: u64) -> Seq<u64>;

/// A forward transform `f` of the polynomial `p`, together with the law the
/// transform domain obeys: a pointwise multiply-accumulate against `f` moves a
/// transform of `x` to the transform of `x + c * p`, because pointwise sums
/// and products of forward transforms are the transforms of ring sums and
/// negacyclic products.
pub open spec fn ntt_pair_ok(f: Seq<u64>, p: Seq<u64>, n: nat, q: u64) -> bool {
    &&& f == spec_ntt(p, q)
    &&& poly_ok(f, n, q)
    &&& forall|x: Seq<u64>, c: Seq<u64>|
        poly_ok(x, n, q) && poly_ok(c, n, q) ==> #[trigger] spec_pw_madd(
            spec_ntt(x, q),
            spec_ntt(c, q),
            f,
            q,
        ) == spec_ntt(spec_pw_add(x, spec_negamul(c, p, q), q), q)
}

/// Relies on `concrete_ntt::prime64::Plan::fwd`: the forward negacyclic NTT of
/// the buffer, in place; it depends on the coefficients and the plan's prime
/// alone, and its result is written `spec_ntt` and obeys the transform-domain
/// law of `ntt_pair_ok`.
#[verifier::external_body]
pub(crate) fn ntt_fwd(ring: &Ring, a: &Vec<u64>) -> (r: Vec<u64>)
    requires
        poly_ok(a@, ring.spec_n(), ring.spec_q()),
    ensures
        r@ == spec_ntt(a@, ring.spec_q()),
        ntt_pair_ok(r@, a@, ring.spec_n(), ring.spec_q()),
{
    let mut buf = a.clone();
    ring.plan.fwd(&mut buf);
    buf
}

/// Relies on `concrete_ntt::prime64::Plan::fwd`, applied to every entry; the
/// entries are independent pure computations, so they run in parallel through
/// `rayon::iter::ParallelIterator::map`, each closure making the same single
/// transform call.  Every returned transform obeys `ntt_pair_ok` exactly as a
/// transform from `ntt_fwd` does.
#[verifier::external_body]
pub(crate) fn ntt_fwd_batch(ring: &Ring, polys: &Vec<Vec<u64>>) -> (r: Vec<Vec<u64>>)
    requires
        forall|t: int|
            0 <= t < polys@.len() ==> poly_ok(#[trigger] polys@[t]@, ring.spec_n(), ring.spec_q()),
    ensures
        r@.len() == polys@.len(),
        forall|t: int|
            0 <= t < polys@.len() ==> #[trigger] ntt_pair_ok(
                r@[t]@,
                polys@[t]@,
                ring.spec_n(),
                ring.spec_q(),
            ),
{
    polys
        .par_iter()
        .map(|p| {
            let mut buf = p.clone();
            ring.plan.fwd(&mut buf);
            buf
        })
        .collect()
}

/// Relies on `concrete_ntt::prime64::Plan::inv` followed by `Plan::normalize`:
/// together they invert the forward transform (the crate's reference tests
/// come back from the transform domain this way), so a buffer holding the
/// transform of `y` comes back as `y`.
#[verifier::external_body]
pub(crate) fn ntt_inv_normalize(ring: &Ring, buf: &mut Vec<u64>)
    requires
        poly_ok(old(buf)@, ring.spec_n(), ring.spec_q()),
    ensures
        forall|y: Seq<u64>|
            poly_ok(y, ring.spec_n(), ring.spec_q()) && old(buf)@ == #[trigger] spec_ntt(
                y,
                ring.spec_q(),
            ) ==> final(buf)@ == y,
{
    ring.plan.inv(buf);
    ring.plan.normalize(buf);
}

/// Adding the zero polynomial on the right leaves a reduced polynomial as it
/// is.
pub proof fn lemma_pw_add_zero_right(y: Seq<u64>, n: nat, q: u64)
    requires
        0 < q,
        poly_ok(y, n, q),
    ensures
        spec_pw_add(y, spec_zero(n), q) == y,
{
    assert forall|j: int| 0 <= j < n implies spec_pw_add(y, spec_zero(n), q)[j] == y[j] by {
        lemma_small_mod(y[j] as nat, q as nat);
    };
    assert(spec_pw_add(y, spec_zero(n), q) =~= y);
}

/// Adding the zero polynomial on the left reduces to the right operand.
pub proof fn lemma_pw_add_zero_left(y: Seq<u64>, n: nat, q: u64)
    requires
        0 < q,
        poly_ok(y, n, q),
    ensures
        spec_pw_add(spec_zero(n), y, q) == y,
{
    assert forall|j: int| 0 <= j < n implies spec_pw_add(spec_zero(n), y, q)[j] == y[j] by {
        lemma_small_mod(y[j] as nat, q as nat);
    };
    assert(spec_pw_add(spec_zero(n), y, q) =~= y);
}

/// The negacyclic product of reduced polynomials is reduced.
pub proof fn lemma_negamul_poly_ok(a: Seq<u64>, b: Seq<u64>, n: nat, q: u64)
    requires
        0 < q,
        a.len() == n,
    ensures
        poly_ok(spec_negamul(a, b, q), n, q),
{
    assert forall|k: int| 0 <= k < n implies spec_negamul(a, b, q)[k] < q by {
        lemma_amod_bound(conv(a, b, k, n), q);
    };
}

/// Relies on `rand::thread_rng`: a handle to the thread-local random number
/// generator.
#[verifier::external_body]
pub(crate) fn fresh_rng() -> rand::rngs::ThreadRng {
    rand::thread_rng()
}

/// Relies on `rand::Rng::gen_range`: a value drawn uniformly from `[0, bound)`;
/// the range is non-empty, so the call does not panic.
#[verifier::external_body]
pub(crate) fn rand_below(rng: &mut rand::rngs::ThreadRng, bound: u64) -> (r: u64)
    requires
        bound >= 1,
    ensures
        r < bound,
{
    rand::Rng::gen_range(rng, 0..bound)
}

/// Modular addition of two reduced scalars.
pub fn mod_add_u64(q: u64, a: u64, b: u64) -> (r: u64)
    requires
        0 < q < 0x4000000000000000u64,
        a < q,
        b < q,
    ensures
        r == amod(a + b, q),
        r < q,
{
    let s = a + b;
    if s >= q {
        proof {
            lemma_mod_sub_multiples_vanish((a + b) as int, q as int);
            lemma_small_mod((s - q) as nat, q as nat);
        }
        s - q
    } else {
        proof {
            lemma_small_mod(s as nat, q as nat);
        }
        s
    }
}

/// Modular subtraction of two reduced scalars.
pub fn mod_sub_u64(q: u64, a: u64, b: u64) -> (r: u64)
    requires
        0 < q < 0x4000000000000000u64,
        a < q,
        b < q,
    ensures
        r == amod(a - b, q),
        r < q,
{
    if a >= b {
        proof {
            lemma_small_mod((a - b) as nat, q as nat);
        }
        a - b
    } else {
        proof {
            lemma_mod_add_multiples_vanish((a - b) as int, q as int);
            lemma_small_mod((a + q - b) as nat, q as nat);
        }
        a + q - b
    }
}

/// The all-zero polynomial of length `n`.
pub fn poly_zero(n: usize) -> (r: Vec<u64>)
    ensures
        r@ == spec_zero(n as nat),
{
    let mut r: Vec<u64> = Vec::new();
    let mut j: usize = 0;
    while j < n
        invariant
            j <= n,
            r@.len() == j,
            forall|t: int| 0 <= t < j ==> r@[t] == 0u64,
        decreases n - j,
    {
        r.push(0);
        j += 1;
    }
    proof {
        assert(r@ =~= spec_zero(n as nat));
    }
    r
}

} // verus!
