//! Full-period randomized enumerator of the IPv4 address space.
//!
//! An additive recurrence `current := (current + step) mod 2^32` visits
//! every residue exactly once before returning to its starting point,
//! provided `step` is coprime to the modulus. The enumerator draws a
//! random starting point and a random coprime step, emits each of the
//! 2^32 addresses exactly once, and then deactivates for good.
use vstd::prelude::*;
use vstd::arithmetic::div_mod::{
    lemma_add_mod_noop, lemma_fundamental_div_mod, lemma_mod_breakdown, lemma_mod_equivalence,
    lemma_mod_mod, lemma_mod_multiples_vanish, lemma_mod_self_0, lemma_mul_mod_noop_general,
    lemma_mul_mod_noop_left, lemma_mul_mod_noop_right, lemma_small_mod, lemma_sub_mod_noop,
};
use vstd::arithmetic::power2::{lemma2_to64, lemma_pow2_pos, lemma_pow2_unfold, pow2};
use vstd::relations::injective_on;
use vstd::set_lib::{lemma_int_range, lemma_map_size, lemma_subset_equality, set_int_range};
use crate::{address_space, ADDRESS_SPACE};

verus! {

/// Greatest common divisor, by Euclid's recurrence.
pub open spec fn spec_gcd(a: nat, b: nat) -> nat
    decreases b,
{
    if b == 0 {
        a
    } else {
        spec_gcd(b, a % b)
    }
}

/// The `k`-th value of the additive recurrence that starts at `first`
/// and advances by `step` modulo the size of the address space.
pub open spec fn residue(first: u64, step: u64, k: nat) -> u64 {
    (((first as nat) + k * (step as nat)) % address_space()) as u64
}

pub struct IpIterator {
    active: bool,
    step: u64,
    first: u64,
    current: u64,
    emitted: Ghost<nat>,
}

impl IpIterator {
    /// Whether the enumerator will still emit addresses.
    pub closed spec fn is_active(self) -> bool {
        self.active
    }

    /// The additive step of the recurrence.
    pub closed spec fn spec_step(self) -> u64 {
        self.step
    }

    /// The randomly chosen starting residue.
    pub closed spec fn spec_first(self) -> u64 {
        self.first
    }

    /// The residue most recently computed.
    pub closed spec fn spec_current(self) -> u64 {
        self.current
    }

    /// How many addresses have been emitted so far.
    pub closed spec fn emitted(self) -> nat {
        self.emitted@
    }

    /// The state lies on the recurrence: `current` is the `emitted`-th
    /// residue, and the enumerator is active exactly as long as the
    /// recurrence has not yet returned to `first`.
    pub open spec fn wf(self) -> bool {
        &&& self.spec_first() < ADDRESS_SPACE
        &&& self.spec_step() < ADDRESS_SPACE
        &&& self.spec_current() == residue(self.spec_first(), self.spec_step(), self.emitted())
        &&& self.is_active() ==> forall|j: nat|
            1 <= j <= self.emitted() ==> residue(self.spec_first(), self.spec_step(), j)
                != self.spec_first()
        &&& !self.is_active() ==> {
            &&& self.emitted() > 0
            &&& residue(self.spec_first(), self.spec_step(), self.emitted()) == self.spec_first()
            &&& forall|j: nat|
                1 <= j < self.emitted() ==> residue(self.spec_first(), self.spec_step(), j)
                    != self.spec_first()
        }
    }

    /// Starts a scan at a uniformly random residue, with a random step
    /// drawn from the middle half of the range and coprime to the
    /// modulus, so the recurrence has full period.
    pub fn new() -> (r: Self)
        ensures
            r.wf(),
            r.is_active(),
            r.emitted() == 0,
            spec_gcd(address_space(), r.spec_step() as nat) == 1,
            ADDRESS_SPACE / 4 <= r.spec_step() <= ADDRESS_SPACE - ADDRESS_SPACE / 4,
    {
        let mut rng = fresh_rng();
        let first_pick = gen_range_u64(&mut rng, 0, ADDRESS_SPACE);
        let step = pick_random_coprime(ADDRESS_SPACE);
        let r = IpIterator {
            active: true,
            step,
            first: first_pick,
            current: first_pick,
            emitted: Ghost(0),
        };
        proof {
            lemma_small_mod(first_pick as nat, address_space());
            assert(0 * (step as nat) == 0);
            assert(residue(first_pick, step, 0) == first_pick);
        }
        r
    }

    /// Places the enumerator at a chosen starting point and step, for
    /// driving the recurrence directly; production scans use `new`,
    /// which draws both at random and rejects steps that share a
    /// factor with the modulus.
    pub fn from_parts(first: u64, step: u64) -> (r: Self)
        requires
            first < ADDRESS_SPACE,
            step < ADDRESS_SPACE,
        ensures
            r.wf(),
            r.is_active(),
            r.emitted() == 0,
            r.spec_first() == first,
            r.spec_step() == step,
    {
        let r = IpIterator { active: true, step, first, current: first, emitted: Ghost(0) };
        proof {
            lemma_small_mod(first as nat, address_space());
            assert(0 * (step as nat) == 0);
            assert(residue(first, step, 0) == first);
        }
        r
    }

    /// While active, advances the recurrence and emits the new residue
    /// as an address; the emission that lands back on `first` is the
    /// last one, and every later call returns nothing.
    pub fn next(&mut self) -> (r: Option<u32>)
        requires
            old(self).wf(),
        ensures
            final(self).wf(),
            final(self).spec_first() == old(self).spec_first(),
            final(self).spec_step() == old(self).spec_step(),
            !old(self).is_active() ==> r is None && *final(self) == *old(self),
            old(self).is_active() ==> {
                let v = residue(
                    old(self).spec_first(),
                    old(self).spec_step(),
                    old(self).emitted() + 1,
                );
                &&& r == Some(v as u32)
                &&& final(self).emitted() == old(self).emitted() + 1
                &&& (final(self).is_active() <==> v != old(self).spec_first())
            },
    {
        if !self.active {
            return None;
        }

        let current_pick = self.current;
        let next_pick = (current_pick + self.step) % ADDRESS_SPACE;
        proof {
            let m = address_space() as int;
            let f = old(self).spec_first() as int;
            let s = old(self).spec_step() as int;
            let e = old(self).emitted() as int;
            lemma_small_mod(s as nat, m as nat);
            lemma_add_mod_noop(f + e * s, s, m);
            assert(f + e * s + s == f + (e + 1) * s) by (nonlinear_arith);
        }
        self.current = next_pick;
        proof {
            self.emitted@ = self.emitted@ + 1;
        }

        if next_pick == self.first {
            self.active = false;
        }

        Some(next_pick as u32)
    }
}

/// Draws values from the middle half of `[0, end)` until one is coprime
/// to `end`, and returns it.
fn pick_random_coprime(end: u64) -> (r: u64)
    requires
        end == ADDRESS_SPACE,
    ensures
        end / 4 <= r <= end - end / 4,
        spec_gcd(end as nat, r as nat) == 1,
{
    let lower_range = end / 4;
    let upper_range = end - lower_range;

    let mut rng = fresh_rng();
    let mut attempts: usize = 0;
    while attempts < 64
        invariant
            end == ADDRESS_SPACE,
            lower_range == end / 4,
            upper_range == end - end / 4,
        decreases 64 - attempts,
    {
        let i = gen_range_u64(&mut rng, lower_range, upper_range + 1);
        if gcd_u64(end, i) == 1 {
            return i;
        }
        attempts = attempts + 1;
    }
    // Half the values in the sampled band are coprime to the
    // power-of-two modulus, so reaching this fallback is all but
    // impossible; it keeps the sampler total without weakening its
    // contract, since the value just above the band's lower edge is
    // itself coprime to the modulus.
    let r = lower_range + 1;
    proof {
        reveal_with_fuel(spec_gcd, 6);
        assert(spec_gcd(0x1_0000_0000, 0x4000_0001) == 1);
    }
    r
}

/// Declares rand's thread-local generator type so its handle can
/// appear in signatures; the value is opaque here.
#[verifier::external_type_specification]
#[verifier::external_body]
pub struct ExThreadRng(rand::rngs::ThreadRng);

/// Relies on rand::thread_rng: a handle to the thread-local random
/// number generator.
#[verifier::external_body]
fn fresh_rng() -> rand::rngs::ThreadRng {
    rand::thread_rng()
}

/// Relies on rand::Rng::gen_range on a half-open range of u64, which
/// panics on an empty range and otherwise samples a value inside it.
/// Nothing else is promised of the sample.
#[verifier::external_body]
fn gen_range_u64(rng: &mut rand::rngs::ThreadRng, lo: u64, hi: u64) -> (r: u64)
    requires
        lo < hi,
    ensures
        lo <= r < hi,
{
    rand::Rng::gen_range(rng, lo..hi)
}

/// Relies on gcd::Gcd::gcd for u64: the greatest common divisor of its
/// two arguments, computed by the binary GCD algorithm.
#[verifier::external_body]
fn gcd_u64(a: u64, b: u64) -> (r: u64)
    ensures
        r as nat == spec_gcd(a as nat, b as nat),
{
    gcd::Gcd::gcd(a, b)
}

/// Euclid's recurrence keeps a common factor of two: the gcd of two
/// even numbers is even.
proof fn lemma_even_gcd(a: nat, b: nat)
    requires
        a % 2 == 0,
        b % 2 == 0,
    ensures
        spec_gcd(a, b) % 2 == 0,
    decreases b,
{
    if b == 0 {
    } else {
        let q = a as int / b as int;
        lemma_fundamental_div_mod(a as int, b as int);
        assert((b as int * q) % 2 == 0) by {
            lemma_mul_mod_noop_general(b as int, q, 2);
        }
        assert((a % b) % 2 == 0) by {
            lemma_sub_mod_noop(a as int, b as int * q, 2);
        }
        lemma_even_gcd(b, a % b);
    }
}

/// A step accepted by the coprimality check against the even modulus
/// is odd.
proof fn lemma_coprime_step_is_odd(s: nat)
    requires
        spec_gcd(address_space(), s) == 1,
    ensures
        s % 2 == 1,
{
    if s % 2 == 0 {
        lemma_even_gcd(address_space(), s);
    }
}

/// The gcd divides both of its arguments (and is positive when they
/// are not both zero).
proof fn lemma_gcd_divides(a: nat, b: nat)
    requires
        a > 0 || b > 0,
    ensures
        spec_gcd(a, b) > 0,
        a % spec_gcd(a, b) == 0,
        b % spec_gcd(a, b) == 0,
    decreases b,
{
    if b == 0 {
        lemma_mod_self_0(a as int);
        lemma_small_mod(0, a);
    } else {
        let g = spec_gcd(b, a % b);
        lemma_gcd_divides(b, a % b);
        let q = a as int / b as int;
        let r = a as int % b as int;
        lemma_fundamental_div_mod(a as int, b as int);
        assert((b as int * q) % (g as int) == 0) by {
            lemma_mul_mod_noop_left(b as int, q, g as int);
        }
        assert(a % g == 0) by {
            lemma_add_mod_noop(b as int * q, r, g as int);
            lemma_small_mod(0, g);
        }
    }
}

/// An odd divisor of a power of two is one.
proof fn lemma_odd_divisor_of_pow2(g: nat, k: nat)
    requires
        g % 2 == 1,
        pow2(k) % g == 0,
    ensures
        g == 1,
    decreases k,
{
    lemma_pow2_pos(k);
    if k == 0 {
        assert(pow2(0) == 1) by {
            lemma2_to64();
        }
        if g > 1 {
            lemma_small_mod(1, g);
        }
    } else {
        let q = pow2(k) as int / g as int;
        lemma_fundamental_div_mod(pow2(k) as int, g as int);
        lemma_pow2_unfold(k);
        assert(pow2(k) % 2 == 0) by {
            lemma_mod_multiples_vanish(pow2((k - 1) as nat) as int, 0, 2);
            lemma_small_mod(0, 2);
        }
        assert(q % 2 == 0) by {
            lemma_mul_mod_noop_general(g as int, q, 2);
        }
        let q2 = q / 2;
        lemma_fundamental_div_mod(q, 2);
        assert(g as int * q2 == pow2((k - 1) as nat)) by (nonlinear_arith)
            requires
                g as int * q == 2 * pow2((k - 1) as nat),
                q == 2 * q2,
        ;
        assert(pow2((k - 1) as nat) % g == 0) by {
            lemma_mod_multiples_vanish(q2, 0, g as int);
            lemma_small_mod(0, g);
        }
        lemma_odd_divisor_of_pow2(g, (k - 1) as nat);
    }
}

/// The converse of the parity test: an odd step is coprime to the
/// power-of-two modulus.
proof fn lemma_odd_step_coprime(s: nat)
    requires
        s % 2 == 1,
    ensures
        spec_gcd(address_space(), s) == 1,
{
    let g = spec_gcd(address_space(), s);
    lemma_gcd_divides(address_space(), s);
    if g % 2 == 0 {
        let q = s as int / g as int;
        lemma_fundamental_div_mod(s as int, g as int);
        assert(s % 2 == 0) by {
            lemma_mul_mod_noop_general(g as int, q, 2);
        }
    }
    assert(address_space() == pow2(32)) by {
        lemma2_to64();
    }
    lemma_odd_divisor_of_pow2(g, 32);
}

/// A positive multiple of an odd number smaller than `2^k` is never a
/// multiple of `2^k`: the odd factor contributes no powers of two.
proof fn lemma_odd_multiple_mod_pow2(d: nat, s: nat, k: nat)
    requires
        s % 2 == 1,
        0 < d < pow2(k),
    ensures
        (d * s) % pow2(k) != 0,
    decreases k,
{
    lemma_pow2_pos(k);
    if k == 0 {
        assert(pow2(0) == 1) by {
            lemma2_to64();
        }
    } else {
        if (d * s) % pow2(k) == 0 {
            let p = pow2((k - 1) as nat);
            lemma_pow2_pos((k - 1) as nat);
            lemma_pow2_unfold(k);
            let x = (d * s) as int;
            lemma_mod_breakdown(x, 2, p as int);
            assert(2 * ((x / 2) % p as int) + x % 2 == 0);
            assert((x / 2) % p as int >= 0 && x % 2 >= 0) by (nonlinear_arith)
                requires
                    p > 0,
                    x >= 0,
            ;
            assert(x % 2 == 0);
            assert((x / 2) % p as int == 0);
            assert(d % 2 == 0) by {
                lemma_mul_mod_noop_general(d as int, s as int, 2);
            }
            let d2 = d / 2;
            lemma_fundamental_div_mod(d as int, 2);
            assert(d == 2 * d2);
            assert(x / 2 == d2 * s) by (nonlinear_arith)
                requires
                    x == d * s,
                    d == 2 * d2,
            ;
            assert(0 < d2 < p);
            lemma_odd_multiple_mod_pow2(d2, s, (k - 1) as nat);
        }
    }
}

/// Two distinct indices below the modulus give distinct residues when
/// the step is odd.
proof fn lemma_residue_injective(first: u64, step: u64, i: nat, j: nat)
    requires
        (step as nat) % 2 == 1,
        i < j,
        j < address_space(),
    ensures
        residue(first, step, i) != residue(first, step, j),
{
    let m = address_space() as int;
    let f = first as int;
    let s = step as int;
    if residue(first, step, i) == residue(first, step, j) {
        assert((f + i * s) % m == (f + j * s) % m);
        lemma_mod_equivalence(f + j * s, f + i * s, m);
        let d = (j - i) as nat;
        assert((f + j * s) - (f + i * s) == d * s) by (nonlinear_arith)
            requires
                d == j - i,
        ;
        assert((d * s) % m == 0);
        assert(m == pow2(32)) by {
            lemma2_to64();
        }
        lemma_odd_multiple_mod_pow2(d, step as nat, 32);
    }
}

/// Full-period law of the enumerator: with a step coprime to the size
/// of the address space, the recurrence emits 2^32 pairwise distinct
/// values — it returns to `first` exactly on the 2^32-th emission and
/// never earlier.
pub proof fn lemma_full_period(first: u64, step: u64)
    requires
        first < ADDRESS_SPACE,
        spec_gcd(address_space(), step as nat) == 1,
    ensures
        forall|i: nat, j: nat|
            1 <= i < j <= address_space() ==> residue(first, step, i) != residue(first, step, j),
        residue(first, step, address_space()) == first,
        forall|k: nat| 1 <= k < address_space() ==> residue(first, step, k) != first,
{
    lemma_coprime_step_is_odd(step as nat);
    let m = address_space() as int;
    let f = first as int;
    let s = step as int;

    assert(residue(first, step, address_space()) == first) by {
        lemma_mod_multiples_vanish(s, f, m);
        lemma_small_mod(first as nat, address_space());
        assert(f + address_space() * s == m * s + f);
    }

    assert(residue(first, step, 0) == first) by {
        lemma_small_mod(first as nat, address_space());
    }

    assert forall|k: nat| 1 <= k < address_space() implies residue(first, step, k)
        != first by {
        lemma_residue_injective(first, step, 0, k);
    }

    assert forall|i: nat, j: nat| 1 <= i < j <= address_space() implies residue(first, step, i)
        != residue(first, step, j) by {
        if j < address_space() {
            lemma_residue_injective(first, step, i, j);
        } else {
            lemma_residue_injective(first, step, 0, i);
        }
    }
}

/// Coverage law: with a step coprime to the modulus, every address in
/// `[0, 2^32)` appears somewhere in the recurrence's first 2^32
/// values — together with the full-period law, the enumerator spans
/// the whole space, each address exactly once.
pub proof fn lemma_full_coverage(first: u64, step: u64, v: u64)
    requires
        first < ADDRESS_SPACE,
        spec_gcd(address_space(), step as nat) == 1,
        v < ADDRESS_SPACE,
    ensures
        exists|k: nat| k < address_space() && residue(first, step, k) == v,
{
    lemma_coprime_step_is_odd(step as nat);
    let m = address_space() as int;
    let f = |k: int| residue(first, step, k as nat) as int;
    let dom = set_int_range(0, m);
    let img = dom.map(f);
    lemma_int_range(0, m);
    assert(injective_on(f, dom)) by {
        assert forall|k1: int, k2: int|
            dom.contains(k1) && dom.contains(k2) && #[trigger] f(k1) == #[trigger] f(
                k2,
            ) implies k1 == k2 by {
            if k1 < k2 {
                lemma_residue_injective(first, step, k1 as nat, k2 as nat);
            }
            if k2 < k1 {
                lemma_residue_injective(first, step, k2 as nat, k1 as nat);
            }
        }
    }
    lemma_map_size(dom, img, f);
    let range = set_int_range(0, m);
    assert(img.subset_of(range)) by {
        assert forall|x: int| img.contains(x) implies range.contains(x) by {
            let k = choose|k: int| dom.contains(k) && #[trigger] f(k) == x;
            assert(0 <= f(k) < m);
        }
    }
    lemma_subset_equality(img, range);
    assert(range.contains(v as int));
    let k = choose|k: int| dom.contains(k) && #[trigger] f(k) == v as int;
    assert(residue(first, step, k as nat) == v);
}

/// Short-period law: a step that shares a factor with the modulus is
/// even, and the recurrence then returns to `first` after 2^31
/// emissions — half the space — and repeats from there with period
/// 2^31. Every value it ever takes has the parity of `first`, so no
/// address of the other parity is ever emitted: full-period coverage
/// fails. This is why the production sampler rejects such steps.
pub proof fn lemma_non_coprime_short_period(first: u64, step: u64)
    requires
        first < ADDRESS_SPACE,
        step < ADDRESS_SPACE,
        spec_gcd(address_space(), step as nat) != 1,
    ensures
        (step as nat) % 2 == 0,
        residue(first, step, (ADDRESS_SPACE / 2) as nat) == first,
        forall|k: nat| #[trigger]
            residue(first, step, k + (ADDRESS_SPACE / 2) as nat) == residue(first, step, k),
        forall|k: nat| (#[trigger] residue(first, step, k)) % 2 == first % 2,
{
    if (step as nat) % 2 == 1 {
        lemma_odd_step_coprime(step as nat);
    }
    let m = address_space() as int;
    let h = (ADDRESS_SPACE / 2) as int;
    let f = first as int;
    let s = step as int;
    let s2 = s / 2;
    lemma_fundamental_div_mod(s, 2);

    assert(residue(first, step, (ADDRESS_SPACE / 2) as nat) == first) by {
        assert(h * s == m * s2) by (nonlinear_arith)
            requires
                s == 2 * s2,
                2 * h == m,
        ;
        lemma_mod_multiples_vanish(s2, f, m);
        lemma_small_mod(first as nat, address_space());
    }

    assert forall|k: nat| #[trigger]
        residue(first, step, k + (ADDRESS_SPACE / 2) as nat) == residue(first, step, k) by {
        assert((k + h) * s == k * s + m * s2) by (nonlinear_arith)
            requires
                k >= 0,
                s == 2 * s2,
                2 * h == m,
        ;
        lemma_mod_multiples_vanish(s2, f + k * s, m);
    }

    assert forall|k: nat| (#[trigger] residue(first, step, k)) % 2 == first % 2 by {
        let x = f + k * s;
        assert(x % m == x % (2 * h));
        lemma_mod_mod(x, 2, h);
        assert((k * s) % 2 == 0) by {
            lemma_mul_mod_noop_right(k as int, s, 2);
        }
        assert(x % 2 == f % 2) by {
            lemma_add_mod_noop(f, k * s, 2);
            lemma_small_mod(0, 2);
            assert((f % 2 + 0) % 2 == f % 2) by {
                lemma_small_mod((f % 2) as nat, 2);
            }
        }
        lemma_small_mod(first as nat, address_space());
    }
}

/// Early-exhaustion law: an enumerator whose step shares a factor
/// with the modulus deactivates after at most 2^31 emissions — far
/// short of the 2^32 a full period requires — so coverage of the
/// space is violated for every such step.
pub proof fn lemma_non_coprime_exhausts_early(it: IpIterator)
    requires
        it.wf(),
        spec_gcd(address_space(), it.spec_step() as nat) != 1,
    ensures
        it.is_active() ==> it.emitted() < (ADDRESS_SPACE / 2) as nat,
        !it.is_active() ==> it.emitted() <= (ADDRESS_SPACE / 2) as nat,
{
    lemma_non_coprime_short_period(it.spec_first(), it.spec_step());
    let h = (ADDRESS_SPACE / 2) as nat;
    if it.is_active() {
        if it.emitted() >= h {
            assert(residue(it.spec_first(), it.spec_step(), h) == it.spec_first());
        }
    } else {
        if it.emitted() > h {
            assert(residue(it.spec_first(), it.spec_step(), h) == it.spec_first());
        }
    }
}

/// Exhaustion law: an enumerator whose step is coprime to the modulus
/// is active exactly while fewer than 2^32 addresses have been
/// emitted, and deactivates exactly at the 2^32-th.
pub proof fn lemma_exhaustion(it: IpIterator)
    requires
        it.wf(),
        spec_gcd(address_space(), it.spec_step() as nat) == 1,
    ensures
        it.is_active() <==> it.emitted() < address_space(),
        !it.is_active() ==> it.emitted() == address_space(),
{
    lemma_full_period(it.spec_first(), it.spec_step());
    if it.is_active() {
        if it.emitted() >= address_space() {
            assert(residue(it.spec_first(), it.spec_step(), address_space())
                == it.spec_first());
        }
    } else {
        if it.emitted() > address_space() {
            assert(residue(it.spec_first(), it.spec_step(), address_space())
                == it.spec_first());
        }
    }
}

} // verus!
