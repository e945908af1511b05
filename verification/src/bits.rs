//! Bit-reversal arithmetic underlying the split-order key transform.
//!
//! A real entry with logical key `k` is stored under the transformed key
//! `reverse_bits(k) | 1`; the sentinel node of bucket `b` is stored under
//! `reverse_bits(b)`. Reversing the bits turns the "split each bucket by its
//! most significant differing bit" scheme into one global sorted order, and
//! the lemmas here justify the two facts the table lives on:
//!
//! - a bucket's sentinel key precedes the transformed key of every entry that
//!   hashes to that bucket, and
//! - no other bucket's sentinel key falls between the two.

use vstd::prelude::*;

verus! {

use vstd::arithmetic::div_mod::{
    lemma_basic_div,
    lemma_breakdown,
    lemma_div_denominator,
    lemma_fundamental_div_mod,
    lemma_fundamental_div_mod_converse,
    lemma_mod_division_less_than_divisor,
    lemma_mod_multiples_basic,
    lemma_mod_multiples_vanish,
    lemma_small_mod,
};
use vstd::arithmetic::mul::{
    lemma_mul_by_zero_is_zero,
    lemma_mul_inequality,
    lemma_mul_is_associative,
    lemma_mul_is_commutative,
    lemma_mul_is_distributive_add,
    lemma_mul_strict_inequality_converse,
};
use vstd::arithmetic::power2::{
    lemma2_to64,
    lemma2_to64_rest,
    lemma_pow2_adds,
    lemma_pow2_pos,
    lemma_pow2_strictly_increases,
    lemma_pow2_unfold,
    pow2,
};
use vstd::bits::{lemma_u64_pow2_no_overflow, lemma_u64_shl_is_mul};

broadcast use lemma_mul_is_commutative, lemma_mod_division_less_than_divisor, lemma_pow2_pos;

/// The value of the low `n` bits of `x`, read in reverse: bit 0 of `x` lands
/// at position `n - 1`, bit 1 at position `n - 2`, and so on.
pub open spec fn rev_bits_spec(x: nat, n: nat) -> nat
    decreases n,
{
    if n == 0 {
        0
    } else {
        (x % 2) * pow2((n - 1) as nat) + rev_bits_spec(x / 2, (n - 1) as nat)
    }
}

/// Full 64-bit reversal.
pub open spec fn rev64(x: nat) -> nat {
    rev_bits_spec(x, 64)
}

/// Keys are restricted to the low 63 bits of a word; the top bit is reserved
/// so that transformed entry keys cannot collide with sentinel keys.
pub open spec fn valid_key(k: u64) -> bool {
    (k as nat) < pow2(63)
}

/// Key under which the sentinel node of bucket `b` sits in the shared list.
pub open spec fn sentinel_key(b: nat) -> nat {
    rev64(b)
}

/// Key under which the real entry of logical key `k` sits in the shared list.
/// For a valid `k` the reversal is even, so this equals `rev64(k) | 1`.
pub open spec fn entry_key(k: nat) -> nat {
    rev64(k) + 1
}

/// Position of the highest set bit of `b` (0 for `b <= 1`).
pub open spec fn top_bit(b: nat) -> nat
    decreases b,
{
    if b < 2 {
        0
    } else {
        1 + top_bit(b / 2)
    }
}

/// Bucket `b`'s parent: `b` with its highest set bit cleared.
pub open spec fn parent_bucket_spec(b: nat) -> nat {
    b % pow2(top_bit(b))
}

/// One unfolding of the reversal, with the low-bit product evaluated.
proof fn lemma_rev_step(x: nat, n: nat)
    requires
        n >= 1,
    ensures
        x % 2 == 1 ==> rev_bits_spec(x, n) == pow2((n - 1) as nat) + rev_bits_spec(
            x / 2,
            (n - 1) as nat,
        ),
        x % 2 == 0 ==> rev_bits_spec(x, n) == rev_bits_spec(x / 2, (n - 1) as nat),
{
    if x % 2 == 0 {
        lemma_mul_by_zero_is_zero(pow2((n - 1) as nat) as int);
        assert((x % 2) * pow2((n - 1) as nat) == 0);
    } else {
        assert(x % 2 == 1);
        assert((x % 2) * pow2((n - 1) as nat) == pow2((n - 1) as nat));
    }
}

pub proof fn lemma_rev_range(x: nat, n: nat)
    ensures
        rev_bits_spec(x, n) < pow2(n),
    decreases n,
{
    if n == 0 {
        lemma2_to64();
    } else {
        lemma_rev_range(x / 2, (n - 1) as nat);
        lemma_pow2_unfold(n);
        lemma_rev_step(x, n);
    }
}

pub proof fn lemma_rev_zero(n: nat)
    ensures
        rev_bits_spec(0, n) == 0,
    decreases n,
{
    if n > 0 {
        lemma_rev_zero((n - 1) as nat);
        lemma_rev_step(0, n);
    }
}

pub proof fn lemma_rev_one(n: nat)
    requires
        n >= 1,
    ensures
        rev_bits_spec(1, n) == pow2((n - 1) as nat),
{
    lemma_rev_zero((n - 1) as nat);
    lemma_rev_step(1, n);
}

/// Splitting off the low `s` bits: the reversal of `x` is the reversal of its
/// low `s` bits (a multiple of `2^(n-s)`, occupying the high positions) plus
/// the reversal of the remaining high bits (confined to the low positions).
pub proof fn lemma_rev_split(x: nat, s: nat, n: nat)
    requires
        s <= n,
    ensures
        rev_bits_spec(x, n) == rev_bits_spec(x % pow2(s), n) + rev_bits_spec(
            x / pow2(s),
            (n - s) as nat,
        ),
        rev_bits_spec(x % pow2(s), n) % pow2((n - s) as nat) == 0,
    decreases s,
{
    if s == 0 {
        lemma2_to64();
        assert(pow2(0) == 1);
        assert(x % 1 == 0) by {
            lemma_mod_multiples_basic(x as int, 1);
        }
        lemma_rev_zero(n);
        assert(0nat % pow2(n) == 0) by {
            lemma_mod_multiples_basic(0, pow2(n) as int);
            lemma_mul_by_zero_is_zero(pow2(n) as int);
        }
    } else {
        let a = x % 2;
        let x2 = x / 2;
        let m2 = pow2((s - 1) as nat);
        lemma_pow2_unfold(s);
        assert(pow2(s) == 2 * m2);
        // x % 2^s == 2 * (x2 % m2) + a, hence its low bit and upper bits are
        // those of x and of x2 % m2.
        lemma_breakdown(x as int, 2, m2 as int);
        assert(x % (2 * m2) == 2 * ((x / 2) % m2) + x % 2);
        let y = x % pow2(s);
        assert(y == 2 * (x2 % m2) + a);
        lemma_fundamental_div_mod_converse(y as int, 2, (x2 % m2) as int, a as int);
        assert(y % 2 == a);
        assert(y / 2 == x2 % m2);
        // x / 2^s == x2 / m2.
        lemma_div_denominator(x as int, 2, m2 as int);
        assert(x / pow2(s) == x2 / m2);
        // Unfold both reversals one step and apply the inductive hypothesis.
        lemma_rev_split(x2, (s - 1) as nat, (n - 1) as nat);
        assert(rev_bits_spec(x, n) == a * pow2((n - 1) as nat) + rev_bits_spec(
            x2,
            (n - 1) as nat,
        ));
        assert(rev_bits_spec(y, n) == a * pow2((n - 1) as nat) + rev_bits_spec(
            x2 % m2,
            (n - 1) as nat,
        ));
        assert(rev_bits_spec(x2, (n - 1) as nat) == rev_bits_spec(x2 % m2, (n - 1) as nat)
            + rev_bits_spec(x2 / m2, (n - s) as nat));
        // Divisibility of the reversed low part by 2^(n-s).
        let bigm = pow2((n - s) as nat);
        let r = rev_bits_spec(x2 % m2, (n - 1) as nat);
        assert(r % bigm == 0);
        lemma_fundamental_div_mod(r as int, bigm as int);
        assert(r == bigm * (r / bigm));
        assert(a * pow2((n - 1) as nat) == bigm * (a * pow2((s - 1) as nat))) by {
            lemma_pow2_adds((n - s) as nat, (s - 1) as nat);
            assert(pow2((n - 1) as nat) == bigm * pow2((s - 1) as nat));
            lemma_mul_is_associative(a as int, bigm as int, pow2((s - 1) as nat) as int);
            lemma_mul_is_associative(bigm as int, a as int, pow2((s - 1) as nat) as int);
        }
        assert(rev_bits_spec(y, n) == bigm * (a * pow2((s - 1) as nat)) + bigm * (r / bigm));
        assert(rev_bits_spec(y, n) == bigm * (a * pow2((s - 1) as nat) + r / bigm)) by {
            lemma_mul_is_distributive_add(
                bigm as int,
                (a * pow2((s - 1) as nat)) as int,
                (r / bigm) as int,
            );
        }
        lemma_mod_multiples_basic((a * pow2((s - 1) as nat) + r / bigm) as int, bigm as int);
    }
}

pub proof fn lemma_rev_injective(x: nat, y: nat, n: nat)
    requires
        x < pow2(n),
        y < pow2(n),
        rev_bits_spec(x, n) == rev_bits_spec(y, n),
    ensures
        x == y,
    decreases n,
{
    if n == 0 {
        lemma2_to64();
    } else {
        let m = pow2((n - 1) as nat);
        lemma_pow2_unfold(n);
        lemma_rev_range(x / 2, (n - 1) as nat);
        lemma_rev_range(y / 2, (n - 1) as nat);
        let r = rev_bits_spec(x, n);
        lemma_fundamental_div_mod_converse(
            r as int,
            m as int,
            (x % 2) as int,
            rev_bits_spec(x / 2, (n - 1) as nat) as int,
        );
        lemma_fundamental_div_mod_converse(
            r as int,
            m as int,
            (y % 2) as int,
            rev_bits_spec(y / 2, (n - 1) as nat) as int,
        );
        assert(x % 2 == y % 2);
        assert(rev_bits_spec(x / 2, (n - 1) as nat) == rev_bits_spec(y / 2, (n - 1) as nat));
        assert(x / 2 < m) by {
            lemma_fundamental_div_mod(x as int, 2);
        }
        assert(y / 2 < m) by {
            lemma_fundamental_div_mod(y as int, 2);
        }
        lemma_rev_injective(x / 2, y / 2, (n - 1) as nat);
        lemma_fundamental_div_mod(x as int, 2);
        lemma_fundamental_div_mod(y as int, 2);
    }
}

/// The low bit of the reversal is the top bit of the input.
pub proof fn lemma_rev_parity(x: nat, n: nat)
    requires
        n >= 1,
    ensures
        rev_bits_spec(x, n) % 2 == (x / pow2((n - 1) as nat)) % 2,
{
    lemma_rev_split(x, (n - 1) as nat, n);
    lemma2_to64();
    assert(pow2(1) == 2);
    let lowrev = rev_bits_spec(x % pow2((n - 1) as nat), n);
    let hi = x / pow2((n - 1) as nat);
    assert(rev_bits_spec(hi, 1) == hi % 2) by {
        lemma_rev_step(hi, 1);
        lemma_rev_zero(0);
        assert(pow2(0) == 1);
    }
    assert(lowrev % 2 == 0);
    lemma_fundamental_div_mod(lowrev as int, 2);
    assert(lowrev == 2 * (lowrev / 2));
    lemma_mod_multiples_vanish((lowrev / 2) as int, (hi % 2) as int, 2);
    lemma_small_mod(hi % 2, 2);
}

/// A valid key, or any value below `2^63`, has an even 64-bit reversal.
pub proof fn lemma_rev64_even(x: nat)
    requires
        x < pow2(63),
    ensures
        rev64(x) % 2 == 0,
{
    lemma_rev_parity(x, 64);
    lemma_basic_div(x as int, pow2(63) as int);
}

/// A bucket index is the low bits of every key that hashes to it, so the
/// bucket's sentinel key is a lower bound for the key's reversal.
pub proof fn lemma_prefix_rev_le(k: nat, t: nat)
    requires
        t <= 64,
    ensures
        rev64(k % pow2(t)) <= rev64(k),
{
    lemma_rev_split(k, t, 64);
}

/// Two distinct multiples of `m` are at least `m` apart.
pub proof fn lemma_multiple_gap(a: nat, b: nat, m: nat)
    requires
        m >= 1,
        a % m == 0,
        b % m == 0,
        a < b,
    ensures
        a + m <= b,
{
    lemma_fundamental_div_mod(a as int, m as int);
    lemma_fundamental_div_mod(b as int, m as int);
    assert(a == m * (a / m));
    assert(b == m * (b / m));
    assert(a / m < b / m) by {
        lemma_mul_strict_inequality_converse((a / m) as int, (b / m) as int, m as int);
    }
    assert(m * (a / m + 1) <= m * (b / m)) by {
        lemma_mul_inequality((a / m + 1) as int, (b / m) as int, m as int);
    }
    lemma_mul_is_distributive_add(m as int, (a / m) as int, 1);
    assert(m * (a / m + 1) == m * (a / m) + m);
}

/// The heart of split ordering: of all sentinel keys of buckets below the
/// current size, the sentinel of `k`'s own bucket is the largest one that
/// precedes `k`'s entry key.
pub proof fn lemma_sentinel_separation(k: nat, s: nat, b2: nat)
    requires
        k < pow2(63),
        1 <= s <= 63,
        b2 < pow2(s),
        b2 != k % pow2(s),
    ensures
        sentinel_key(b2) < sentinel_key(k % pow2(s)) || sentinel_key(b2) > entry_key(k),
{
    let b = k % pow2(s);
    let bigm = pow2((64 - s) as nat);
    if s < 63 {
        lemma_pow2_strictly_increases(s, 63);
    }
    assert(b < pow2(s));
    assert(b < pow2(63) && b2 < pow2(63));
    // Sentinel keys of buckets below 2^s are multiples of 2^(64-s).
    lemma_small_mod(b2, pow2(s));
    lemma_small_mod(b, pow2(s));
    lemma_basic_div(b2 as int, pow2(s) as int);
    lemma_basic_div(b as int, pow2(s) as int);
    lemma_rev_split(b2, s, 64);
    lemma_rev_split(b, s, 64);
    lemma_rev_zero((64 - s) as nat);
    assert(rev64(b2) % bigm == 0);
    assert(rev64(b) % bigm == 0);
    // rev64(k) equals rev64(b) plus a remainder strictly below 2^(64-s).
    lemma_rev_split(k, s, 64);
    let rest = rev_bits_spec(k / pow2(s), (64 - s) as nat);
    lemma_rev_range(k / pow2(s), (64 - s) as nat);
    assert(rev64(k) == rev64(b) + rest && rest < bigm);
    // Distinct buckets have distinct sentinel keys.
    assert(rev64(b2) != rev64(b)) by {
        if rev64(b2) == rev64(b) {
            lemma_pow2_strictly_increases(s, 64);
            lemma_rev_injective(b2, b, 64);
        }
    }
    if rev64(b2) > rev64(b) {
        lemma_multiple_gap(rev64(b), rev64(b2), bigm);
        assert(rev64(b2) >= rev64(b) + bigm);
        assert(rev64(b2) > rev64(k));
        // Both reversals are even, so the gap skips the (odd) entry key.
        lemma_rev64_even(b2);
        lemma_rev64_even(k);
        assert(rev64(b2) != rev64(k) + 1);
        assert(sentinel_key(b2) > entry_key(k));
    }
}

pub proof fn lemma_top_bit_bounds(b: nat)
    requires
        b >= 1,
    ensures
        pow2(top_bit(b)) <= b < pow2(top_bit(b) + 1),
    decreases b,
{
    lemma2_to64();
    if b < 2 {
        assert(pow2(0) == 1 && pow2(1) == 2);
    } else {
        lemma_top_bit_bounds(b / 2);
        let t = top_bit(b / 2);
        lemma_pow2_unfold(t + 1);
        lemma_pow2_unfold(t + 2);
        lemma_fundamental_div_mod(b as int, 2);
    }
}

pub proof fn lemma_top_bit_is(b: nat, t: nat)
    requires
        pow2(t) <= b < pow2(t + 1),
    ensures
        top_bit(b) == t,
{
    lemma_top_bit_bounds(b);
    let u = top_bit(b);
    if u < t {
        lemma_pow2_strictly_increases(u + 1, t + 1);
        if u + 1 < t {
            lemma_pow2_strictly_increases(u + 1, t);
        }
        assert(b < pow2(u + 1) <= pow2(t));
    }
    if t < u {
        if t + 1 < u {
            lemma_pow2_strictly_increases(t + 1, u);
        }
        assert(b < pow2(t + 1) <= pow2(u));
    }
}

/// Clearing the highest set bit both shrinks the bucket index and shrinks its
/// sentinel key: a parent's sentinel precedes its child's in the list.
pub proof fn lemma_parent_bucket(b: nat)
    requires
        1 <= b < pow2(63),
    ensures
        parent_bucket_spec(b) < b,
        sentinel_key(parent_bucket_spec(b)) < sentinel_key(b),
{
    let t = top_bit(b);
    lemma_top_bit_bounds(b);
    assert(t < 63) by {
        if t >= 63 {
            if t > 63 {
                lemma_pow2_strictly_increases(63, t);
            }
            assert(pow2(63) <= pow2(t) <= b);
        }
    }
    assert(b / pow2(t) == 1) by {
        lemma_pow2_unfold(t + 1);
        lemma_fundamental_div_mod(b as int, pow2(t) as int);
        let q = b / pow2(t);
        let r = b % pow2(t);
        assert(b == pow2(t) * q + r && 0 <= r < pow2(t));
        if q == 0 {
            lemma_mul_by_zero_is_zero(pow2(t) as int);
            assert(b < pow2(t));
        }
        if q >= 2 {
            lemma_mul_inequality(2, q as int, pow2(t) as int);
            assert(2 * pow2(t) <= q * pow2(t));
            assert(b >= 2 * pow2(t));
        }
    }
    assert(parent_bucket_spec(b) + pow2(t) == b) by {
        lemma_fundamental_div_mod(b as int, pow2(t) as int);
        assert(b == pow2(t) * (b / pow2(t)) + b % pow2(t));
    }
    lemma_rev_split(b, t, 64);
    lemma_rev_one((64 - t) as nat);
    assert(rev_bits_spec(b / pow2(t), (64 - t) as nat) == pow2((64 - t - 1) as nat));
    lemma_pow2_pos((64 - t - 1) as nat);
}

/// Entry keys are injective over valid keys.
pub proof fn lemma_entry_key_injective(k1: nat, k2: nat)
    requires
        k1 < pow2(63),
        k2 < pow2(63),
        entry_key(k1) == entry_key(k2),
    ensures
        k1 == k2,
{
    lemma_pow2_strictly_increases(63, 64);
    lemma_rev_injective(k1, k2, 64);
}

/// Entry keys are odd and fit in a word; sentinel keys of buckets below
/// `2^63` are even.
pub proof fn lemma_key_parity(k: nat, b: nat)
    requires
        k < pow2(63),
        b < pow2(63),
    ensures
        entry_key(k) % 2 == 1,
        sentinel_key(b) % 2 == 0,
        entry_key(k) < pow2(64),
        sentinel_key(b) < pow2(64),
{
    lemma_rev64_even(k);
    lemma_rev64_even(b);
    lemma_rev_range(k, 64);
    lemma_rev_range(b, 64);
    lemma_fundamental_div_mod(rev64(k) as int, 2);
    assert(rev64(k) == 2 * (rev64(k) / 2));
    lemma_mod_multiples_vanish((rev64(k) / 2) as int, 1, 2);
    assert((rev64(k) + 1) % 2 == 1nat % 2);
    lemma_small_mod(1, 2);
    assert(rev64(k) + 1 < pow2(64)) by {
        lemma_pow2_unfold(64);
        assert(pow2(64) == 2 * pow2(63));
        if rev64(k) + 1 == pow2(64) {
            lemma_mod_multiples_basic(pow2(63) as int, 2);
            assert((pow2(63) * 2) % 2 == 0);
            assert(pow2(64) % 2 == 0);
        }
    }
}

/// 64-bit reversal, computed bit by bit from the low end.
pub fn reverse_bits(x: u64) -> (r: u64)
    ensures
        r as nat == rev64(x as nat),
{
    rev_bits_rec(x, 64)
}

fn rev_bits_rec(x: u64, n: u64) -> (r: u64)
    requires
        n <= 64,
    ensures
        r as nat == rev_bits_spec(x as nat, n as nat),
    decreases n,
{
    if n == 0 {
        0
    } else {
        let low: u64 = x % 2;
        let rest: u64 = rev_bits_rec(x / 2, n - 1);
        proof {
            lemma_u64_pow2_no_overflow((n - 1) as nat);
            lemma_u64_shl_is_mul(1u64, (n - 1) as u64);
            lemma_rev_range((x / 2) as nat, (n - 1) as nat);
            if n < 64 {
                lemma_pow2_strictly_increases(n as nat, 64);
            }
            lemma_pow2_unfold(n as nat);
            lemma2_to64_rest();
            assert((x as nat) / 2 == (x / 2) as nat);
        }
        let p: u64 = 1u64 << (n - 1);
        low * p + rest
    }
}

/// The transformed key of a real entry: the bit reversal with the low bit set.
pub fn entry_key_of(k: u64) -> (r: u64)
    requires
        valid_key(k),
    ensures
        r as nat == entry_key(k as nat),
{
    proof {
        lemma_key_parity(k as nat, 0);
    }
    reverse_bits(k) + 1
}

/// The sentinel key of a bucket.
pub fn sentinel_key_of(b: u64) -> (r: u64)
    ensures
        r as nat == sentinel_key(b as nat),
{
    reverse_bits(b)
}

/// The parent of a non-zero bucket: the index with its highest set bit
/// cleared.
pub fn parent_bucket(b: u64) -> (p: u64)
    requires
        b >= 1,
    ensures
        p as nat == parent_bucket_spec(b as nat),
        p < b,
{
    let mut t: u64 = 0;
    let mut q: u64 = b;
    proof {
        lemma2_to64();
    }
    while q >= 2
        invariant
            1 <= q,
            t <= 63,
            q as nat == (b as nat) / pow2(t as nat),
        decreases q,
    {
        proof {
            lemma_pow2_unfold((t + 1) as nat);
            lemma_div_denominator(b as int, pow2(t as nat) as int, 2);
            // q >= 2 keeps the next exponent in range: 2^(t+1) <= b < 2^64.
            assert(pow2((t + 1) as nat) <= b as nat) by {
                lemma_fundamental_div_mod(b as int, pow2(t as nat) as int);
                lemma_mul_inequality(2, ((b as nat) / pow2(t as nat)) as int, pow2(t as nat) as int);
            }
            assert(t + 1 <= 63) by {
                if t + 1 > 63 {
                    lemma2_to64_rest();
                    assert(pow2(64) <= pow2((t + 1) as nat) <= b as nat);
                }
            }
        }
        q = q / 2;
        t = t + 1;
    }
    proof {
        // q == 1 pins t as the position of the highest set bit.
        lemma_pow2_unfold((t + 1) as nat);
        lemma_fundamental_div_mod(b as int, pow2(t as nat) as int);
        assert(b as nat == pow2(t as nat) * ((b as nat) / pow2(t as nat)) + (b as nat) % pow2(
            t as nat,
        ));
        assert(pow2(t as nat) <= (b as nat));
        assert((b as nat) < pow2((t + 1) as nat));
        lemma_top_bit_is(b as nat, t as nat);
        lemma_u64_pow2_no_overflow(t as nat);
        lemma_u64_shl_is_mul(1u64, t);
    }
    let m: u64 = 1u64 << t;
    b % m
}

} // verus!
