//! Fibonacci hashing: sessions to shards by multiplication.
//!
//! The multiplier is odd and nearest to the golden share of `2^64`, so that keys
//! that follow one another are spread as evenly as can be.
use vstd::arithmetic::div_mod::{
    lemma_add_mod_noop,
    lemma_div_denominator,
    lemma_mod_multiples_vanish,
    lemma_mul_mod_noop_left,
    lemma_small_mod,
};
use vstd::arithmetic::mul::lemma_mul_is_associative;
use vstd::arithmetic::power2::{lemma2_to64_rest, lemma_pow2_adds, lemma_pow2_pos, pow2};
use vstd::prelude::*;

verus! {

/// The golden share of `2^64`.
pub const GOLDEN64: u64 = 0x9E3779B97F4A7C15;

/// What undoes a multiplication by it.
pub const GOLDEN64_INVERSE: u64 = 17428512612931826493;

/// One more than the largest number of 64 bits.
pub open spec fn two_to_64() -> int {
    0x1_0000_0000_0000_0000
}

/// A key times the golden multiplier, in 64 bits.
pub open spec fn golden(k: u64) -> u64 {
    ((k * GOLDEN64) % two_to_64()) as u64
}

/// A key times the golden multiplier, in 64 bits.
pub fn golden_of(k: u64) -> (r: u64)
    ensures
        r == golden(k),
{
    let wide: u128 = k as u128 * GOLDEN64 as u128;
    assert(k as u128 * GOLDEN64 as u128 <= 0xFFFF_FFFF_FFFF_FFFF * 0xFFFF_FFFF_FFFF_FFFF)
        by (nonlinear_arith);
    (wide % 0x1_0000_0000_0000_0000) as u64
}

/// The multiplication can be undone, so that no two keys meet.
pub proof fn multiplication_keeps_keys_apart(a: u64, b: u64)
    requires
        golden(a) == golden(b),
    ensures
        a == b,
{
    lemma_undo(a);
    lemma_undo(b);
}

proof fn lemma_undo(k: u64)
    ensures
        (golden(k) * GOLDEN64_INVERSE) % two_to_64() == k,
{
    let m = two_to_64();
    let g = GOLDEN64 as int;
    let i = GOLDEN64_INVERSE as int;
    assert(g * i == m * 10771413168148108919 + 1);
    lemma_mul_mod_noop_left(k * g, i, m);
    lemma_mul_is_associative(k as int, g, i);
    let q = 10771413168148108919int;
    assert(k * (m * q + 1) == m * (k * q) + k) by (nonlinear_arith);
    lemma_mod_multiples_vanish(k * q, k as int, m);
    lemma_small_mod(k as nat, m as nat);
}

/// The low half of a key mixed with the high half.
pub open spec fn folded(key: u128) -> u64 {
    ((key % 0x1_0000_0000_0000_0000) as u64) ^ ((key / 0x1_0000_0000_0000_0000) as u64)
}

/// The top `b` bits of a key times the golden multiplier.
pub open spec fn shard(k: u64, b: u32) -> u64 {
    golden(k) >> ((64 - b) as u64)
}

/// The shard of a key among `2^b`. Both halves of the key count.
pub fn fib_hash64(key: u128, b: u32) -> (r: usize)
    requires
        1 <= b <= 64,
    ensures
        r == shard(folded(key), b) as usize,
{
    let lo: u64 = (key % 0x1_0000_0000_0000_0000) as u64;
    let hi: u64 = (key / 0x1_0000_0000_0000_0000) as u64;
    fib_hash64_u64(lo ^ hi, b)
}

/// The shard of a key of 64 bits among `2^b`.
pub fn fib_hash64_u64(key: u64, b: u32) -> (r: usize)
    requires
        1 <= b <= 64,
    ensures
        r == shard(key, b) as usize,
{
    let shift: u64 = (64 - b) as u64;
    (golden_of(key) >> shift) as usize
}

/// Every shard is one of `2^b`.
pub proof fn shards_are_in_range(k: u64, b: u32)
    requires
        1 <= b < 64,
    ensures
        shard(k, b) < (1u64 << (b as u64)),
{
    let x = golden(k);
    let c = b as u64;
    let d = (64 - c) as u64;
    assert((x >> d) < (1u64 << c)) by (bit_vector)
        requires
            1 <= c < 64,
            d == 64 - c,
    ;
}

/// A key of no more than 64 bits is hashed as it is.
pub proof fn small_keys_are_hashed_as_they_are(key: u64)
    ensures
        folded(key as u128) == key,
{
    let k = key;
    assert(k ^ 0 == k) by (bit_vector);
}

/// The widths nest: the shard among fewer is the front of the shard among more.
pub proof fn the_widths_nest(k: u64, a: u32, b: u32)
    requires
        1 <= a <= b <= 64,
    ensures
        shard(k, a) == shard(k, b) >> ((b - a) as u64),
{
    let x = golden(k);
    let far = (64 - a) as u64;
    let near = (64 - b) as u64;
    let more = (b - a) as u64;
    vstd::bits::lemma_u64_shr_is_div(x, far);
    vstd::bits::lemma_u64_shr_is_div(x, near);
    vstd::bits::lemma_u64_shr_is_div(x >> near, more);
    lemma_pow2_adds(near as nat, more as nat);
    lemma_pow2_pos(near as nat);
    lemma_pow2_pos(more as nat);
    lemma_div_denominator(x as int, pow2(near as nat) as int, pow2(more as nat) as int);
}

/// The halves of a key count alike: swapping them changes nothing.
pub proof fn swapping_the_halves_changes_nothing(key: u128, swapped: u128)
    requires
        swapped % 0x1_0000_0000_0000_0000 == key / 0x1_0000_0000_0000_0000,
        swapped / 0x1_0000_0000_0000_0000 == key % 0x1_0000_0000_0000_0000,
    ensures
        folded(swapped) == folded(key),
{
    let lo = (key % 0x1_0000_0000_0000_0000) as u64;
    let hi = (key / 0x1_0000_0000_0000_0000) as u64;
    assert(lo ^ hi == hi ^ lo) by (bit_vector);
}

// ---- how widely keys spread -------------------------------------------------
/// The shards among `2^b` that the keys below `n` land on.
pub open spec fn shards_hit(n: nat, b: u32) -> Set<u64> {
    Set::new(|x: u64| exists|k: u128| k < n && x == shard(#[trigger] folded(k), b))
}

/// A number times the golden multiplier, modulo `2^64`.
spec fn turned(d: int) -> int {
    (d * 0x9E3779B97F4A7C15) % 0x1_0000_0000_0000_0000
}

/// The top byte of that.
spec fn top(d: int) -> int {
    turned(d) / 0x100_0000_0000_0000
}

/// Two keys that differ by so much are a shard apart, either way round.
spec fn wide(d: int) -> bool {
    0x100_0000_0000_0000 <= turned(d) <= 0xFF00_0000_0000_0000
}

proof fn lemma_wide(d: u64)
    requires
        1 <= d <= 255,
        d != 144,
        d != 233,
    ensures
        wide(d as int),
{
    let g = 0x9E3779B97F4A7C15u64;
    assert(0x100_0000_0000_0000 <= (d * g) % 0x1_0000_0000_0000_0000 <= 0xFF00_0000_0000_0000)
        by (bit_vector)
        requires
            1 <= d <= 255,
            d != 144,
            d != 233,
            g == 0x9E3779B97F4A7C15u64,
    ;
}

proof fn lemma_top(k: u64)
    ensures
        shard(k, 8) == top(k as int),
{
    vstd::bits::lemma_u64_shr_is_div(golden(k), 56);
    lemma2_to64_rest();
}

proof fn lemma_wide_apart(a: u64, b: u64)
    requires
        a <= b,
        wide(b - a),
    ensures
        shard(a, 8) != shard(b, 8),
{
    let g = 0x9E3779B97F4A7C15int;
    assert(b * g == a * g + (b - a) * g) by (nonlinear_arith);
    lemma_add_mod_noop(a * g, (b - a) * g, two_to_64());
    lemma_top(a);
    lemma_top(b);
    let x = turned(a as int);
    let y = turned(b as int);
    let w = turned(b - a);
    assert(y == (x + w) % two_to_64());
    assert(y == x + w || y == x + w - two_to_64());
}

/// Keys that follow one another closely are kept apart: of 144 keys in a row no
/// two land on one of 256 shards.
pub proof fn close_keys_are_kept_apart(a: u64, b: u64)
    requires
        a < b,
        b - a < 144,
    ensures
        shard(a, 8) != shard(b, 8),
{
    lemma_wide((b - a) as u64);
    lemma_wide_apart(a, b);
}

/// Key `n` lands where no key before it did.
spec fn fresh(n: int) -> bool {
    n < 144 || (top(n) != top(n - 144) && (n < 233 || top(n) != top(n - 233)))
}

/// How many of the keys below `n` land where no key before them did.
spec fn fresh_below(n: nat) -> nat
    decreases n,
{
    if n == 0 {
        0
    } else {
        fresh_below((n - 1) as nat) + if fresh(n - 1) {
            1nat
        } else {
            0
        }
    }
}

proof fn lemma_shards_hit(n: nat)
    requires
        n <= 256,
    ensures
        shards_hit(n, 8).finite(),
        shards_hit(n, 8).len() == fresh_below(n),
    decreases n,
{
    if n == 0 {
        assert(shards_hit(0, 8) =~= Set::<u64>::empty());
    } else {
        let m = (n - 1) as nat;
        let key = m as u64;
        let x = shard(key, 8);
        lemma_shards_hit(m);
        small_keys_are_hashed_as_they_are(key);
        assert(shards_hit(n, 8) =~= shards_hit(m, 8).insert(x)) by {
            assert forall|y: u64| shards_hit(n, 8).contains(y) implies shards_hit(m, 8).insert(
                x,
            ).contains(y) by {
                let k = choose|k: u128| k < n && y == shard(#[trigger] folded(k), 8);
                if k < m {
                    assert(shards_hit(m, 8).contains(y));
                }
            }
            assert(folded(key as u128) == key);
        }
        lemma_top(key);
        if fresh(m as int) {
            assert(!shards_hit(m, 8).contains(x)) by {
                if shards_hit(m, 8).contains(x) {
                    let k = choose|k: u128| k < m && x == shard(#[trigger] folded(k), 8);
                    let before = k as u64;
                    small_keys_are_hashed_as_they_are(before);
                    lemma_top(before);
                    if m - k != 144 && m - k != 233 {
                        lemma_wide((m - k) as u64);
                        lemma_wide_apart(before, key);
                    }
                }
            }
        } else {
            let before = if top(m as int) == top(m - 144) {
                (m - 144) as u64
            } else {
                (m - 233) as u64
            };
            small_keys_are_hashed_as_they_are(before);
            lemma_top(before);
            assert(folded(before as u128) == before);
            assert(shards_hit(m, 8).contains(x));
        }
    }
}

proof fn lemma_fresh_below(n: nat)
    requires
        n <= 144,
    ensures
        fresh_below(n) == n,
    decreases n,
{
    if n > 0 {
        lemma_fresh_below((n - 1) as nat);
    }
}

/// The keys below 256 that land where a key before them did.
spec fn repeated(n: u64) -> bool {
    n == 148 || n == 153 || n == 157 || n == 162 || n == 167 || n == 171 || n == 176
        || n == 180 || n == 185 || n == 190 || n == 194 || n == 199 || n == 208 || n == 213
        || n == 217 || n == 222 || n == 227 || n == 231 || n == 233 || n == 234 || n == 235
        || n == 236 || n == 238 || n == 239 || n == 240 || n == 243 || n == 244 || n == 245
        || n == 247 || n == 248 || n == 249 || n == 250 || n == 252 || n == 253 || n == 254
}

proof fn lemma_repeated(n: u64)
    requires
        144 <= n <= 255,
    ensures
        fresh(n as int) <==> !repeated(n),
{
    let g = 0x9E3779B97F4A7C15u64;
    assert(repeated(n) <==> ((n * g) % 0x1_0000_0000_0000_0000) / 0x100_0000_0000_0000 == (((n - 144)
        * g) % 0x1_0000_0000_0000_0000) / 0x100_0000_0000_0000 || (n >= 233 && ((n * g)
        % 0x1_0000_0000_0000_0000) / 0x100_0000_0000_0000 == (((n - 233) * g)
        % 0x1_0000_0000_0000_0000) / 0x100_0000_0000_0000)) by (bit_vector)
        requires
            144 <= n <= 255,
            g == 0x9E3779B97F4A7C15u64,
    ;
}

/// How many keys from 144 on and below `n` are not repeated.
spec fn unrepeated(n: nat) -> nat
    decreases n,
{
    if n <= 144 {
        0
    } else {
        unrepeated((n - 1) as nat) + if repeated((n - 1) as u64) {
            0nat
        } else {
            1
        }
    }
}

proof fn lemma_unrepeated(n: nat)
    requires
        144 <= n <= 256,
    ensures
        fresh_below(n) == 144 + unrepeated(n),
    decreases n,
{
    if n == 144 {
        lemma_fresh_below(144);
    } else {
        lemma_unrepeated((n - 1) as nat);
        lemma_repeated((n - 1) as u64);
    }
}

/// Session counters spread widely: the first 256 keys land on 221 of 256 shards.
pub proof fn consecutive_keys_hit_most_shards()
    ensures
        shards_hit(256, 8).finite(),
        shards_hit(256, 8).len() == 221,
{
    lemma_shards_hit(256);
    lemma_unrepeated(256);
    reveal_with_fuel(unrepeated, 17);
    assert(unrepeated(160) == 13);
    assert(unrepeated(176) == 26);
    assert(unrepeated(192) == 38);
    assert(unrepeated(208) == 52);
    assert(unrepeated(224) == 64);
    assert(unrepeated(240) == 72);
    assert(unrepeated(256) == 77);
}

/// Small keys do not collapse: the first `n` of them land on as many shards.
pub proof fn small_keys_do_not_collapse(n: nat)
    requires
        n <= 144,
    ensures
        shards_hit(n, 8).finite(),
        shards_hit(n, 8).len() == n,
{
    lemma_fresh_below(n);
    lemma_shards_hit(n);
}

} // verus!
