//! Where keys, entities and bytes go: shards, places on the ring, generations,
//! groups and blocks.
use crate::bulk::{
    ceil_div,
    generation_count,
    generation_sources,
    padded,
    sent,
    sent_symbol,
    BulkError,
};
use crate::cayley::CayleyError;
use crate::compress::{
    compressed,
    decompressed,
    hex,
    trained,
    zstd_content,
    zstd_frame,
    zstd_size,
    CompressErrorView,
};
use crate::delta::{best_reference, common_prefix};
use crate::fib_hash::{folded, golden, shard};
use crate::fountain::FountainError;
use crate::hierarchical::{owned_by, HierError};
use crate::homohash::HomoHashError;
use crate::placement::responsible;
use crate::rs::RsError;
use crate::text::decimal;
use vstd::arithmetic::div_mod::{
    lemma_fundamental_div_mod,
    lemma_fundamental_div_mod_converse,
    lemma_small_mod,
};
use vstd::arithmetic::power2::pow2;
use vstd::prelude::*;
use vstd::string::*;

verus! {

// ---- hashing ----------------------------------------------------------------
/// From one key to the next the hash goes on by the same step round the circle of
/// all numbers of 64 bits.
pub proof fn keys_go_round_in_equal_steps(k: u64)
    requires
        k < u64::MAX,
    ensures
        golden(0) == 0,
        golden(1) == 0x9E37_79B9_7F4A_7C15,
        golden((k + 1) as u64) == (golden(k) + 0x9E37_79B9_7F4A_7C15) % 0x1_0000_0000_0000_0000,
{
    let m = 0x1_0000_0000_0000_0000int;
    let g = 0x9E37_79B9_7F4A_7C15int;
    assert((k + 1) * g == k * g + g) by (nonlinear_arith);
    assert((k * g + g) % m == ((k * g) % m + g) % m) by {
        vstd::arithmetic::div_mod::lemma_add_mod_noop(k * g, g, m);
        lemma_small_mod(g as nat, m as nat);
    }
    assert(0int * g == 0) by (nonlinear_arith);
    assert(1int * g == g) by (nonlinear_arith);
}

/// A shard is the part of the circle that the hash lies in, of `2^b` equal parts.
pub proof fn a_shard_is_a_part_of_the_circle(k: u64, b: u32)
    requires
        1 <= b <= 64,
    ensures
        shard(k, b) == golden(k) as nat / pow2((64 - b) as nat),
{
    vstd::bits::lemma_u64_shr_is_div(golden(k), (64 - b) as u64);
}

/// A key of 128 bits is hashed as the exclusive or of its halves.
pub proof fn halves_are_folded(lo: u64, hi: u64)
    ensures
        folded((hi as u128 * 0x1_0000_0000_0000_0000 + lo as u128) as u128) == lo ^ hi,
{
    let m = 0x1_0000_0000_0000_0000int;
    let key = hi as int * m + lo as int;
    assert(key <= u128::MAX) by (nonlinear_arith)
        requires
            key == hi as int * m + lo as int,
            hi <= u64::MAX,
            lo <= u64::MAX,
            m == 0x1_0000_0000_0000_0000int,
    ;
    lemma_fundamental_div_mod_converse(key, m, hi as int, lo as int);
}

// ---- the ring ---------------------------------------------------------------
/// A key belongs to the first place at or behind its own, and where there is none
/// to the first of all.
pub proof fn a_key_belongs_to_the_next_place(homes: Map<u64, u64>, key: u64, id: u64, other: u64)
    requires
        responsible(homes, key, id),
        homes.contains_key(other),
    ensures
        homes[id] >= golden(key) && homes[other] >= golden(key) ==> homes[id] <= homes[other],
        homes[id] < golden(key) ==> homes[other] < golden(key) && homes[id] <= homes[other],
        homes[other] >= golden(key) ==> homes[id] >= golden(key),
{
}

// ---- generations ------------------------------------------------------------
proof fn lemma_ceil(a: nat, b: nat)
    requires
        b > 0,
    ensures
        a <= ceil_div(a, b) * b < a + b,
{
    let n = a + b - 1;
    lemma_fundamental_div_mod(n, b as int);
    let q = n / b as int;
    let r = n % b as int;
    assert(q * b == n - r) by (nonlinear_arith)
        requires
            n == b * q + r,
    ;
    assert(q >= 0) by {
        vstd::arithmetic::div_mod::lemma_div_pos_is_pos(n, b as int);
    }
}

/// A payload takes as many generations as it fills, and no more.
pub proof fn generations_are_as_many_as_needed(len: nat, k: nat, s: nat)
    requires
        k > 0,
        s > 0,
        len > 0,
    ensures
        ({
            let n = generation_count(len, k, s);
            &&& len <= n * (k * s)
            &&& (n - 1) * (k * s) < len
        }),
{
    let symbols = ceil_div(len, s);
    let n = ceil_div(symbols, k);
    lemma_ceil(len, s);
    lemma_ceil(symbols, k);
    assert(len <= n * (k * s)) by (nonlinear_arith)
        requires
            len <= symbols * s,
            symbols <= n * k,
            s > 0,
    ;
    assert((n - 1) * (k * s) < len) by (nonlinear_arith)
        requires
            symbols * s < len + s,
            n * k < symbols + k,
            s > 0,
            k > 0,
    {
        assert((n - 1) * k <= symbols - 1);
        assert((n - 1) * k * s <= (symbols - 1) * s);
        assert((symbols - 1) * s == symbols * s - s);
        assert((n - 1) * (k * s) == (n - 1) * k * s);
    }
}

/// Byte by byte: generation by generation, symbol by symbol, the payload in order,
/// and noughts behind its end.
pub proof fn every_byte_has_its_place(payload: Seq<u8>, k: nat, s: nat, g: int, i: int, j: int)
    requires
        k > 0,
        s > 0,
        payload.len() > 0,
        0 <= g < generation_count(payload.len(), k, s),
        0 <= i < k,
        0 <= j < s,
    ensures
        ({
            let at = (g * k + i) * s + j;
            let src = generation_sources(payload, k, s, g);
            &&& src.len() == k
            &&& src[i].len() == s
            &&& at < payload.len() ==> src[i][j] == payload[at]
            &&& at >= payload.len() ==> src[i][j] == 0
        }),
{
    let n = generation_count(payload.len(), k, s);
    generations_are_as_many_as_needed(payload.len(), k, s);
    let whole = padded(payload, n * (k * s));
    let from = g * (k * s) + i * s;
    assert(from + j == (g * k + i) * s + j && 0 <= from && from + s <= n * (k * s))
        by (nonlinear_arith)
        requires
            from == g * (k * s) + i * s,
            0 <= g < n,
            0 <= i < k,
            0 <= j < s,
            s > 0,
    {
        assert(g * (k * s) == (g * k) * s);
        assert((g * k) * s + i * s == (g * k + i) * s);
        assert(g * k + i + 1 <= n * k) by {
            assert((g + 1) * k <= n * k);
            assert((g + 1) * k == g * k + k);
        }
        assert((g * k + i + 1) * s <= (n * k) * s);
        assert((n * k) * s == n * (k * s));
        assert((g * k + i + 1) * s == (g * k + i) * s + s);
    }
    let src = generation_sources(payload, k, s, g);
    assert(whole.len() == n * (k * s));
    assert(src[i] == whole.subrange(from, from + s));
    assert(src[i][j] == whole[from + j]);
}

/// What is sent goes generation by generation, and within one symbol by symbol.
pub proof fn symbols_are_sent_in_order(
    payload: Seq<u8>,
    k: nat,
    s: nat,
    thresholds: Seq<u64>,
    count: nat,
    n: nat,
    g: int,
    i: int,
)
    requires
        0 <= g < n,
        0 <= i < count,
    ensures
        ({
            let out = sent(payload, k, s, thresholds, count, n);
            &&& out.len() == n * count
            &&& g * count + i < out.len()
            &&& out[g * count + i] == sent_symbol(payload, k, s, thresholds, g, i)
            &&& out[g * count + i].0 == g as u32
        }),
    decreases n,
{
    let before = sent(payload, k, s, thresholds, count, (n - 1) as nat);
    lemma_sent_len(payload, k, s, thresholds, count, (n - 1) as nat);
    lemma_sent_len(payload, k, s, thresholds, count, n);
    if g < n - 1 {
        symbols_are_sent_in_order(payload, k, s, thresholds, count, (n - 1) as nat, g, i);
        assert((n - 1) * count + count == n * count) by (nonlinear_arith);
    } else {
        assert((n - 1) * count + count == n * count) by (nonlinear_arith);
        assert(g * count == (n - 1) * count);
    }
}

proof fn lemma_sent_len(
    payload: Seq<u8>,
    k: nat,
    s: nat,
    thresholds: Seq<u64>,
    count: nat,
    n: nat,
)
    ensures
        sent(payload, k, s, thresholds, count, n).len() == n * count,
    decreases n,
{
    if n > 0 {
        lemma_sent_len(payload, k, s, thresholds, count, (n - 1) as nat);
        assert((n - 1) * count + count == n * count) by (nonlinear_arith);
    } else {
        assert(0 * count == 0) by (nonlinear_arith);
    }
}

/// A group has its symbols in order.
pub proof fn groups_keep_the_order(n: nat, g: int, gi: int, a: int, b: int)
    requires
        0 <= a < b < owned_by(n, g, gi).len(),
    ensures
        owned_by(n, g, gi)[a] < owned_by(n, g, gi)[b] < n,
    decreases n,
{
    if n > 0 {
        let before = owned_by((n - 1) as nat, g, gi);
        if b < before.len() {
            groups_keep_the_order((n - 1) as nat, g, gi, a, b);
        } else {
            lemma_owned_below((n - 1) as nat, g, gi, a);
        }
    }
}

proof fn lemma_owned_below(n: nat, g: int, gi: int, a: int)
    requires
        0 <= a < owned_by(n, g, gi).len(),
    ensures
        owned_by(n, g, gi)[a] < n,
    decreases n,
{
    if n > 0 {
        if a < owned_by((n - 1) as nat, g, gi).len() {
            lemma_owned_below((n - 1) as nat, g, gi, a);
        }
    }
}

// ---- blocks -----------------------------------------------------------------
/// What is shorter than 32 bytes is passed through behind a nought; of the rest
/// the shorter of the two forms is taken, and what came is taken where they are
/// equally long.
pub proof fn the_shorter_form_is_taken(
    level: i32,
    dict: Seq<u8>,
    input: Seq<u8>,
    frame: Seq<u8>,
)
    requires
        zstd_frame(level, dict, input) == Ok::<Seq<u8>, Seq<char>>(frame),
    ensures
        input.len() < 32 ==> compressed(level, dict, input) == Ok::<Seq<u8>, CompressErrorView>(
            seq![0u8] + input,
        ),
        input.len() >= 32 && frame.len() + 1 < input.len() ==> compressed(level, dict, input)
            == Ok::<Seq<u8>, CompressErrorView>(seq![1u8] + frame),
        input.len() >= 32 && frame.len() + 1 >= input.len() ==> compressed(level, dict, input)
            == Ok::<Seq<u8>, CompressErrorView>(seq![0u8] + input),
{
}

/// What comes in is read by its first byte: a nought passes the rest through, and
/// anything but a nought or a one is refused and named.
pub proof fn blocks_are_read_by_their_first_byte(dict: Seq<u8>, rest: Seq<u8>, mark: u8)
    ensures
        decompressed(dict, seq![0u8] + rest) == Ok::<Seq<u8>, CompressErrorView>(rest),
        decompressed(dict, Seq::empty()) == Err::<Seq<u8>, _>(
            CompressErrorView::Decode("empty input"@),
        ),
        mark > 1 ==> decompressed(dict, seq![mark] + rest) == Err::<Seq<u8>, _>(
            CompressErrorView::Decode("unknown marker 0x"@ + hex(mark)),
        ),
{
    assert((seq![0u8] + rest).skip(1) =~= rest);
    assert((seq![mark] + rest)[0] == mark);
}

/// A packed block is unpacked with room for what it says that it holds, or else for
/// sixty-four times its length and a mebibyte.
pub proof fn how_much_room_a_block_gets(dict: Seq<u8>, body: Seq<u8>, content: Seq<u8>, n: u64)
    ensures
        zstd_size(body) == Some(n) && zstd_content(dict, body, n as nat) == Ok::<Seq<u8>, Seq<char>>(
            content,
        ) ==> decompressed(dict, seq![1u8] + body) == Ok::<Seq<u8>, CompressErrorView>(content),
        zstd_size(body) is None && zstd_content(dict, body, body.len() * 64 + 1_048_576) == Ok::<
            Seq<u8>,
            Seq<char>,
        >(content) ==> decompressed(dict, seq![1u8] + body) == Ok::<Seq<u8>, CompressErrorView>(
            content,
        ),
{
    assert((seq![1u8] + body).skip(1) =~= body);
}

/// A byte in hexadecimal, in one digit or two.
pub proof fn bytes_in_hexadecimal(b: u8)
    ensures
        b < 16 ==> hex(b).len() == 1,
        b >= 16 ==> hex(b).len() == 2,
        hex_amount(hex(b)) == b,
        hex(255) == seq!['f', 'f'],
{
    reveal_with_fuel(hex_amount, 3);
    if b < 16 {
        assert(hex(b).drop_last() =~= Seq::<char>::empty());
    } else {
        let h = hex(b);
        assert(h.drop_last().drop_last() =~= Seq::<char>::empty());
        assert(h.drop_last().last() == h[0]);
    }
    assert(hex(255) =~= seq!['f', 'f']);
}

/// What hexadecimal digits amount to.
pub open spec fn hex_amount(d: Seq<char>) -> int
    decreases d.len(),
{
    if d.len() == 0 {
        0
    } else {
        16 * hex_amount(d.drop_last()) + (if '0' <= d.last() <= '9' {
            d.last() as int - '0' as int
        } else {
            d.last() as int - 'a' as int + 10
        })
    }
}

/// What two texts of bytes have in common at their start: as much is the same, and
/// then one ends or they differ.
pub proof fn what_is_in_common(a: Seq<u8>, b: Seq<u8>)
    ensures
        ({
            let n = common_prefix(a, b) as int;
            &&& n <= a.len()
            &&& n <= b.len()
            &&& a.take(n) == b.take(n)
            &&& n < a.len() && n < b.len() ==> a[n] != b[n]
        }),
    decreases a.len(),
{
    let n = common_prefix(a, b) as int;
    if a.len() == 0 || b.len() == 0 || a[0] != b[0] {
        assert(a.take(0) =~= b.take(0));
    } else {
        what_is_in_common(a.skip(1), b.skip(1));
        let m = n - 1;
        assert(a.take(n) =~= seq![a[0]] + a.skip(1).take(m));
        assert(b.take(n) =~= seq![b[0]] + b.skip(1).take(m));
        if n < a.len() && n < b.len() {
            assert(a.skip(1)[m] == a[n]);
            assert(b.skip(1)[m] == b[n]);
        }
    }
}

/// Of candidates that have as much in common the last is picked.
pub proof fn the_last_of_the_best_is_picked(
    input: Seq<u8>,
    candidates: Seq<&[u8]>,
    n: nat,
    k: int,
)
    requires
        best_reference(input, candidates, n) < k < n <= candidates.len(),
    ensures
        common_prefix(input, candidates[k]@) < common_prefix(
            input,
            candidates[best_reference(input, candidates, n)]@,
        ),
    decreases n,
{
    if n > 1 {
        if k < n - 1 {
            the_last_of_the_best_is_picked(input, candidates, (n - 1) as nat, k);
        }
    }
}

/// A dictionary is filled from the newest sample to the oldest, three times over:
/// with fronts, with ends, and with fronts again, each as far as there is room.
pub proof fn how_a_dictionary_is_filled(samples: Seq<Seq<u8>>, target: nat, pass: nat, k: nat)
    requires
        pass < 3,
        k < samples.len(),
    ensures
        ({
            let m = samples.len();
            let before = trained(samples, target, pass * m + k);
            let after = trained(samples, target, pass * m + k + 1);
            let x = samples[m - 1 - k];
            let room = target - before.len();
            &&& before.len() <= target
            &&& x.len() <= room ==> after == before + x
            &&& x.len() > room && pass != 1 ==> after == before + x.take(room)
            &&& x.len() > room && pass == 1 ==> after == before + x.skip(x.len() - room)
        }),
        trained(samples, target, 0).len() == 0,
{
    let m = samples.len() as int;
    let n = pass * m + k;
    lemma_trained_fits(samples, target, n as nat);
    assert(n >= 0) by (nonlinear_arith)
        requires
            n == pass * m + k,
            m >= 0,
    ;
    lemma_fundamental_div_mod_converse(n, m, pass as int, k as int);
}

proof fn lemma_trained_fits(samples: Seq<Seq<u8>>, target: nat, n: nat)
    ensures
        trained(samples, target, n).len() <= target,
    decreases n,
{
    if n > 0 && samples.len() > 0 {
        lemma_trained_fits(samples, target, (n - 1) as nat);
    }
}

// ---- what errors say --------------------------------------------------------
/// Errors name what they are about, with the numbers in their order.
pub proof fn errors_name_their_numbers(a: usize, b: usize, x: u64, y: u64, t: Seq<char>)
    ensures
        FountainError::Empty.says() == "empty generation"@,
        (FountainError::Underdetermined { have: a, need: b }).says() == "decode failed: only "@
            + decimal(a as nat) + " of "@ + decimal(b as nat) + " independent symbols"@,
        (FountainError::SizeMismatch { a, b }).says() == "symbol size mismatch: "@ + decimal(
            a as nat,
        ) + " vs "@ + decimal(b as nat),
        RsError::Empty.says() == "empty generation"@,
        (RsError::SizeMismatch { a, b }).says() == "symbol size mismatch: "@ + decimal(a as nat)
            + " vs "@ + decimal(b as nat),
        (RsError::Insufficient { have: a, need: b }).says() == "need "@ + decimal(b as nat)
            + " symbols, have "@ + decimal(a as nat),
        BulkError::Empty.says() == "empty bulk payload"@,
        (BulkError::SizeMismatch { a, b }).says() == "size mismatch: "@ + decimal(a as nat)
            + " vs "@ + decimal(b as nat),
        (HomoHashError::Length { a, b }).says() == "coefficient vector length mismatch: "@
            + decimal(a as nat) + " vs "@ + decimal(b as nat),
        (CayleyError::OutOfRange { id: a, n: b }).says() == "node id "@ + decimal(a as nat)
            + " out of range for n="@ + decimal(b as nat),
        (CayleyError::NoPath { from: a, to: b }).says() == "no path found "@ + decimal(a as nat)
            + "->"@ + decimal(b as nat),
        HierError::Empty.says() == "empty context"@,
        CompressErrorView::Encode(t).says() == "zstd encode: "@ + t,
        CompressErrorView::Decode(t).says() == "zstd decode: "@ + t,
        (CompressErrorView::DictId { expected: x, got: y }).says()
            == "dictionary id mismatch: expected "@ + decimal(x as nat) + " got "@ + decimal(
            y as nat,
        ),
{
}

} // verus!
