//! What the draws behind repair symbols are good for: no two repair symbols of a
//! generation start from the same state, every number can be drawn, and what a
//! symbol says it combines is what it combines.
use crate::fountain::{
    below,
    degree_for,
    diffuse,
    drawn,
    drawn_coeffs,
    pair_bytes,
    picked_sources,
    produced_wire,
    repair_degree,
    repair_seed,
    repair_sources,
    repair_wire,
    seed_state,
    state_after,
    wire_format,
    wire_header,
    wire_pairs,
    GOLDEN_GAMMA,
};
use vstd::arithmetic::div_mod::{
    lemma_mod_multiples_vanish,
    lemma_mul_mod_noop_left,
    lemma_small_mod,
};
use vstd::arithmetic::mul::lemma_mul_is_associative;
use vstd::prelude::*;

verus! {

/// One more than the largest number of 64 bits.
spec fn modulus() -> int {
    0x1_0000_0000_0000_0000
}

/// A product modulo `2^64` is undone by the inverse of its factor.
proof fn lemma_undone(x: int, f: int, i: int, q: int)
    requires
        0 <= x < modulus(),
        f * i == modulus() * q + 1,
    ensures
        (((x * f) % modulus()) * i) % modulus() == x,
{
    let m = modulus();
    lemma_mul_mod_noop_left(x * f, i, m);
    lemma_mul_is_associative(x, f, i);
    assert(x * (m * q + 1) == m * (x * q) + x) by (nonlinear_arith);
    lemma_mod_multiples_vanish(x * q, x, m);
    lemma_small_mod(x as nat, m as nat);
}

/// What `diffuse` made its argument from.
pub open spec fn gathered(y: u64) -> u64 {
    let b = y ^ (y >> 31u64) ^ (y >> 62u64);
    let c = b.wrapping_mul(3573116690164977347);
    let a = c ^ (c >> 27u64) ^ (c >> 54u64);
    let d = a.wrapping_mul(10871156337175269513);
    d ^ (d >> 30u64) ^ (d >> 60u64)
}

/// Mixing loses nothing: what went in can be had back, and everything comes out
/// of something.
pub proof fn mixing_can_be_undone(z: u64)
    ensures
        gathered(diffuse(z)) == z,
        diffuse(gathered(z)) == z,
{
    let p = 0xBF58_476D_1CE4_E5B9int;
    let pi = 10871156337175269513int;
    let pq = 8125545580553827436int;
    let r = 0x94D0_49BB_1331_11EBint;
    let ri = 3573116690164977347int;
    let rq = 2077064247507883091int;
    assert(p * pi == modulus() * pq + 1);
    assert(r * ri == modulus() * rq + 1);
    assert(pi * p == modulus() * pq + 1);
    assert(ri * r == modulus() * rq + 1);
    {
        let u = z ^ (z >> 30u64);
        let a = u.wrapping_mul(0xBF58_476D_1CE4_E5B9);
        let v = a ^ (a >> 27u64);
        let b = v.wrapping_mul(0x94D0_49BB_1331_11EB);
        let y = b ^ (b >> 31u64);
        assert(y ^ (y >> 31u64) ^ (y >> 62u64) == b) by (bit_vector)
            requires
                y == b ^ (b >> 31u64),
        ;
        lemma_undone(v as int, r, ri, rq);
        assert(b.wrapping_mul(3573116690164977347) == v);
        assert(v ^ (v >> 27u64) ^ (v >> 54u64) == a) by (bit_vector)
            requires
                v == a ^ (a >> 27u64),
        ;
        lemma_undone(u as int, p, pi, pq);
        assert(a.wrapping_mul(10871156337175269513) == u);
        assert(u ^ (u >> 30u64) ^ (u >> 60u64) == z) by (bit_vector)
            requires
                u == z ^ (z >> 30u64),
        ;
    }
    {
        let b = z ^ (z >> 31u64) ^ (z >> 62u64);
        let c = b.wrapping_mul(3573116690164977347);
        let a = c ^ (c >> 27u64) ^ (c >> 54u64);
        let d = a.wrapping_mul(10871156337175269513);
        let x = d ^ (d >> 30u64) ^ (d >> 60u64);
        assert(x ^ (x >> 30u64) == d) by (bit_vector)
            requires
                x == d ^ (d >> 30u64) ^ (d >> 60u64),
        ;
        lemma_undone(a as int, pi, p, pq);
        assert(d.wrapping_mul(0xBF58_476D_1CE4_E5B9) == a);
        assert(a ^ (a >> 27u64) == c) by (bit_vector)
            requires
                a == c ^ (c >> 27u64) ^ (c >> 54u64),
        ;
        lemma_undone(b as int, ri, r, rq);
        assert(c.wrapping_mul(0x94D0_49BB_1331_11EB) == b);
        assert(b ^ (b >> 31u64) == z) by (bit_vector)
            requires
                b == z ^ (z >> 31u64) ^ (z >> 62u64),
        ;
    }
}

/// Different seeds start from different states.
pub proof fn seeds_start_apart(a: u64, b: u64)
    requires
        seed_state(a) == seed_state(b),
    ensures
        a == b,
{
    let g = 0x9E37_79B9_7F4A_7C15int;
    let gi = 17428512612931826493int;
    let gq = 10771413168148108919int;
    assert(g * gi == modulus() * gq + 1);
    let x = a.wrapping_mul(GOLDEN_GAMMA).wrapping_add(0xA5A5_A5A5);
    let y = b.wrapping_mul(GOLDEN_GAMMA).wrapping_add(0xA5A5_A5A5);
    mixing_can_be_undone(x);
    mixing_can_be_undone(y);
    assert(x == y);
    lemma_undone(a as int, g, gi, gq);
    lemma_undone(b as int, g, gi, gq);
}

/// The seed of a repair symbol is its index below and its generation above, so
/// that the symbols of a generation, and of different generations, are drawn
/// from seeds of their own, and from states of their own.
pub proof fn every_repair_symbol_has_a_seed_of_its_own(g: u32, i: u64, h: u32, j: u64)
    requires
        g < 0x100_0000,
        h < 0x100_0000,
        i < 0x100_0000_0000,
        j < 0x100_0000_0000,
    ensures
        repair_seed(g, i) == g * 0x100_0000_0000 + i,
        (g, i) != (h, j) ==> repair_seed(g, i) != repair_seed(h, j),
        (g, i) != (h, j) ==> seed_state(repair_seed(g, i)) != seed_state(repair_seed(h, j)),
        (g, i) != (h, j) ==> state_after(seed_state(repair_seed(g, i)), 1) != state_after(
            seed_state(repair_seed(h, j)),
            1,
        ),
{
    lemma_seed(g, i);
    lemma_seed(h, j);
    let a = repair_seed(g, i);
    let b = repair_seed(h, j);
    if seed_state(a) == seed_state(b) {
        seeds_start_apart(a, b);
    }
    reveal_with_fuel(state_after, 2);
}

proof fn lemma_seed(g: u32, i: u64)
    requires
        g < 0x100_0000,
        i < 0x100_0000_0000,
    ensures
        repair_seed(g, i) == g * 0x100_0000_0000 + i,
{
    assert(((g as u64) << 40u64) | i == g * 0x100_0000_0000 + i) by (bit_vector)
        requires
            g < 0x100_0000,
            i < 0x100_0000_0000,
    ;
}

/// Every number below `n` can be drawn.
pub proof fn every_number_can_be_drawn(n: int, v: int) -> (state: u64)
    requires
        0 <= v < n <= 0x100_0000,
    ensures
        below(state, n) == v,
{
    let want = (v * 0x100_0000_0000) as u64;
    let state = gathered(want);
    mixing_can_be_undone(want);
    let w = v as u64;
    assert(want >> 40u64 == w) by (bit_vector)
        requires
            want == w * 0x100_0000_0000,
            w < 0x100_0000,
    ;
    lemma_small_mod(v as nat, n as nat);
    state
}

/// The degree is the first whose threshold is not exceeded: every smaller degree
/// has a threshold below the draw, and its own, unless it is as large as degrees
/// get, is not.
pub proof fn the_degree_is_a_quantile(thresholds: Seq<u64>, r: u64, k: nat)
    requires
        0 < k,
        thresholds.len() == k,
    ensures
        1 <= degree_for(thresholds, r, 0, k) <= k,
        forall|d: int|
            1 <= d < degree_for(thresholds, r, 0, k) ==> #[trigger] thresholds[d - 1] < r,
        degree_for(thresholds, r, 0, k) < k ==> r <= thresholds[degree_for(thresholds, r, 0, k) - 1],
{
    lemma_degree(thresholds, r, 0, k);
}

proof fn lemma_degree(thresholds: Seq<u64>, r: u64, i: nat, k: nat)
    requires
        0 < k,
        thresholds.len() == k,
        i <= k,
        forall|d: int| 1 <= d <= i ==> #[trigger] thresholds[d - 1] < r,
    ensures
        1 <= degree_for(thresholds, r, i, k) <= k,
        forall|d: int|
            1 <= d < degree_for(thresholds, r, i, k) ==> #[trigger] thresholds[d - 1] < r,
        degree_for(thresholds, r, i, k) < k ==> r <= thresholds[degree_for(thresholds, r, i, k) - 1],
    decreases k - i,
{
    if i < thresholds.len() && thresholds[i as int] < r {
        lemma_degree(thresholds, r, i + 1, k);
    }
}

/// The sources that are picked, from some that were: all of them are there, they
/// are different, and they are as many as were asked for unless ten draws for
/// each source have been made.
proof fn lemma_picks(state: u64, k: nat, degree: nat, chosen: Seq<int>, guard: nat)
    requires
        k > 0,
        chosen.len() <= degree,
        guard <= 10 * k,
        forall|i: int| 0 <= i < chosen.len() ==> 0 <= #[trigger] chosen[i] < k,
        chosen.no_duplicates(),
        guard > 0 ==> chosen.len() > 0,
    ensures
        ({
            let out = picked_sources(state, k, degree, chosen, guard).0;
            &&& chosen.len() <= out.len() <= degree
            &&& out.no_duplicates()
            &&& forall|i: int| 0 <= i < out.len() ==> 0 <= #[trigger] out[i] < k
            &&& degree > 0 ==> out.len() > 0
            &&& out.take(chosen.len() as int) == chosen
        }),
    decreases 10 * k - guard,
{
    let out = picked_sources(state, k, degree, chosen, guard).0;
    if chosen.len() < degree && guard < 10 * k {
        let next = state_after(state, 1);
        let idx = below(next, k as int);
        assert(0 <= idx < k);
        let grown = if chosen.contains(idx) {
            chosen
        } else {
            chosen.push(idx)
        };
        if guard == 0 && chosen.len() > 0 {
            assert(grown.len() > 0);
        }
        lemma_picks(next, k, degree, grown, guard + 1);
        assert(out.take(chosen.len() as int) =~= chosen) by {
            assert(out.take(grown.len() as int) == grown);
            assert forall|i: int| 0 <= i < chosen.len() implies out[i] == chosen[i] by {
                assert(out.take(grown.len() as int)[i] == grown[i]);
            }
        }
    } else {
        assert(out.take(chosen.len() as int) =~= chosen);
    }
}

/// A repair symbol combines at least one source and no more than its degree, each
/// of them once, and none with a coefficient of zero.
pub proof fn a_repair_symbol_combines_different_sources(
    thresholds: Seq<u64>,
    k: nat,
    generation: u32,
    index: u64,
)
    requires
        0 < k,
        thresholds.len() == k,
    ensures
        ({
            let (chosen, state) = repair_sources(thresholds, k, generation, index);
            &&& 1 <= chosen.len() <= repair_degree(thresholds, k, generation, index) <= k
            &&& chosen.no_duplicates()
            &&& forall|q: int| 0 <= q < chosen.len() ==> 0 <= #[trigger] chosen[q] < k
            &&& forall|q: int|
                0 <= q < chosen.len() ==> #[trigger] drawn_coeffs(state, chosen.len())[q] != 0
        }),
{
    let first = state_after(seed_state(repair_seed(generation, index)), 1);
    let degree = repair_degree(thresholds, k, generation, index);
    the_degree_is_a_quantile(thresholds, drawn(first) >> 11u64, k);
    lemma_picks(first, k, degree, Seq::empty(), 0);
    let (chosen, state) = repair_sources(thresholds, k, generation, index);
    assert forall|q: int| 0 <= q < chosen.len() implies #[trigger] drawn_coeffs(
        state,
        chosen.len(),
    )[q] != 0 by {
        let b = drawn(state_after(state, (q + 1) as nat)) as u8;
        assert(b | 1u8 != 0) by (bit_vector);
    }
}

/// A repair symbol is drawn from the seed that is its index below and its
/// generation above: its degree from the first draw, its sources from the draws
/// that follow, its coefficients from those behind.
pub proof fn a_repair_symbol_is_drawn_from_its_index(
    source: Seq<Seq<u8>>,
    s: int,
    thresholds: Seq<u64>,
    generation: u32,
    index: u64,
)
    requires
        0 < source.len(),
        generation < 0x100_0000,
        index < 0x100_0000_0000,
    ensures
        ({
            let k = source.len();
            let first = state_after(seed_state((generation * 0x100_0000_0000 + index) as u64), 1);
            let degree = degree_for(thresholds, drawn(first) >> 11u64, 0, k);
            let (chosen, state) = picked_sources(first, k, degree, Seq::empty(), 0);
            &&& repair_sources(thresholds, k, generation, index) == (chosen, state)
            &&& repair_degree(thresholds, k, generation, index) == degree
            &&& exists|payload: Seq<u8>| #[trigger]
                wire_format(chosen, drawn_coeffs(state, chosen.len()), payload) == repair_wire(
                    source,
                    s,
                    thresholds,
                    generation,
                    index,
                )
        }),
{
    lemma_seed(generation, index);
    let (chosen, state) = repair_sources(thresholds, source.len(), generation, index);
    let coeffs = drawn_coeffs(state, chosen.len());
    let payload = crate::fountain::blended(source, chosen, coeffs, s, chosen.len());
    assert(wire_format(chosen, coeffs, payload) == repair_wire(
        source,
        s,
        thresholds,
        generation,
        index,
    ));
}

// ---- what is sent -----------------------------------------------------------
proof fn lemma_pairs(chosen: Seq<int>, coeffs: Seq<u8>, n: nat, q: int)
    requires
        n <= chosen.len(),
        n <= coeffs.len(),
    ensures
        pair_bytes(chosen, coeffs, n).len() == 3 * n,
        0 <= q < n ==> {
            let b = pair_bytes(chosen, coeffs, n);
            &&& b[3 * q] == (chosen[q] % 256) as u8
            &&& b[3 * q + 1] == (chosen[q] / 256 % 256) as u8
            &&& b[3 * q + 2] == coeffs[q]
        },
    decreases n,
{
    if n > 0 {
        lemma_pairs(chosen, coeffs, (n - 1) as nat, q);
    }
}

/// A coded symbol on the wire: how many sources it combines, each of them with its
/// coefficient, numbers in two bytes with the lower first, and the combination.
pub proof fn what_a_symbol_looks_like(
    chosen: Seq<int>,
    coeffs: Seq<u8>,
    payload: Seq<u8>,
    q: int,
    t: int,
)
    requires
        coeffs.len() == chosen.len(),
        chosen.len() < 0x1_0000,
    ensures
        ({
            let n = chosen.len() as int;
            let w = wire_format(chosen, coeffs, payload);
            &&& w.len() == 2 + 3 * n + payload.len()
            &&& w[0] as int + 256 * (w[1] as int) == n
            &&& 0 <= q < n && 0 <= chosen[q] < 0x1_0000 ==> {
                &&& w[2 + 3 * q] as int + 256 * (w[2 + 3 * q + 1] as int) == chosen[q]
                &&& w[2 + 3 * q + 2] == coeffs[q]
            }
            &&& 0 <= t < payload.len() ==> w[2 + 3 * n + t] == payload[t]
            &&& wire_pairs(w) == n
            &&& wire_header(w) == 2 + 3 * n
        }),
{
    let n = chosen.len() as int;
    lemma_pairs(chosen, coeffs, chosen.len(), q);
    let w = wire_format(chosen, coeffs, payload);
    let b = pair_bytes(chosen, coeffs, chosen.len());
    if 0 <= q < n {
        assert(w[2 + 3 * q] == b[3 * q]);
        assert(w[2 + 3 * q + 1] == b[3 * q + 1]);
        assert(w[2 + 3 * q + 2] == b[3 * q + 2]);
    }
}

/// The first symbols are the sources as they are; behind them come the repair
/// symbols, numbered from the one after the last that was produced.
pub proof fn what_is_produced(
    source: Seq<Seq<u8>>,
    s: int,
    thresholds: Seq<u64>,
    generation: u32,
    repairs: u64,
    i: int,
)
    requires
        0 <= i,
        source.len() < 0x1_0000,
        repairs + i + 1 <= u64::MAX,
    ensures
        i < source.len() ==> {
            let w = produced_wire(source, s, thresholds, generation, repairs, i);
            &&& w.len() == 5 + source[i].len()
            &&& w[0] == 1 && w[1] == 0
            &&& w[2] as int + 256 * (w[3] as int) == i
            &&& w[4] == 1
            &&& w.skip(5) == source[i]
        },
        i >= source.len() ==> produced_wire(source, s, thresholds, generation, repairs, i)
            == repair_wire(
            source,
            s,
            thresholds,
            generation,
            (repairs + 1 + (i - source.len())) as u64,
        ),
{
    if i < source.len() {
        let w = produced_wire(source, s, thresholds, generation, repairs, i);
        what_a_symbol_looks_like(seq![i], seq![1u8], source[i], 0, 0);
        assert(w.skip(5) =~= source[i]) by {
            assert forall|t: int| 0 <= t < source[i].len() implies w.skip(5)[t] == source[i][t] by {
                what_a_symbol_looks_like(seq![i], seq![1u8], source[i], 0, t);
            }
        }
    }
}

} // verus!
