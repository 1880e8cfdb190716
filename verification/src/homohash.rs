//! A homomorphic hash for coded blocks: the hash of a combination follows from
//! the hashes of its parts, so that a coded block is checked without decoding it.
//!
//! The hash of a coefficient vector `c` is the product of `g_i^{c_i}` modulo the
//! Mersenne prime `2^61 - 1`. Every `g_i` is a power of one generator of the
//! subgroup of order `Q`, a prime that divides `2^61 - 2`. Exponents therefore
//! count modulo `Q`, and combining vectors over `GF(Q)` combines their hashes.
use crate::text::{decimal, number};
use std::collections::HashMap;
use vstd::arithmetic::div_mod::{
    lemma_fundamental_div_mod,
    lemma_mod_multiples_vanish,
    lemma_mul_mod_noop_left,
    lemma_mul_mod_noop_right,
    lemma_small_mod,
};
use vstd::arithmetic::mul::{lemma_mul_is_associative, lemma_mul_is_commutative};
use vstd::prelude::*;
use vstd::string::*;

verus! {

broadcast use vstd::std_specs::hash::group_hash_axioms;

/// The hash modulus, `2^61 - 1`.
pub const P: u128 = 2305843009213693951;

/// The order of the coding field, a prime that divides `P - 1`.
pub const Q: u32 = 1321;

/// The exponent that maps an element of the group into the subgroup of order
/// `Q`: `(P - 1) / Q`.
pub const COFACTOR: u128 = 1745528394559950;

/// The generator of the subgroup: 3 to the cofactor. The power of 2 is 1.
pub const GENERATOR: u128 = 234060095121088422;

/// What can go wrong.
#[derive(Debug, Clone, Copy, PartialEq, Eq, Structural)]
pub enum HomoHashError {
    /// Two lengths that should be the same.
    Length { a: usize, b: usize },
}

impl HomoHashError {
    /// What the error says.
    pub open spec fn says(self) -> Seq<char> {
        match self {
            HomoHashError::Length { a, b } => "coefficient vector length mismatch: "@ + decimal(
                a as nat,
            ) + " vs "@ + decimal(b as nat),
        }
    }

    /// What the error says.
    pub fn message(&self) -> (r: String)
        ensures
            r@ == self.says(),
    {
        match self {
            HomoHashError::Length { a, b } => "coefficient vector length mismatch: ".to_owned().concat(
                number(*a as u64).as_str(),
            ).concat(" vs ").concat(number(*b as u64).as_str()),
        }
    }
}

// ---- arithmetic modulo P ----------------------------------------------------
/// The product modulo `P`.
#[verifier::opaque]
pub open spec fn times(a: int, b: int) -> int {
    (a * b) % (P as int)
}

/// A power modulo `P`.
pub open spec fn raised(b: int, e: nat) -> int
    decreases e,
{
    if e == 0 {
        1
    } else {
        times(b, raised(b, (e - 1) as nat))
    }
}

/// Reduced modulo `P`.
pub open spec fn reduced(a: int) -> bool {
    0 <= a < P
}

proof fn lemma_times_range(a: int, b: int)
    ensures
        reduced(times(a, b)),
{
    reveal(times);
}

proof fn lemma_times_commutes(a: int, b: int)
    ensures
        times(a, b) == times(b, a),
{
    reveal(times);
    lemma_mul_is_commutative(a, b);
}

proof fn lemma_times_one(a: int)
    requires
        reduced(a),
    ensures
        times(a, 1) == a,
        times(1, a) == a,
{
    reveal(times);
    lemma_small_mod(a as nat, P as nat);
}

proof fn lemma_times_associates(a: int, b: int, c: int)
    ensures
        times(times(a, b), c) == times(a, times(b, c)),
{
    reveal(times);
    let p = P as int;
    lemma_mul_mod_noop_left(a * b, c, p);
    lemma_mul_mod_noop_right(a, b * c, p);
    lemma_mul_is_associative(a, b, c);
}

proof fn lemma_times_reduces(a: int, b: int)
    ensures
        times(a % (P as int), b) == times(a, b),
{
    reveal(times);
    lemma_mul_mod_noop_left(a, b, P as int);
}

proof fn lemma_raised_range(b: int, e: nat)
    ensures
        reduced(raised(b, e)),
    decreases e,
{
    if e > 0 {
        lemma_times_range(b, raised(b, (e - 1) as nat));
    }
}

proof fn lemma_raised_reduces(b: int, e: nat)
    ensures
        raised(b % (P as int), e) == raised(b, e),
    decreases e,
{
    if e > 0 {
        lemma_raised_reduces(b, (e - 1) as nat);
        lemma_times_reduces(b, raised(b, (e - 1) as nat));
    }
}

/// A sum of exponents is a product of powers.
pub proof fn lemma_raised_adds(b: int, x: nat, y: nat)
    ensures
        raised(b, x + y) == times(raised(b, x), raised(b, y)),
    decreases x,
{
    lemma_raised_range(b, y);
    if x == 0 {
        lemma_times_one(raised(b, y));
    } else {
        let z = (x - 1) as nat;
        lemma_raised_adds(b, z, y);
        assert((x + y - 1) as nat == z + y);
        lemma_times_associates(b, raised(b, z), raised(b, y));
    }
}

/// The power of a product is the product of the powers.
proof fn lemma_raised_distributes(a: int, b: int, e: nat)
    ensures
        raised(times(a, b), e) == times(raised(a, e), raised(b, e)),
    decreases e,
{
    if e == 0 {
        lemma_times_one(1);
    } else {
        let d = (e - 1) as nat;
        lemma_raised_distributes(a, b, d);
        let (x, y) = (raised(a, d), raised(b, d));
        lemma_times_associates(a, b, times(x, y));
        lemma_times_associates(b, x, y);
        lemma_times_commutes(b, x);
        lemma_times_associates(x, b, y);
        lemma_times_associates(a, x, times(b, y));
    }
}

/// A power of a power multiplies the exponents.
proof fn lemma_raised_multiplies(b: int, x: nat, y: nat)
    ensures
        raised(raised(b, x), y) == raised(b, x * y),
    decreases y,
{
    if y == 0 {
        assert(x * y == 0) by (nonlinear_arith)
            requires
                y == 0,
        ;
    } else {
        let z = (y - 1) as nat;
        lemma_raised_multiplies(b, x, z);
        lemma_raised_adds(b, x, x * z);
        assert(x * y == x + x * z) by (nonlinear_arith)
            requires
                y == z + 1,
        ;
    }
}

proof fn lemma_one_raised(e: nat)
    ensures
        raised(1, e) == 1,
    decreases e,
{
    if e > 0 {
        lemma_one_raised((e - 1) as nat);
        lemma_times_one(1);
    }
}

/// Squaring doubles the exponent.
proof fn lemma_double(b: int, e: nat, r: int, s: int)
    requires
        raised(b, e) == r,
        (r * r) % (P as int) == s,
    ensures
        raised(b, 2 * e) == s,
{
    lemma_raised_adds(b, e, e);
    reveal(times);
}

/// One factor more raises the exponent by one.
proof fn lemma_next(b: int, e: nat, r: int, s: int)
    requires
        raised(b, e) == r,
        (r * b) % (P as int) == s,
    ensures
        raised(b, e + 1) == s,
{
    lemma_times_commutes(b, r);
    reveal(times);
}

proof fn lemma_first(b: int)
    requires
        reduced(b),
    ensures
        raised(b, 1) == b,
{
    reveal_with_fuel(raised, 2);
    lemma_times_one(b);
}

/// The generator is 3 to the cofactor.
pub proof fn the_generator_is_a_power_of_three()
    ensures
        raised(3, COFACTOR as nat) == GENERATOR,
        COFACTOR * Q == P - 1,
{
    lemma_first(3);
    lemma_double(3, 1, 3, 9);
    lemma_next(3, 2, 9, 27);
    lemma_double(3, 3, 27, 729);
    lemma_double(3, 6, 729, 531441);
    lemma_double(3, 12, 531441, 282429536481);
    lemma_double(3, 24, 282429536481, 415859143195016418);
    lemma_next(3, 48, 415859143195016418, 1247577429585049254);
    lemma_double(3, 49, 1247577429585049254, 1155415700553981101);
    lemma_next(3, 98, 1155415700553981101, 1160404092448249352);
    lemma_double(3, 99, 1160404092448249352, 1328180634344024159);
    lemma_double(3, 198, 1328180634344024159, 1464718860165815747);
    lemma_double(3, 396, 1464718860165815747, 766299625799629568);
    lemma_next(3, 792, 766299625799629568, 2298898877398888704);
    lemma_double(3, 793, 2298898877398888704, 523610984824590157);
    lemma_next(3, 1586, 523610984824590157, 1570832954473770471);
    lemma_double(3, 1587, 1570832954473770471, 668161418293057455);
    lemma_next(3, 3174, 668161418293057455, 2004484254879172365);
    lemma_double(3, 3175, 2004484254879172365, 264425218880382985);
    lemma_double(3, 6350, 264425218880382985, 581067495839521030);
    lemma_double(3, 12700, 581067495839521030, 1816030946806410259);
    lemma_double(3, 25400, 1816030946806410259, 1960474614478879297);
    lemma_next(3, 50800, 1960474614478879297, 1269737825009249989);
    lemma_double(3, 50801, 1269737825009249989, 1100251171398639805);
    lemma_next(3, 101602, 1100251171398639805, 994910504982225464);
    lemma_double(3, 101603, 994910504982225464, 1553077619307866892);
    lemma_double(3, 203206, 1553077619307866892, 1170198575279511058);
    lemma_double(3, 406412, 1170198575279511058, 1420812678333556111);
    lemma_double(3, 812824, 1420812678333556111, 1988333700714347070);
    lemma_next(3, 1625648, 1988333700714347070, 1353315083715653308);
    lemma_double(3, 1625649, 1353315083715653308, 1854495074301014108);
    lemma_next(3, 3251298, 1854495074301014108, 951799204475654422);
    lemma_double(3, 3251299, 951799204475654422, 1807254482693527389);
    lemma_next(3, 6502598, 1807254482693527389, 810077429653194265);
    lemma_double(3, 6502599, 810077429653194265, 522441735905153378);
    lemma_next(3, 13005198, 522441735905153378, 1567325207715460134);
    lemma_double(3, 13005199, 1567325207715460134, 1764770998429932889);
    lemma_next(3, 26010398, 1764770998429932889, 682626976862410765);
    lemma_double(3, 26010399, 682626976862410765, 557518177506345922);
    lemma_next(3, 52020798, 557518177506345922, 1672554532519037766);
    lemma_double(3, 52020799, 1672554532519037766, 16864261705868647);
    lemma_next(3, 104041598, 16864261705868647, 50592785117605941);
    lemma_double(3, 104041599, 50592785117605941, 256389829298327478);
    lemma_next(3, 208083198, 256389829298327478, 769169487894982434);
    lemma_double(3, 208083199, 769169487894982434, 259119855311330045);
    lemma_next(3, 416166398, 259119855311330045, 777359565933990135);
    lemma_double(3, 416166399, 777359565933990135, 561982175519749197);
    lemma_next(3, 832332798, 561982175519749197, 1685946526559247591);
    lemma_double(3, 832332799, 1685946526559247591, 885532318674215463);
    lemma_double(3, 1664665598, 885532318674215463, 361022523921720212);
    lemma_double(3, 3329331196, 361022523921720212, 1152443494844772159);
    lemma_next(3, 6658662392, 1152443494844772159, 1151487475320622526);
    lemma_double(3, 6658662393, 1151487475320622526, 2126996615126532165);
    lemma_next(3, 13317324786, 2126996615126532165, 1769303826952208593);
    lemma_double(3, 13317324787, 1769303826952208593, 366215019931304376);
    lemma_next(3, 26634649574, 366215019931304376, 1098645059793913128);
    lemma_double(3, 26634649575, 1098645059793913128, 2116530637475948956);
    lemma_double(3, 53269299150, 2116530637475948956, 1793048620614327098);
    lemma_double(3, 106538598300, 1793048620614327098, 170359913505494850);
    lemma_next(3, 213077196600, 170359913505494850, 511079740516484550);
    lemma_double(3, 213077196601, 511079740516484550, 322248238582592919);
    lemma_next(3, 426154393202, 322248238582592919, 966744715747778757);
    lemma_double(3, 426154393203, 966744715747778757, 2236428989434070131);
    lemma_double(3, 852308786406, 2236428989434070131, 1427416772757662333);
    lemma_double(3, 1704617572812, 1427416772757662333, 1397450625761400429);
    lemma_double(3, 3409235145624, 1397450625761400429, 2256729561700143047);
    lemma_next(3, 6818470291248, 2256729561700143047, 2158502666673041239);
    lemma_double(3, 6818470291249, 2158502666673041239, 941680097235857711);
    lemma_next(3, 13636940582498, 941680097235857711, 519197282493879182);
    lemma_double(3, 13636940582499, 519197282493879182, 2014996537443114068);
    lemma_next(3, 27273881164998, 2014996537443114068, 1433303593901954302);
    lemma_double(3, 27273881164999, 1433303593901954302, 1561548161264562948);
    lemma_double(3, 54547762329998, 1561548161264562948, 810415277304724618);
    lemma_double(3, 109095524659996, 810415277304724618, 1648701719090552125);
    lemma_next(3, 218191049319992, 1648701719090552125, 334419138844268473);
    lemma_double(3, 218191049319993, 334419138844268473, 1287074940033136703);
    lemma_next(3, 436382098639986, 1287074940033136703, 1555381810885716158);
    lemma_double(3, 436382098639987, 1555381810885716158, 1773394061312264323);
    lemma_next(3, 872764197279974, 1773394061312264323, 708496165509405067);
    lemma_double(3, 872764197279975, 708496165509405067, 234060095121088422);
}

/// 2 to the cofactor is 1, so 2 yields no generator.
pub proof fn two_yields_no_generator()
    ensures
        raised(2, COFACTOR as nat) == 1,
{
    lemma_first(2);
    lemma_double(2, 1, 2, 4);
    lemma_next(2, 2, 4, 8);
    lemma_double(2, 3, 8, 64);
    lemma_double(2, 6, 64, 4096);
    lemma_double(2, 12, 4096, 16777216);
    lemma_double(2, 24, 16777216, 281474976710656);
    lemma_next(2, 48, 281474976710656, 562949953421312);
    lemma_double(2, 49, 562949953421312, 137438953472);
    lemma_next(2, 98, 137438953472, 274877906944);
    lemma_double(2, 99, 274877906944, 32768);
    lemma_double(2, 198, 32768, 1073741824);
    lemma_double(2, 396, 1073741824, 1152921504606846976);
    lemma_next(2, 792, 1152921504606846976, 1);
    lemma_double(2, 793, 1, 1);
    lemma_next(2, 1586, 1, 2);
    lemma_double(2, 1587, 2, 4);
    lemma_next(2, 3174, 4, 8);
    lemma_double(2, 3175, 8, 64);
    lemma_double(2, 6350, 64, 4096);
    lemma_double(2, 12700, 4096, 16777216);
    lemma_double(2, 25400, 16777216, 281474976710656);
    lemma_next(2, 50800, 281474976710656, 562949953421312);
    lemma_double(2, 50801, 562949953421312, 137438953472);
    lemma_next(2, 101602, 137438953472, 274877906944);
    lemma_double(2, 101603, 274877906944, 32768);
    lemma_double(2, 203206, 32768, 1073741824);
    lemma_double(2, 406412, 1073741824, 1152921504606846976);
    lemma_double(2, 812824, 1152921504606846976, 576460752303423488);
    lemma_next(2, 1625648, 576460752303423488, 1152921504606846976);
    lemma_double(2, 1625649, 1152921504606846976, 576460752303423488);
    lemma_next(2, 3251298, 576460752303423488, 1152921504606846976);
    lemma_double(2, 3251299, 1152921504606846976, 576460752303423488);
    lemma_next(2, 6502598, 576460752303423488, 1152921504606846976);
    lemma_double(2, 6502599, 1152921504606846976, 576460752303423488);
    lemma_next(2, 13005198, 576460752303423488, 1152921504606846976);
    lemma_double(2, 13005199, 1152921504606846976, 576460752303423488);
    lemma_next(2, 26010398, 576460752303423488, 1152921504606846976);
    lemma_double(2, 26010399, 1152921504606846976, 576460752303423488);
    lemma_next(2, 52020798, 576460752303423488, 1152921504606846976);
    lemma_double(2, 52020799, 1152921504606846976, 576460752303423488);
    lemma_next(2, 104041598, 576460752303423488, 1152921504606846976);
    lemma_double(2, 104041599, 1152921504606846976, 576460752303423488);
    lemma_next(2, 208083198, 576460752303423488, 1152921504606846976);
    lemma_double(2, 208083199, 1152921504606846976, 576460752303423488);
    lemma_next(2, 416166398, 576460752303423488, 1152921504606846976);
    lemma_double(2, 416166399, 1152921504606846976, 576460752303423488);
    lemma_next(2, 832332798, 576460752303423488, 1152921504606846976);
    lemma_double(2, 832332799, 1152921504606846976, 576460752303423488);
    lemma_double(2, 1664665598, 576460752303423488, 144115188075855872);
    lemma_double(2, 3329331196, 144115188075855872, 9007199254740992);
    lemma_next(2, 6658662392, 9007199254740992, 18014398509481984);
    lemma_double(2, 6658662393, 18014398509481984, 140737488355328);
    lemma_next(2, 13317324786, 140737488355328, 281474976710656);
    lemma_double(2, 13317324787, 281474976710656, 34359738368);
    lemma_next(2, 26634649574, 34359738368, 68719476736);
    lemma_double(2, 26634649575, 68719476736, 2048);
    lemma_double(2, 53269299150, 2048, 4194304);
    lemma_double(2, 106538598300, 4194304, 17592186044416);
    lemma_next(2, 213077196600, 17592186044416, 35184372088832);
    lemma_double(2, 213077196601, 35184372088832, 536870912);
    lemma_next(2, 426154393202, 536870912, 1073741824);
    lemma_double(2, 426154393203, 1073741824, 1152921504606846976);
    lemma_double(2, 852308786406, 1152921504606846976, 576460752303423488);
    lemma_double(2, 1704617572812, 576460752303423488, 144115188075855872);
    lemma_double(2, 3409235145624, 144115188075855872, 9007199254740992);
    lemma_next(2, 6818470291248, 9007199254740992, 18014398509481984);
    lemma_double(2, 6818470291249, 18014398509481984, 140737488355328);
    lemma_next(2, 13636940582498, 140737488355328, 281474976710656);
    lemma_double(2, 13636940582499, 281474976710656, 34359738368);
    lemma_next(2, 27273881164998, 34359738368, 68719476736);
    lemma_double(2, 27273881164999, 68719476736, 2048);
    lemma_double(2, 54547762329998, 2048, 4194304);
    lemma_double(2, 109095524659996, 4194304, 17592186044416);
    lemma_next(2, 218191049319992, 17592186044416, 35184372088832);
    lemma_double(2, 218191049319993, 35184372088832, 536870912);
    lemma_next(2, 436382098639986, 536870912, 1073741824);
    lemma_double(2, 436382098639987, 1073741824, 1152921504606846976);
    lemma_next(2, 872764197279974, 1152921504606846976, 1);
    lemma_double(2, 872764197279975, 1, 1);
}

/// The generator to the power of `Q` is 1.
pub proof fn the_generator_has_order_q()
    ensures
        raised(GENERATOR as int, Q as nat) == 1,
{
    lemma_first(GENERATOR as int);
    lemma_double(234060095121088422, 1, 234060095121088422, 1138144871675203387);
    lemma_double(234060095121088422, 2, 1138144871675203387, 925218022786712668);
    lemma_next(234060095121088422, 4, 925218022786712668, 1232610417245157676);
    lemma_double(234060095121088422, 5, 1232610417245157676, 2052015042159889870);
    lemma_double(234060095121088422, 10, 2052015042159889870, 1413654373430909177);
    lemma_double(234060095121088422, 20, 1413654373430909177, 1399396648900431012);
    lemma_next(234060095121088422, 40, 1399396648900431012, 1189989421339087264);
    lemma_double(234060095121088422, 41, 1189989421339087264, 606841734917936611);
    lemma_double(234060095121088422, 82, 606841734917936611, 1236305722200221719);
    lemma_next(234060095121088422, 164, 1236305722200221719, 2270811616122897419);
    lemma_double(234060095121088422, 165, 2270811616122897419, 2278904677273990847);
    lemma_double(234060095121088422, 330, 2278904677273990847, 1173230281344828082);
    lemma_double(234060095121088422, 660, 1173230281344828082, 125558427495972086);
    lemma_next(234060095121088422, 1320, 125558427495972086, 1);
}

/// `Q` is prime.
pub proof fn the_field_order_is_prime(n: int)
    requires
        1 < n < Q,
    ensures
        Q as int % n != 0,
{
    let q = Q as int;
    if q % n == 0 {
        let m = q / n;
        lemma_fundamental_div_mod(q, n);
        assert(n * m == q);
        assert(m >= 1 && m < q) by (nonlinear_arith)
            requires
                n * m == q,
                1 < n,
                q > 0,
        ;
        assert(n < 37 || m < 37) by (nonlinear_arith)
            requires
                n * m == q,
                q == 1321,
        ;
        assert(n > 1 && m > 1) by (nonlinear_arith)
            requires
                n * m == q,
                1 < n < q,
                m >= 1,
        ;
        lemma_mod_multiples_vanish(n, 0, m);
        lemma_mod_multiples_vanish(m, 0, n);
        assert(q % m == 0) by {
            lemma_mul_is_commutative(n, m);
        }
        let k = if n < 37 {
            n
        } else {
            m
        };
        assert(q % k == 0);
        lemma_no_small_factor(k);
    }
}

proof fn lemma_no_small_factor(k: int)
    requires
        2 <= k < 37,
    ensures
        1321int % k != 0,
{
    if k == 2 {
        assert(1321int % 2 != 0);
    } else if k == 3 {
        assert(1321int % 3 != 0);
    } else if k == 4 {
        assert(1321int % 4 != 0);
    } else if k == 5 {
        assert(1321int % 5 != 0);
    } else if k == 6 {
        assert(1321int % 6 != 0);
    } else if k == 7 {
        assert(1321int % 7 != 0);
    } else if k == 8 {
        assert(1321int % 8 != 0);
    } else if k == 9 {
        assert(1321int % 9 != 0);
    } else if k == 10 {
        assert(1321int % 10 != 0);
    } else if k == 11 {
        assert(1321int % 11 != 0);
    } else if k == 12 {
        assert(1321int % 12 != 0);
    } else if k == 13 {
        assert(1321int % 13 != 0);
    } else if k == 14 {
        assert(1321int % 14 != 0);
    } else if k == 15 {
        assert(1321int % 15 != 0);
    } else if k == 16 {
        assert(1321int % 16 != 0);
    } else if k == 17 {
        assert(1321int % 17 != 0);
    } else if k == 18 {
        assert(1321int % 18 != 0);
    } else if k == 19 {
        assert(1321int % 19 != 0);
    } else if k == 20 {
        assert(1321int % 20 != 0);
    } else if k == 21 {
        assert(1321int % 21 != 0);
    } else if k == 22 {
        assert(1321int % 22 != 0);
    } else if k == 23 {
        assert(1321int % 23 != 0);
    } else if k == 24 {
        assert(1321int % 24 != 0);
    } else if k == 25 {
        assert(1321int % 25 != 0);
    } else if k == 26 {
        assert(1321int % 26 != 0);
    } else if k == 27 {
        assert(1321int % 27 != 0);
    } else if k == 28 {
        assert(1321int % 28 != 0);
    } else if k == 29 {
        assert(1321int % 29 != 0);
    } else if k == 30 {
        assert(1321int % 30 != 0);
    } else if k == 31 {
        assert(1321int % 31 != 0);
    } else if k == 32 {
        assert(1321int % 32 != 0);
    } else if k == 33 {
        assert(1321int % 33 != 0);
    } else if k == 34 {
        assert(1321int % 34 != 0);
    } else if k == 35 {
        assert(1321int % 35 != 0);
    } else if k == 36 {
        assert(1321int % 36 != 0);
    }
}

// ---- computing it -----------------------------------------------------------
/// Reduce a product modulo `P`: what is above bit 61 counts as much as what is
/// below.
fn m_reduce(x: u128) -> (r: u128)
    requires
        x <= (P - 1) * (P - 1),
    ensures
        r == x as int % (P as int),
{
    let lo: u128 = x % (P + 1);
    let hi: u128 = x / (P + 1);
    proof {
        let p = P as int;
        lemma_fundamental_div_mod(x as int, p + 1);
        assert(hi <= p - 1) by (nonlinear_arith)
            requires
                x == (p + 1) * hi + lo,
                x <= (p - 1) * (p - 1),
                lo >= 0,
                hi >= 0,
                p > 1,
        ;
        assert(x == p * hi + (hi + lo)) by (nonlinear_arith)
            requires
                x == (p + 1) * hi + lo,
        ;
        lemma_mod_multiples_vanish(hi as int, (hi + lo) as int, p);
    }
    let s: u128 = lo + hi;
    if s >= P {
        proof {
            let p = P as int;
            assert(hi == p - 1 ==> lo <= p - 1) by (nonlinear_arith)
                requires
                    x == (p + 1) * hi + lo,
                    x <= (p - 1) * (p - 1),
                    p > 1,
            ;
            lemma_mod_multiples_vanish(1, s - p, p);
            lemma_small_mod((s - p) as nat, p as nat);
        }
        s - P
    } else {
        proof {
            lemma_small_mod(s as nat, P as nat);
        }
        s
    }
}

/// The product modulo `P`.
fn mulmod(a: u128, b: u128) -> (r: u128)
    requires
        a < P,
        b < P,
    ensures
        r == times(a as int, b as int),
        r < P,
{
    proof {
        reveal(times);
        assert(a * b <= (P - 1) * (P - 1)) by (nonlinear_arith)
            requires
                a <= P - 1,
                b <= P - 1,
        ;
        lemma_times_range(a as int, b as int);
    }
    m_reduce(a * b)
}

/// A power modulo `P`, by repeated squaring.
fn powmod(base: u128, exp: u128) -> (r: u128)
    ensures
        r == raised(base as int, exp as nat),
        r < P,
{
    let mut result: u128 = 1;
    let mut b: u128 = base % P;
    let mut e: u128 = exp;
    proof {
        lemma_raised_reduces(base as int, exp as nat);
        lemma_raised_range(base as int, exp as nat);
        lemma_times_one(raised(base as int, exp as nat));
    }
    while e > 0
        invariant
            result < P,
            b < P,
            times(result as int, raised(b as int, e as nat)) == raised(base as int, exp as nat),
        decreases e,
    {
        let ghost half = (e / 2) as nat;
        proof {
            lemma_raised_multiplies(b as int, 2, half);
            lemma_raised_range(b as int, half);
            reveal_with_fuel(raised, 3);
            lemma_times_one(b as int);
            assert(raised(b as int, 2) == times(b as int, b as int));
            assert(raised(times(b as int, b as int), half) == raised(b as int, 2 * half));
            if e % 2 == 1 {
                assert((e - 1) as nat == 2 * half);
                lemma_times_associates(
                    result as int,
                    b as int,
                    raised(b as int, 2 * half),
                );
            } else {
                assert(e as nat == 2 * half);
            }
        }
        if e % 2 == 1 {
            result = mulmod(result, b);
        }
        b = mulmod(b, b);
        e = e / 2;
    }
    proof {
        lemma_times_one(result as int);
        lemma_raised_range(base as int, exp as nat);
    }
    result
}

/// A generator of the subgroup of order `Q`. Of the least bases 2 lies outside
/// it and 3 yields one.
pub fn subgroup_gen() -> (g: u128)
    ensures
        g == GENERATOR,
        g == raised(3, COFACTOR as nat),
{
    let g: u128 = powmod(3, (P - 1) / (Q as u128));
    proof {
        the_generator_is_a_power_of_three();
        assert((P - 1) / (Q as int) == COFACTOR);
    }
    g
}

/// The generator of coordinate `i`.
pub open spec fn gen_at(i: nat) -> int {
    raised(GENERATOR as int, i + 1)
}

/// The product of the powers of the first `n` coordinates' generators, with the
/// coefficients modulo `Q` as exponents.
pub open spec fn digest(c: Seq<u32>, n: nat) -> int
    decreases n,
{
    if n == 0 {
        1
    } else {
        times(
            digest(c, (n - 1) as nat),
            raised(gen_at((n - 1) as nat), (c[n - 1] % Q) as nat),
        )
    }
}

/// The product of powers of the first `n` hashes, with the coefficients modulo
/// `Q` as exponents.
pub open spec fn combination(coeffs: Seq<u32>, hashes: Seq<u128>, n: nat) -> int
    decreases n,
{
    if n == 0 {
        1
    } else {
        times(
            combination(coeffs, hashes, (n - 1) as nat),
            raised(hashes[n - 1] as int, (coeffs[n - 1] % Q) as nat),
        )
    }
}

proof fn lemma_digest_range(c: Seq<u32>, n: nat)
    ensures
        reduced(digest(c, n)),
    decreases n,
{
    if n > 0 {
        lemma_times_range(
            digest(c, (n - 1) as nat),
            raised(gen_at((n - 1) as nat), (c[n - 1] % Q) as nat),
        );
    }
}

/// A homomorphic hash for generations of one size.
#[derive(Debug)]
pub struct HomomorphicHash {
    /// The generators, one for each coordinate.
    gens: Vec<u128>,
    /// Entry `i * Q + e` is generator `i` to the power of `e`.
    table: Vec<u128>,
    /// The coordinate of a generator.
    unit_index: HashMap<u128, usize>,
}

impl HomomorphicHash {
    /// The generation size.
    pub closed spec fn size(&self) -> nat {
        self.gens@.len()
    }

    /// The tables hold what they say.
    #[verifier::type_invariant]
    spec fn wf(&self) -> bool {
        let k = self.gens@.len();
        &&& self.table@.len() == k * (Q as nat)
        &&& forall|i: int| 0 <= i < k ==> #[trigger] self.gens@[i] == gen_at(i as nat)
        &&& forall|i: int, e: int|
            0 <= i < k && 0 <= e < Q ==> self.table@[#[trigger] slot(i, e)] == raised(
                gen_at(i as nat),
                e as nat,
            )
        &&& forall|h: u128| #[trigger]
            self.unit_index@.contains_key(h) ==> self.unit_index@[h] < k
                && self.gens@[self.unit_index@[h] as int] == h
    }

    /// The hash for generations of size `k`.
    pub fn new(k: usize) -> (r: Self)
        requires
            k * Q <= usize::MAX,
        ensures
            r.size() == k,
    {
        let g: u128 = subgroup_gen();
        let mut gens: Vec<u128> = Vec::new();
        let mut acc: u128 = 1;
        let mut i: usize = 0;
        assert(raised(GENERATOR as int, 0) == 1);
        while i < k
            invariant
                i <= k,
                g == GENERATOR,
                acc < P,
                acc == raised(GENERATOR as int, i as nat),
                gens@.len() == i,
                forall|j: int| 0 <= j < i ==> #[trigger] gens@[j] == gen_at(j as nat),
            decreases k - i,
        {
            proof {
                lemma_times_commutes(GENERATOR as int, acc as int);
            }
            acc = mulmod(acc, g);
            gens.push(acc);
            i += 1;
        }
        let mut table: Vec<u128> = Vec::new();
        let mut unit_index: HashMap<u128, usize> = HashMap::new();
        let mut i: usize = 0;
        while i < k
            invariant
                i <= k,
                k * Q <= usize::MAX,
                gens@.len() == k,
                forall|j: int| 0 <= j < k ==> #[trigger] gens@[j] == gen_at(j as nat),
                table@.len() == i * (Q as nat),
                forall|j: int, e: int|
                    0 <= j < i && 0 <= e < Q ==> table@[#[trigger] slot(j, e)] == raised(
                        gen_at(j as nat),
                        e as nat,
                    ),
                forall|h: u128| #[trigger]
                    unit_index@.contains_key(h) ==> unit_index@[h] < k
                        && gens@[unit_index@[h] as int] == h,
            decreases k - i,
        {
            let gi: u128 = gens[i];
            proof {
                lemma_raised_range(GENERATOR as int, (i + 1) as nat);
            }
            assert((i + 1) * Q <= k * Q) by (nonlinear_arith)
                requires
                    i + 1 <= k,
            ;
            push_powers(&mut table, gi);
            proof {
                assert forall|j: int, e: int| 0 <= j < i + 1 && 0 <= e < Q implies table@[
                    #[trigger] slot(j, e)
                ] == raised(gen_at(j as nat), e as nat) by {
                    if j == i {
                        assert(slot(j, e) == i * (Q as nat) + e);
                    } else {
                        assert(slot(j, e) < i * (Q as nat));
                    }
                }
            }
            unit_index.insert(gi, i);
            i += 1;
        }
        HomomorphicHash { gens, table, unit_index }
    }

    /// The hash of a coefficient vector.
    pub fn hash(&self, c: &[u32]) -> (r: Result<u128, HomoHashError>)
        ensures
            match r {
                Ok(h) => c@.len() == self.size() && h == digest(c@, c@.len()),
                Err(e) => c@.len() != self.size() && e == (HomoHashError::Length {
                    a: c@.len() as usize,
                    b: self.size() as usize,
                }),
            },
    {
        proof {
            use_type_invariant(self);
        }
        if c.len() != self.gens.len() {
            return Err(HomoHashError::Length { a: c.len(), b: self.gens.len() });
        }
        let mut acc: u128 = 1;
        let mut i: usize = 0;
        while i < c.len()
            invariant
                i <= c@.len(),
                c@.len() == self.gens@.len(),
                self.wf(),
                acc < P,
                acc == digest(c@, i as nat),
            decreases c@.len() - i,
        {
            let e: u32 = c[i] % Q;
            proof {
                lemma_raised_range(gen_at(i as nat), e as nat);
                lemma_times_one(acc as int);
            }
            if e != 0 {
                acc = mulmod(acc, self.power(i, e));
            }
            i += 1;
        }
        Ok(acc)
    }

    /// Generator `i` to a power.
    fn power(&self, i: usize, e: u32) -> (r: u128)
        requires
            i < self.size(),
            e < Q,
        ensures
            r == raised(gen_at(i as nat), e as nat),
            r < P,
    {
        let _total: usize = self.table.len();
        proof {
            use_type_invariant(self);
            assert(slot(i as int, e as int) < self.table@.len());
            lemma_raised_range(gen_at(i as nat), e as nat);
        }
        self.table[i * (Q as usize) + e as usize]
    }

    /// The hash of `a c1 + b c2` from the hashes of `c1` and `c2`.
    pub fn combine(a: u32, h1: u128, b: u32, h2: u128) -> (r: u128)
        ensures
            r == times(
                raised(h1 as int, (a % Q) as nat),
                raised(h2 as int, (b % Q) as nat),
            ),
    {
        let lhs: u128 = powmod(h1, (a % Q) as u128);
        let rhs: u128 = powmod(h2, (b % Q) as u128);
        mulmod(lhs, rhs)
    }

    /// The hash of a combination of any number of vectors from their hashes. The
    /// powers of a unit vector's hash come out of the table.
    pub fn combine_many(&self, coeffs: &[u32], hashes: &[u128]) -> (r: u128)
        ensures
            r == combination(
                coeffs@,
                hashes@,
                if coeffs@.len() < hashes@.len() {
                    coeffs@.len()
                } else {
                    hashes@.len()
                },
            ),
    {
        proof {
            use_type_invariant(self);
        }
        let n: usize = if coeffs.len() < hashes.len() {
            coeffs.len()
        } else {
            hashes.len()
        };
        let mut acc: u128 = 1;
        let mut j: usize = 0;
        while j < n
            invariant
                j <= n,
                n <= coeffs@.len(),
                n <= hashes@.len(),
                self.wf(),
                acc < P,
                acc == combination(coeffs@, hashes@, j as nat),
            decreases n - j,
        {
            let e: u32 = coeffs[j] % Q;
            let h: u128 = hashes[j];
            proof {
                lemma_times_one(acc as int);
            }
            if e != 0 {
                let x: u128 = match self.unit_index.get(&h) {
                    Some(i) => self.power(*i, e),
                    None => powmod(h, e as u128),
                };
                acc = mulmod(acc, x);
            }
            j += 1;
        }
        acc
    }
}

/// Where the table holds a power.
pub open spec fn slot(i: int, e: int) -> int {
    i * (Q as int) + e
}

fn push_powers(table: &mut Vec<u128>, g: u128)
    requires
        g < P,
        old(table)@.len() + Q <= usize::MAX,
    ensures
        final(table)@.len() == old(table)@.len() + Q,
        forall|j: int| 0 <= j < old(table)@.len() ==> final(table)@[j] == old(table)@[j],
        forall|e: int|
            0 <= e < Q ==> #[trigger] final(table)@[old(table)@.len() + e] == raised(
                g as int,
                e as nat,
            ),
{
    let ghost n = table@.len();
    let mut p: u128 = 1;
    let mut e: u32 = 0;
    while e < Q
        invariant
            e <= Q,
            g < P,
            p < P,
            p == raised(g as int, e as nat),
            n == old(table)@.len(),
            table@.len() == n + e,
            forall|j: int| 0 <= j < n ==> table@[j] == old(table)@[j],
            forall|d: int| 0 <= d < e ==> #[trigger] table@[n + d] == raised(g as int, d as nat),
        decreases Q - e,
    {
        table.push(p);
        proof {
            lemma_times_commutes(g as int, p as int);
        }
        p = mulmod(p, g);
        e += 1;
    }
}

/// Whether a coefficient row has the claimed hash, given the hashes of the unit
/// vectors.
pub fn verify_coded(
    hh: &HomomorphicHash,
    source_hashes: &[u128],
    coded_coeffs: &[u32],
    expected: u128,
) -> (r: Result<bool, HomoHashError>)
    ensures
        match r {
            Ok(b) => coded_coeffs@.len() == source_hashes@.len() && b == (combination(
                coded_coeffs@,
                source_hashes@,
                coded_coeffs@.len(),
            ) == expected),
            Err(e) => coded_coeffs@.len() != source_hashes@.len() && e == (HomoHashError::Length {
                a: coded_coeffs@.len() as usize,
                b: source_hashes@.len() as usize,
            }),
        },
{
    if coded_coeffs.len() != source_hashes.len() {
        return Err(HomoHashError::Length { a: coded_coeffs.len(), b: source_hashes.len() });
    }
    let computed: u128 = hh.combine_many(coded_coeffs, source_hashes);
    Ok(computed == expected)
}

// ---- the laws ---------------------------------------------------------------
/// Every generator has order `Q`.
pub proof fn every_generator_has_order_q(i: nat)
    ensures
        raised(gen_at(i), Q as nat) == 1,
{
    let g = GENERATOR as int;
    the_generator_has_order_q();
    lemma_raised_multiplies(g, i + 1, Q as nat);
    lemma_raised_multiplies(g, Q as nat, i + 1);
    assert((i + 1) * (Q as nat) == (Q as nat) * (i + 1)) by (nonlinear_arith);
    lemma_one_raised(i + 1);
}

/// Exponents of an element of order `Q` count modulo `Q`.
proof fn lemma_exponents_wrap(g: int, x: nat)
    requires
        raised(g, Q as nat) == 1,
    ensures
        raised(g, x) == raised(g, x % (Q as nat)),
{
    let q = Q as nat;
    lemma_fundamental_div_mod(x as int, q as int);
    let d = x / q;
    let r = x % q;
    assert(x == q * d + r);
    assert(q * d >= 0) by (nonlinear_arith)
        requires
            q >= 0,
            d >= 0,
    ;
    lemma_raised_adds(g, q * d, r);
    lemma_raised_multiplies(g, q, d);
    lemma_one_raised(d);
    lemma_raised_range(g, r);
    lemma_times_one(raised(g, r));
}

proof fn lemma_times_swaps(a: int, b: int, c: int, d: int)
    ensures
        times(times(a, b), times(c, d)) == times(times(a, c), times(b, d)),
{
    lemma_times_associates(a, b, times(c, d));
    lemma_times_associates(b, c, d);
    lemma_times_commutes(b, c);
    lemma_times_associates(c, b, d);
    lemma_times_associates(a, c, times(b, d));
}

proof fn lemma_mixed_exponent(a: nat, b: nat, x: nat, y: nat)
    ensures
        ((x % (Q as nat)) * (a % (Q as nat)) + (y % (Q as nat)) * (b % (Q as nat))) % (Q as nat)
            == (a * x + b * y) % (Q as nat),
{
    let q = Q as int;
    let (a, b, x, y) = (a as int, b as int, x as int, y as int);
    vstd::arithmetic::div_mod::lemma_mul_mod_noop(x, a, q);
    vstd::arithmetic::div_mod::lemma_mul_mod_noop(y, b, q);
    let u = (x % q) * (a % q);
    let v = (y % q) * (b % q);
    vstd::arithmetic::div_mod::lemma_add_mod_noop(u, v, q);
    vstd::arithmetic::div_mod::lemma_add_mod_noop(x * a, y * b, q);
    lemma_mul_is_commutative(x, a);
    lemma_mul_is_commutative(y, b);
}

/// The homomorphism: the hash of a combination of two vectors over `GF(Q)` is
/// the combination of their hashes.
pub proof fn the_hash_is_homomorphic(
    a: u32,
    c1: Seq<u32>,
    b: u32,
    c2: Seq<u32>,
    c: Seq<u32>,
    n: nat,
)
    requires
        forall|i: int|
            0 <= i < n ==> (#[trigger] c[i]) as nat % (Q as nat) == (a as nat * (c1[i] as nat)
                + b as nat * (c2[i] as nat)) % (Q as nat),
    ensures
        digest(c, n) == times(
            raised(digest(c1, n), (a % Q) as nat),
            raised(digest(c2, n), (b % Q) as nat),
        ),
    decreases n,
{
    let e1 = (a % Q) as nat;
    let e2 = (b % Q) as nat;
    if n == 0 {
        lemma_one_raised(e1);
        lemma_one_raised(e2);
        lemma_times_one(1);
    } else {
        let m = (n - 1) as nat;
        the_hash_is_homomorphic(a, c1, b, c2, c, m);
        let g = gen_at(m);
        let x = (c1[n - 1] % Q) as nat;
        let y = (c2[n - 1] % Q) as nat;
        let z = (c[n - 1] % Q) as nat;
        let (d1, d2) = (digest(c1, m), digest(c2, m));
        let (r1, r2) = (raised(g, x), raised(g, y));
        lemma_raised_distributes(d1, r1, e1);
        lemma_raised_distributes(d2, r2, e2);
        lemma_times_swaps(raised(d1, e1), raised(r1, e1), raised(d2, e2), raised(r2, e2));
        lemma_raised_multiplies(g, x, e1);
        lemma_raised_multiplies(g, y, e2);
        assert(x * e1 >= 0 && y * e2 >= 0) by (nonlinear_arith)
            requires
                x >= 0,
                e1 >= 0,
                y >= 0,
                e2 >= 0,
        ;
        lemma_raised_adds(g, x * e1, y * e2);
        every_generator_has_order_q(m);
        lemma_exponents_wrap(g, x * e1 + y * e2);
        lemma_mixed_exponent(a as nat, b as nat, c1[n - 1] as nat, c2[n - 1] as nat);
        assert(c[n - 1] as nat % (Q as nat) == z);
        assert((x * e1 + y * e2) % (Q as nat) == z);
    }
}

/// Coordinate `i` of the combination of the first `m` vectors.
pub open spec fn mixed(coeffs: Seq<u32>, cs: Seq<Seq<u32>>, i: int, m: nat) -> nat
    decreases m,
{
    if m == 0 {
        0
    } else {
        mixed(coeffs, cs, i, (m - 1) as nat) + coeffs[m - 1] as nat * (cs[m - 1][i] as nat)
    }
}

/// The combination of the first `m` vectors over `GF(Q)`.
pub open spec fn mixture(coeffs: Seq<u32>, cs: Seq<Seq<u32>>, n: nat, m: nat) -> Seq<u32> {
    Seq::new(n, |i: int| (mixed(coeffs, cs, i, m) % (Q as nat)) as u32)
}

proof fn lemma_combination_range(coeffs: Seq<u32>, hashes: Seq<u128>, n: nat)
    ensures
        reduced(combination(coeffs, hashes, n)),
    decreases n,
{
    if n > 0 {
        lemma_times_range(
            combination(coeffs, hashes, (n - 1) as nat),
            raised(hashes[n - 1] as int, (coeffs[n - 1] % Q) as nat),
        );
    }
}

/// The hash of a combination of any number of vectors over `GF(Q)` is the
/// combination of their hashes.
pub proof fn every_combination_is_homomorphic(
    coeffs: Seq<u32>,
    cs: Seq<Seq<u32>>,
    hashes: Seq<u128>,
    n: nat,
    m: nat,
)
    requires
        forall|j: int| 0 <= j < m ==> #[trigger] hashes[j] == digest(cs[j], n),
    ensures
        digest(mixture(coeffs, cs, n, m), n) == combination(coeffs, hashes, m),
    decreases m,
{
    if m == 0 {
        lemma_zero_hashes_to_one(mixture(coeffs, cs, n, 0), n);
    } else {
        let k = (m - 1) as nat;
        every_combination_is_homomorphic(coeffs, cs, hashes, n, k);
        let before = mixture(coeffs, cs, n, k);
        let now = mixture(coeffs, cs, n, m);
        let a = coeffs[m - 1];
        assert forall|i: int| 0 <= i < n implies (#[trigger] now[i]) as nat % (Q as nat) == (1u32 as nat
            * (before[i] as nat) + a as nat * (cs[m - 1][i] as nat)) % (Q as nat) by {
            let u = mixed(coeffs, cs, i, k) as int;
            let v = (a as nat * (cs[m - 1][i] as nat)) as int;
            let q = Q as int;
            vstd::arithmetic::div_mod::lemma_add_mod_noop(u % q, v, q);
            vstd::arithmetic::div_mod::lemma_add_mod_noop(u, v, q);
            vstd::arithmetic::div_mod::lemma_mod_twice(u, q);
            vstd::arithmetic::div_mod::lemma_mod_twice(u + v, q);
            assert(before[i] == u % q);
            assert(now[i] == (u + v) % q);
        }
        the_hash_is_homomorphic(1, before, a, cs[m - 1], now, n);
        assert(hashes[m - 1] == digest(cs[m - 1], n));
        let d = combination(coeffs, hashes, k);
        lemma_combination_range(coeffs, hashes, k);
        lemma_first(d);
        assert(1u32 % Q == 1);
    }
}

proof fn lemma_zero_hashes_to_one(c: Seq<u32>, n: nat)
    requires
        forall|i: int| 0 <= i < n ==> #[trigger] c[i] == 0,
    ensures
        digest(c, n) == 1,
    decreases n,
{
    if n > 0 {
        lemma_zero_hashes_to_one(c, (n - 1) as nat);
        assert(c[n - 1] == 0);
        lemma_times_one(1);
    }
}

/// The hash of a unit vector is its coordinate's generator.
pub proof fn a_unit_hashes_to_its_generator(c: Seq<u32>, i: nat, n: nat)
    requires
        i < n,
        forall|j: int|
            0 <= j < n ==> #[trigger] c[j] == (if j == i {
                1u32
            } else {
                0u32
            }),
    ensures
        digest(c, n) == gen_at(i),
    decreases n,
{
    let m = (n - 1) as nat;
    let g = gen_at(m);
    lemma_raised_range(GENERATOR as int, i + 1);
    if i == m {
        lemma_zero_hashes_to_one(c, m);
        lemma_first(g);
        lemma_times_one(g);
        assert(c[m as int] == 1);
    } else {
        a_unit_hashes_to_its_generator(c, i, m);
        assert(c[m as int] == 0);
        lemma_times_one(gen_at(i));
    }
}

/// Given the hashes of the unit vectors, a row is accepted just where the claim
/// is the row's hash.
pub proof fn verification_accepts_just_the_true_hash(coeffs: Seq<u32>, hashes: Seq<u128>, n: nat)
    requires
        forall|i: int| 0 <= i < n ==> #[trigger] hashes[i] == gen_at(i as nat),
    ensures
        combination(coeffs, hashes, n) == digest(coeffs, n),
    decreases n,
{
    if n > 0 {
        verification_accepts_just_the_true_hash(coeffs, hashes, (n - 1) as nat);
        assert(hashes[n - 1] == gen_at((n - 1) as nat));
    }
}

/// Some power of an element is 1, up to an exponent.
spec fn returns_by(g: int, n: nat) -> bool {
    exists|d: nat| 0 < d <= n && #[trigger] raised(g, d) == 1
}

/// The least exponent up to `n` with a power of 1.
proof fn lemma_least(g: int, n: nat) -> (d: nat)
    requires
        returns_by(g, n),
    ensures
        0 < d <= n,
        raised(g, d) == 1,
        !returns_by(g, (d - 1) as nat),
    decreases n,
{
    if returns_by(g, (n - 1) as nat) {
        lemma_least(g, (n - 1) as nat)
    } else {
        let d = choose|d: nat| 0 < d <= n && #[trigger] raised(g, d) == 1;
        assert(d == n);
        n
    }
}

/// No smaller power than `Q` of an element of order `Q` other than 1 is 1.
proof fn lemma_order_is_exact(g: int, d: nat)
    requires
        reduced(g),
        g != 1,
        raised(g, Q as nat) == 1,
        0 < d < Q,
    ensures
        raised(g, d) != 1,
{
    if raised(g, d) == 1 {
        assert(returns_by(g, d));
        let n = lemma_least(g, d);
        let q = Q as nat;
        let r = q % n;
        let t = q / n;
        lemma_fundamental_div_mod(q as int, n as int);
        assert(q == n * t + r);
        assert(n * t >= 0) by (nonlinear_arith)
            requires
                n >= 0,
                t >= 0,
        ;
        lemma_raised_adds(g, n * t, r);
        lemma_raised_multiplies(g, n, t);
        lemma_one_raised(t);
        lemma_raised_range(g, r);
        lemma_times_one(raised(g, r));
        assert(raised(g, r) == 1);
        if r > 0 {
            assert(returns_by(g, (n - 1) as nat));
        }
        if n > 1 {
            the_field_order_is_prime(n as int);
        } else {
            lemma_first(g);
        }
    }
}

/// What is multiplied by an element of order `Q` can be told apart.
proof fn lemma_cancel(u: int, x: int, y: int)
    requires
        raised(u, Q as nat) == 1,
        reduced(u),
        reduced(x),
        reduced(y),
        times(u, x) == times(u, y),
    ensures
        x == y,
{
    let v = raised(u, (Q - 1) as nat);
    lemma_raised_adds(u, (Q - 1) as nat, 1);
    lemma_first(u);
    assert(times(v, u) == 1);
    lemma_times_associates(v, u, x);
    lemma_times_associates(v, u, y);
    lemma_times_one(x);
    lemma_times_one(y);
}

/// The hash of a vector is an element of order `Q`.
proof fn lemma_digest_order(c: Seq<u32>, n: nat)
    ensures
        raised(digest(c, n), Q as nat) == 1,
        reduced(digest(c, n)),
    decreases n,
{
    let q = Q as nat;
    lemma_digest_range(c, n);
    if n == 0 {
        lemma_one_raised(q);
    } else {
        let m = (n - 1) as nat;
        let e = (c[n - 1] % Q) as nat;
        lemma_digest_order(c, m);
        lemma_raised_distributes(digest(c, m), raised(gen_at(m), e), q);
        every_generator_has_order_q(m);
        lemma_raised_multiplies(gen_at(m), e, q);
        lemma_raised_multiplies(gen_at(m), q, e);
        assert(e * q == q * e) by (nonlinear_arith);
        lemma_one_raised(e);
        lemma_times_one(1);
    }
}

/// Different exponents below `Q` give different powers of a generator.
proof fn lemma_powers_differ(g: int, x: nat, y: nat)
    requires
        reduced(g),
        g != 1,
        raised(g, Q as nat) == 1,
        x < y < Q,
    ensures
        raised(g, x) != raised(g, y),
{
    let d = (y - x) as nat;
    lemma_order_is_exact(g, d);
    if raised(g, x) == raised(g, y) {
        lemma_raised_adds(g, x, d);
        let u = raised(g, x);
        lemma_raised_range(g, x);
        lemma_raised_range(g, d);
        lemma_raised_multiplies(g, x, Q as nat);
        lemma_raised_multiplies(g, Q as nat, x);
        assert(x * (Q as nat) == (Q as nat) * x) by (nonlinear_arith);
        lemma_one_raised(x);
        lemma_times_one(u);
        lemma_cancel(u, raised(g, d), 1);
    }
}

/// Changing one coefficient changes the hash, as long as its coordinate is not
/// one whose generator is 1.
pub proof fn changing_one_coefficient_changes_the_hash(
    c: Seq<u32>,
    d: Seq<u32>,
    i: nat,
    n: nat,
)
    requires
        i < n,
        (i + 1) % (Q as nat) != 0,
        c[i as int] % Q != d[i as int] % Q,
        forall|j: int| 0 <= j < n && j != i ==> #[trigger] c[j] == d[j],
    ensures
        digest(c, n) != digest(d, n),
    decreases n,
{
    let m = (n - 1) as nat;
    let g = gen_at(m);
    let x = (c[n - 1] % Q) as nat;
    let y = (d[n - 1] % Q) as nat;
    if i == m {
        lemma_same_digest(c, d, m);
        let q = Q as nat;
        the_generator_has_order_q();
        lemma_exponents_wrap(GENERATOR as int, i + 1);
        lemma_order_is_exact(GENERATOR as int, (i + 1) % q);
        every_generator_has_order_q(m);
        lemma_raised_range(GENERATOR as int, i + 1);
        lemma_raised_range(g, x);
        lemma_raised_range(g, y);
        if x < y {
            lemma_powers_differ(g, x, y);
        } else {
            lemma_powers_differ(g, y, x);
        }
        lemma_digest_order(c, m);
        if digest(c, n) == digest(d, n) {
            lemma_cancel(digest(c, m), raised(g, x), raised(g, y));
        }
    } else {
        changing_one_coefficient_changes_the_hash(c, d, i, m);
        assert(c[n - 1] == d[n - 1]);
        every_generator_has_order_q(m);
        let u = raised(g, x);
        lemma_raised_range(g, x);
        lemma_raised_multiplies(g, x, Q as nat);
        lemma_raised_multiplies(g, Q as nat, x);
        assert(x * (Q as nat) == (Q as nat) * x) by (nonlinear_arith);
        lemma_one_raised(x);
        lemma_digest_range(c, m);
        lemma_digest_range(d, m);
        lemma_times_commutes(digest(c, m), u);
        lemma_times_commutes(digest(d, m), u);
        if digest(c, n) == digest(d, n) {
            lemma_cancel(u, digest(c, m), digest(d, m));
        }
    }
}

proof fn lemma_same_digest(c: Seq<u32>, d: Seq<u32>, n: nat)
    requires
        forall|j: int| 0 <= j < n ==> #[trigger] c[j] == d[j],
    ensures
        digest(c, n) == digest(d, n),
    decreases n,
{
    if n > 0 {
        lemma_same_digest(c, d, (n - 1) as nat);
        assert(c[n - 1] == d[n - 1]);
    }
}

/// Every hash lies in the subgroup: it is no less than one and below `P`, and its
/// power of `Q` is one.
pub proof fn a_hash_lies_in_the_subgroup(c: Seq<u32>, n: nat)
    ensures
        1 <= digest(c, n) < P,
        raised(digest(c, n), Q as nat) == 1,
{
    lemma_digest_order(c, n);
    if digest(c, n) == 0 {
        reveal(times);
        let r = raised(0, (Q - 1) as nat);
        assert((0 * r) % (P as int) == 0);
        assert(raised(0, Q as nat) == times(0, r));
    }
}

/// A vector of zeros hashes to one.
pub proof fn zeros_hash_to_one(c: Seq<u32>, n: nat)
    requires
        forall|i: int| 0 <= i < n ==> #[trigger] c[i] == 0,
    ensures
        digest(c, n) == 1,
{
    lemma_zero_hashes_to_one(c, n);
}

/// Coefficients count modulo `Q`.
pub proof fn coefficients_count_modulo_q(c: Seq<u32>, d: Seq<u32>, n: nat)
    requires
        forall|i: int| 0 <= i < n ==> #[trigger] c[i] % Q == #[trigger] d[i] % Q,
    ensures
        digest(c, n) == digest(d, n),
    decreases n,
{
    if n > 0 {
        coefficients_count_modulo_q(c, d, (n - 1) as nat);
        assert(c[n - 1] % Q == d[n - 1] % Q);
    }
}

} // verus!
