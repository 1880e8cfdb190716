//! Bulk transfer over many independent fountain generations.
//!
//! A payload is padded and cut into generations of equally many symbols. Each
//! generation is a fountain of its own, so that loss on one stream does not
//! stall the others, and every generation can be sent and decoded on its own.
use crate::fountain::{
    coeff_rows,
    decodable,
    lemma_produced_wire,
    lemma_systematic,
    orthogonal,
    parsed_from,
    produced_wire,
    short_by,
    sym_rows,
    systematic_wire,
    wire_coeffs,
    wire_header,
    wire_pairs,
    wire_true,
    FountainDecoder,
    FountainEncoder,
    FountainError,
};
use crate::gf256::product_units;
use crate::linear::{backed, dot, is_zero, lemma_dot_single, shaped, unit, views};
use crate::text::{decimal, number};
use std::sync::Arc;
use vstd::prelude::*;

verus! {

/// Why a payload cannot be sent or put together.
#[derive(Debug, Clone, Copy, PartialEq, Eq, Structural)]
pub enum BulkError {
    /// There is nothing to send.
    Empty,
    /// A generation cannot be decoded.
    Generation { gen: usize, inner: FountainError },
    /// The symbols do not fit the generations.
    SizeMismatch { a: usize, b: usize },
}

impl BulkError {
    /// What the error says.
    pub open spec fn says(&self) -> Seq<char> {
        match self {
            BulkError::Empty => "empty bulk payload"@,
            BulkError::Generation { gen, inner } => "generation "@ + decimal(*gen as nat)
                + " decode failed: "@ + inner.says(),
            BulkError::SizeMismatch { a, b } => "size mismatch: "@ + decimal(*a as nat) + " vs "@
                + decimal(*b as nat),
        }
    }

    /// What the error says.
    pub fn message(&self) -> (r: String)
        ensures
            r@ == self.says(),
    {
        match self {
            BulkError::Empty => "empty bulk payload".to_owned(),
            BulkError::Generation { gen, inner } => "generation ".to_owned().concat(
                number(*gen as u64).as_str(),
            ).concat(" decode failed: ").concat(inner.message().as_str()),
            BulkError::SizeMismatch { a, b } => "size mismatch: ".to_owned().concat(
                number(*a as u64).as_str(),
            ).concat(" vs ").concat(number(*b as u64).as_str()),
        }
    }
}

/// How a payload is cut up.
#[derive(Clone, Copy, Debug, PartialEq, Eq, Structural)]
pub struct BulkConfig {
    /// Source symbols of a generation.
    pub gen_size: usize,
    /// Bytes of a symbol.
    pub symbol_size: usize,
    /// Repair symbols that are sent with a generation.
    pub repair: usize,
    /// Streams that are open at a time.
    pub generations: usize,
}

impl Default for BulkConfig {
    /// Four megabytes a generation, two per cent of repair symbols.
    fn default() -> (c: Self)
        ensures
            c == (BulkConfig { gen_size: 1024, symbol_size: 4096, repair: 21, generations: 16 }),
    {
        BulkConfig { gen_size: 1024, symbol_size: 4096, repair: 21, generations: 16 }
    }
}

impl BulkConfig {
    /// The same with another number of repair symbols.
    pub fn with_repair(&self, repair: usize) -> (c: Self)
        ensures
            c == (BulkConfig { repair, ..*self }),
    {
        BulkConfig {
            gen_size: self.gen_size,
            symbol_size: self.symbol_size,
            repair,
            generations: self.generations,
        }
    }
}

// ---- sending ----------------------------------------------------------------
/// `a / b`, rounded up.
pub open spec fn ceil_div(a: nat, b: nat) -> nat {
    ((a + b - 1) / b as int) as nat
}

/// How many generations a payload of `len` bytes takes.
pub open spec fn generation_count(len: nat, k: nat, s: nat) -> nat {
    ceil_div(ceil_div(len, s), k)
}

/// A payload followed by zeros up to a length.
pub open spec fn padded(payload: Seq<u8>, len: nat) -> Seq<u8> {
    payload + Seq::new((len - payload.len()) as nat, |i: int| 0u8)
}

/// The source symbols of generation `g` of a payload.
pub open spec fn generation_sources(payload: Seq<u8>, k: nat, s: nat, g: int) -> Seq<Seq<u8>> {
    let whole = padded(payload, generation_count(payload.len(), k, s) * (k * s));
    Seq::new(k, |i: int| whole.subrange(g * (k * s) + i * s, g * (k * s) + i * s + s))
}

/// Symbol `i` of generation `g` as it is sent.
pub open spec fn sent_symbol(
    payload: Seq<u8>,
    k: nat,
    s: nat,
    thresholds: Seq<u64>,
    g: int,
    i: int,
) -> (u32, Seq<u8>) {
    (
        g as u32,
        produced_wire(generation_sources(payload, k, s, g), s as int, thresholds, g as u32, 0, i),
    )
}

/// The symbols of the first `n` generations of a payload, `count` of each.
pub open spec fn sent(
    payload: Seq<u8>,
    k: nat,
    s: nat,
    thresholds: Seq<u64>,
    count: nat,
    n: nat,
) -> Seq<(u32, Seq<u8>)>
    decreases n,
{
    if n == 0 {
        Seq::empty()
    } else {
        sent(payload, k, s, thresholds, count, (n - 1) as nat) + Seq::new(
            count,
            |i: int| sent_symbol(payload, k, s, thresholds, n - 1, i),
        )
    }
}

/// What some symbols hold.
pub open spec fn symbol_views(v: Seq<(u32, Vec<u8>)>) -> Seq<(u32, Seq<u8>)> {
    v.map_values(|p: (u32, Vec<u8>)| (p.0, p.1@))
}

proof fn lemma_ceil(a: nat, b: nat)
    requires
        b > 0,
    ensures
        ceil_div(a, b) * b >= a,
        a > 0 ==> ceil_div(a, b) > 0,
        ceil_div(a, b) <= a,
{
    let q = ((a + b - 1) / b as int) as int;
    vstd::arithmetic::div_mod::lemma_fundamental_div_mod(a + b - 1, b as int);
    let r = (a + b - 1) % b as int;
    assert(a + b - 1 == b * q + r && 0 <= r < b);
    assert(b * q == q * b) by (nonlinear_arith);
    assert(q >= 0) by (nonlinear_arith)
        requires
            q * b + r >= 0,
            0 <= r < b,
            a >= 0,
            q * b + r == a + b - 1,
    ;
    if a > 0 {
        assert(q > 0) by (nonlinear_arith)
            requires
                q * b + r >= b,
                0 <= r < b,
                q >= 0,
        ;
        assert(q <= a) by (nonlinear_arith)
            requires
                q * b + r == a + b - 1,
                0 <= r,
                b >= 1,
                a >= 1,
        ;
    } else {
        assert(q == 0) by (nonlinear_arith)
            requires
                q * b <= b - 1,
                q >= 0,
                b >= 1,
        ;
    }
}

/// All generations together have room for the payload.
proof fn lemma_room(len: nat, k: nat, s: nat)
    requires
        k > 0,
        s > 0,
    ensures
        generation_count(len, k, s) * (k * s) >= len,
        len > 0 ==> generation_count(len, k, s) > 0,
{
    let n = ceil_div(len, s);
    let g = generation_count(len, k, s);
    lemma_ceil(len, s);
    lemma_ceil(n, k);
    assert(g * (k * s) >= len) by (nonlinear_arith)
        requires
            g * k >= n,
            n * s >= len,
            s > 0,
    ;
}

fn ceil_quotient(a: usize, b: usize) -> (q: usize)
    requires
        b > 0,
    ensures
        q == ceil_div(a as nat, b as nat),
{
    proof {
        let d = a as int / b as int;
        let r = a as int % b as int;
        vstd::arithmetic::div_mod::lemma_fundamental_div_mod(a as int, b as int);
        assert(b * d == d * b) by (nonlinear_arith);
        if r == 0 {
            vstd::arithmetic::div_mod::lemma_fundamental_div_mod_converse(
                a + b - 1,
                b as int,
                d,
                b - 1,
            );
        } else {
            assert((d + 1) * b == d * b + b) by (nonlinear_arith);
            vstd::arithmetic::div_mod::lemma_fundamental_div_mod_converse(
                a + b - 1,
                b as int,
                d + 1,
                r - 1,
            );
            assert(d + 1 <= a) by (nonlinear_arith)
                requires
                    d * b + r == a,
                    b >= 1,
                    r >= 1,
                    d >= 0,
            ;
        }
    }
    if a % b == 0 {
        a / b
    } else {
        a / b + 1
    }
}

fn copied(v: &Vec<u64>) -> (r: Vec<u64>)
    ensures
        r@ == v@,
{
    let mut r: Vec<u64> = Vec::new();
    r.extend_from_slice(v.as_slice());
    assert(r@ =~= v@);
    r
}

/// Every source symbol of a generation has its size.
proof fn lemma_sources(payload: Seq<u8>, k: nat, s: nat, g: int)
    requires
        k > 0,
        s > 0,
        0 <= g < generation_count(payload.len(), k, s),
    ensures
        shaped(generation_sources(payload, k, s, g), k as int, s as int),
        g * (k * s) + k * s <= generation_count(payload.len(), k, s) * (k * s),
{
    let n = generation_count(payload.len(), k, s);
    let src = generation_sources(payload, k, s, g);
    lemma_room(payload.len(), k, s);
    assert(g * (k * s) + k * s <= n * (k * s)) by (nonlinear_arith)
        requires
            0 <= g,
            g + 1 <= n,
    ;
    assert forall|i: int| 0 <= i < k implies (#[trigger] src[i]).len() == s by {
        assert(0 <= i * s && i * s + s <= k * s) by (nonlinear_arith)
            requires
                0 <= i,
                i + 1 <= k,
        ;
        assert(0 <= g * (k * s)) by (nonlinear_arith)
            requires
                0 <= g,
        ;
    }
}

/// The coded symbols of a payload, generation after generation: of each the
/// sources and then repair symbols. `thresholds` is the degree distribution of
/// the repair symbols.
pub fn encode(payload: &[u8], cfg: &BulkConfig, thresholds: &Vec<u64>) -> (r: Result<
    Vec<(u32, Vec<u8>)>,
    BulkError,
>)
    requires
        payload@.len() > 0 ==> {
            &&& cfg.gen_size > 0
            &&& cfg.symbol_size > 0
            &&& cfg.gen_size + cfg.repair <= usize::MAX
            &&& generation_count(payload@.len(), cfg.gen_size as nat, cfg.symbol_size as nat) * (
            cfg.gen_size * cfg.symbol_size) <= usize::MAX
        },
    ensures
        payload@.len() == 0 <==> r == Err::<Vec<(u32, Vec<u8>)>, _>(BulkError::Empty),
        payload@.len() > 0 ==> r is Ok && symbol_views(r->Ok_0@) == sent(
            payload@,
            cfg.gen_size as nat,
            cfg.symbol_size as nat,
            thresholds@,
            (cfg.gen_size + cfg.repair) as nat,
            generation_count(payload@.len(), cfg.gen_size as nat, cfg.symbol_size as nat),
        ),
{
    if payload.len() == 0 {
        return Err(BulkError::Empty);
    }
    let k: usize = cfg.gen_size;
    let s: usize = cfg.symbol_size;
    let count: usize = k + cfg.repair;
    let gens: usize = ceil_quotient(ceil_quotient(payload.len(), s), k);
    proof {
        lemma_room(payload@.len(), k as nat, s as nat);
        assert(k * s <= gens * (k * s) && 0 <= k * s) by (nonlinear_arith)
            requires
                gens >= 1,
                k >= 0,
                s >= 0,
        ;
    }
    let full: usize = k * s;
    let total: usize = gens * full;
    let mut whole: Vec<u8> = Vec::new();
    whole.extend_from_slice(payload);
    while whole.len() < total
        invariant
            payload@.len() <= whole@.len() <= total,
            whole@ =~= padded(payload@, whole@.len()),
        decreases total - whole@.len(),
    {
        whole.push(0);
    }
    let buf: Arc<Vec<u8>> = Arc::new(whole);
    let mut out: Vec<(u32, Vec<u8>)> = Vec::new();
    let mut gi: usize = 0;
    assert(symbol_views(out@) =~= sent(
        payload@,
        k as nat,
        s as nat,
        thresholds@,
        count as nat,
        0,
    ));
    while gi < gens
        invariant
            gi <= gens,
            k > 0,
            s > 0,
            payload@.len() > 0,
            count >= k,
            full == k * s,
            gens == generation_count(payload@.len(), k as nat, s as nat),
            total == gens * full,
            buf@ == padded(payload@, total as nat),
            buf@.len() == total,
            symbol_views(out@) == sent(
                payload@,
                k as nat,
                s as nat,
                thresholds@,
                count as nat,
                gi as nat,
            ),
        decreases gens - gi,
    {
        let gen_id: u32 = #[verifier::truncate] (gi as u32);
        let ghost src = generation_sources(payload@, k as nat, s as nat, gi as int);
        proof {
            lemma_sources(payload@, k as nat, s as nat, gi as int);
            assert(0 <= gi * full) by (nonlinear_arith)
                requires
                    gi >= 0,
                    full >= 0,
            ;
        }
        let offset: usize = gi * full;
        let mut enc: FountainEncoder = match FountainEncoder::new_shared(
            buf.clone(),
            offset,
            s,
            k,
            gen_id,
            copied(thresholds),
        ) {
            Ok(enc) => enc,
            Err(_) => {
                return Err(BulkError::SizeMismatch { a: 0, b: 0 });
            },
        };
        assert(enc.sources() =~= src);
        let wires: Vec<Vec<u8>> = match enc.produce(count) {
            Ok(wires) => wires,
            Err(_) => {
                return Err(BulkError::SizeMismatch { a: 0, b: 0 });
            },
        };
        let ghost before = symbol_views(out@);
        let ghost batch = Seq::new(
            count as nat,
            |i: int| sent_symbol(payload@, k as nat, s as nat, thresholds@, gi as int, i),
        );
        let mut i: usize = 0;
        assert(symbol_views(out@) =~= before + batch.take(0));
        while i < count
            invariant
                i <= count,
                wires@.len() == count,
                batch.len() == count,
                forall|j: int|
                    0 <= j < count ==> batch[j] == (gen_id, (#[trigger] wires@[j])@),
                symbol_views(out@) == before + batch.take(i as int),
            decreases count - i,
        {
            let ghost so_far = symbol_views(out@);
            let mut wire: Vec<u8> = Vec::new();
            wire.extend_from_slice(wires[i].as_slice());
            assert(wire@ =~= wires@[i as int]@);
            out.push((gen_id, wire));
            assert(symbol_views(out@) =~= so_far.push(batch[i as int]));
            assert(so_far.push(batch[i as int]) =~= before + batch.take(i + 1));
            i += 1;
        }
        assert(batch.take(count as int) =~= batch);
        gi += 1;
    }
    Ok(out)
}

// ---- receiving --------------------------------------------------------------
/// Ascending generation numbers with one more among them.
pub open spec fn with_id(ids: Seq<u32>, id: u32) -> Seq<u32>
    decreases ids.len(),
{
    if ids.len() == 0 || ids.last() < id {
        ids.push(id)
    } else if ids.last() == id {
        ids
    } else {
        with_id(ids.drop_last(), id).push(ids.last())
    }
}

/// The generations that symbols belong to, in ascending order.
pub open spec fn ids_of(coded: Seq<(u32, Seq<u8>)>) -> Seq<u32>
    decreases coded.len(),
{
    if coded.len() == 0 {
        Seq::empty()
    } else {
        with_id(ids_of(coded.drop_last()), coded.last().0)
    }
}

/// A decoder for `k` sources of `s` bytes keeps the symbol.
pub open spec fn is_kept(wire: Seq<u8>, k: nat, s: nat) -> bool {
    &&& wire.len() >= 2
    &&& wire.len() >= wire_header(wire) + s
    &&& !is_zero(wire_coeffs(wire, wire_pairs(wire), k as int))
}

/// The symbols of one generation that a decoder keeps, as they came.
pub open spec fn kept(coded: Seq<(u32, Seq<u8>)>, id: u32, k: nat, s: nat) -> Seq<Seq<u8>>
    decreases coded.len(),
{
    if coded.len() == 0 {
        Seq::empty()
    } else {
        let before = kept(coded.drop_last(), id, k, s);
        if coded.last().0 == id && is_kept(coded.last().1, k, s) {
            before.push(coded.last().1)
        } else {
            before
        }
    }
}

/// `v` is orthogonal to the coefficients of every symbol.
pub open spec fn wires_cancel(wires: Seq<Seq<u8>>, k: nat, v: Seq<u8>) -> bool {
    forall|i: int|
        0 <= i < wires.len() ==> dot(
            wire_coeffs(#[trigger] wires[i], wire_pairs(wires[i]), k as int),
            v,
        ) == 0
}

/// There are enough symbols, and their coefficients determine `k` sources.
pub open spec fn determined(wires: Seq<Seq<u8>>, k: nat) -> bool {
    &&& wires.len() >= k
    &&& forall|v: Seq<u8>| v.len() == k && #[trigger] wires_cancel(wires, k, v) ==> is_zero(v)
}

/// The sources `x` explain the symbols.
pub open spec fn explains(wires: Seq<Seq<u8>>, x: Seq<Seq<u8>>, s: int) -> bool {
    forall|i: int| 0 <= i < wires.len() ==> wire_true(#[trigger] wires[i], x, s)
}

/// The generations `x` explain all symbols.
pub open spec fn all_explained(
    coded: Seq<(u32, Seq<u8>)>,
    k: nat,
    s: nat,
    x: Seq<Seq<Seq<u8>>>,
) -> bool {
    let ids = ids_of(coded);
    &&& x.len() == ids.len()
    &&& forall|g: int|
        0 <= g < ids.len() ==> shaped(#[trigger] x[g], k as int, s as int) && explains(
            kept(coded, ids[g], k, s),
            x[g],
            s as int,
        )
}

/// Symbols one after the other.
pub open spec fn joined(x: Seq<Seq<u8>>) -> Seq<u8>
    decreases x.len(),
{
    if x.len() == 0 {
        Seq::empty()
    } else {
        joined(x.drop_last()) + x.last()
    }
}

/// Generations one after the other.
pub open spec fn reassembled(x: Seq<Seq<Seq<u8>>>) -> Seq<u8>
    decreases x.len(),
{
    if x.len() == 0 {
        Seq::empty()
    } else {
        reassembled(x.drop_last()) + joined(x.last())
    }
}

/// The start of a payload, or all of it.
pub open spec fn cut(payload: Seq<u8>, len: nat) -> Seq<u8> {
    if payload.len() <= len {
        payload
    } else {
        payload.take(len as int)
    }
}

fn insert_id(ids: &mut Vec<u32>, id: u32)
    ensures
        final(ids)@ == with_id(old(ids)@, id),
{
    let ghost start = ids@;
    let mut i: usize = ids.len();
    assert(start.take(i as int) =~= start);
    assert(with_id(start, id) =~= with_id(start.take(i as int), id) + start.skip(i as int));
    while i > 0 && ids[i - 1] > id
        invariant
            i <= ids@.len(),
            ids@ == start,
            with_id(start, id) == with_id(start.take(i as int), id) + start.skip(i as int),
        decreases i,
    {
        let ghost t = start.take(i as int);
        assert(t.last() == ids@[i - 1]);
        assert(t.drop_last() =~= start.take(i - 1));
        assert(with_id(start.take(i - 1), id).push(t.last()) + start.skip(i as int) =~= with_id(
            start.take(i - 1),
            id,
        ) + start.skip(i - 1));
        i -= 1;
    }
    let ghost t = start.take(i as int);
    if i > 0 && ids[i - 1] == id {
        assert(t.last() == id);
        assert(t + start.skip(i as int) =~= start);
        return ;
    }
    proof {
        if i > 0 {
            assert(t.last() == ids@[i - 1]);
        }
        assert(with_id(t, id) == t.push(id));
    }
    ids.insert(i, id);
    assert(ids@ =~= t.push(id) + start.skip(i as int));
}

/// The coefficients that symbols bring.
pub open spec fn wire_rows(wires: Seq<Seq<u8>>, k: nat) -> Seq<Seq<u8>> {
    wires.map_values(|w: Seq<u8>| wire_coeffs(w, wire_pairs(w), k as int))
}

/// Symbols as augmented rows: the coefficients they bring, then what they carry.
pub open spec fn wire_system(wires: Seq<Seq<u8>>, k: nat, s: nat) -> Seq<Seq<u8>> {
    wires.map_values(
        |w: Seq<u8>|
            wire_coeffs(w, wire_pairs(w), k as int) + w.subrange(
                wire_header(w),
                wire_header(w) + s,
            ),
    )
}

/// A decoder holds what it keeps of some symbols.
spec fn holds(d: FountainDecoder, wires: Seq<Seq<u8>>) -> bool {
    &&& d.symbols().len() == wires.len()
    &&& forall|q: int|
        0 <= q < wires.len() ==> parsed_from(
            #[trigger] d.symbols()[q],
            wires[q],
            d.sources() as int,
            d.size() as int,
        )
}

/// What a decoder knows of its symbols is what is known of what it kept.
proof fn lemma_holds(d: FountainDecoder, wires: Seq<Seq<u8>>)
    requires
        holds(d, wires),
    ensures
        coeff_rows(d.symbols()) == wire_rows(wires, d.sources()),
        sym_rows(d.symbols()) == wire_system(wires, d.sources(), d.size()),
        d.symbols().len() >= d.sources() && decodable(d.symbols(), d.sources() as int)
            <==> determined(wires, d.sources()),
        forall|x: Seq<Seq<u8>>|
            shaped(x, d.sources() as int, d.size() as int) && #[trigger] explains(
                wires,
                x,
                d.size() as int,
            ) ==> crate::fountain::consistent(d.symbols(), x, d.size() as int),
{
    let k = d.sources();
    let s = d.size() as int;
    assert(coeff_rows(d.symbols()) =~= wire_rows(wires, k)) by {
        assert forall|q: int| 0 <= q < wires.len() implies coeff_rows(d.symbols())[q] == wire_rows(
            wires,
            k,
        )[q] by {
            assert(parsed_from(d.symbols()[q], wires[q], k as int, s));
        }
    }
    assert(sym_rows(d.symbols()) =~= wire_system(wires, k, d.size())) by {
        assert forall|q: int| 0 <= q < wires.len() implies sym_rows(d.symbols())[q] == wire_system(
            wires,
            k,
            d.size(),
        )[q] by {
            assert(parsed_from(d.symbols()[q], wires[q], k as int, s));
        }
    }
    assert forall|v: Seq<u8>| wires_cancel(wires, k, v) <==> #[trigger] orthogonal(
        d.symbols(),
        v,
    ) by {
        if wires_cancel(wires, k, v) {
            assert forall|i: int| 0 <= i < d.symbols().len() implies dot(
                (#[trigger] d.symbols()[i]).coeffs@,
                v,
            ) == 0 by {
                assert(dot(wire_coeffs(wires[i], wire_pairs(wires[i]), k as int), v) == 0);
            }
        }
        if orthogonal(d.symbols(), v) {
            assert forall|i: int| 0 <= i < wires.len() implies dot(
                wire_coeffs(#[trigger] wires[i], wire_pairs(wires[i]), k as int),
                v,
            ) == 0 by {
                assert(dot(d.symbols()[i].coeffs@, v) == 0);
            }
        }
    }
    if decodable(d.symbols(), k as int) {
        assert forall|v: Seq<u8>| v.len() == k && #[trigger] wires_cancel(wires, k, v) implies is_zero(
            v,
        ) by {
            assert(orthogonal(d.symbols(), v));
        }
    }
    if determined(wires, k) {
        assert forall|v: Seq<u8>| v.len() == k && #[trigger] orthogonal(d.symbols(), v) implies is_zero(
            v,
        ) by {
            assert(wires_cancel(wires, k, v));
        }
    }
    assert forall|x: Seq<Seq<u8>>|
        shaped(x, k as int, s) && #[trigger] explains(wires, x, s) implies crate::fountain::consistent(
        d.symbols(),
        x,
        s,
    ) by {
        assert forall|i: int| 0 <= i < d.symbols().len() implies crate::fountain::satisfied(
            #[trigger] d.symbols()[i],
            x,
            s,
        ) by {
            assert(wire_true(wires[i], x, s));
        }
    }
}

/// What an undetermined generation is short of: symbols, or else independent
/// ones among those that peeling leaves.
pub open spec fn lacks(wires: Seq<Seq<u8>>, k: nat, s: nat, have: int, need: int) -> bool {
    if wires.len() < k {
        have == wires.len() && need == k
    } else {
        have < need <= k && short_by(wire_rows(wires, k), k as int, s as int, have, need)
    }
}

/// Decode one generation.
fn decode_generation(coded: &Vec<(u32, Vec<u8>)>, id: u32, k: usize, s: usize) -> (r: Result<
    Vec<Vec<u8>>,
    FountainError,
>)
    requires
        s > 0,
        k + s + 0x40000 <= usize::MAX,
    ensures
        r is Ok <==> determined(kept(symbol_views(coded@), id, k as nat, s as nat), k as nat),
        r matches Ok(out) ==> shaped(views(out@), k as int, s as int) && forall|x: Seq<Seq<u8>>|
            shaped(x, k as int, s as int) && #[trigger] explains(
                kept(symbol_views(coded@), id, k as nat, s as nat),
                x,
                s as int,
            ) ==> views(out@) == x,
        r matches Ok(out) ==> backed(
            wire_system(kept(symbol_views(coded@), id, k as nat, s as nat), k as nat, s as nat),
            k as int,
            s as int,
            views(out@),
        ),
        r matches Err(e) ==> e is Underdetermined && lacks(
            kept(symbol_views(coded@), id, k as nat, s as nat),
            k as nat,
            s as nat,
            e->have as int,
            e->need as int,
        ),
{
    let ghost all = symbol_views(coded@);
    let mut dec: FountainDecoder = FountainDecoder::new(k, s);
    let mut i: usize = 0;
    assert(all.take(0) =~= Seq::empty());
    while i < coded.len()
        invariant
            i <= coded@.len(),
            all == symbol_views(coded@),
            dec.sources() == k,
            dec.size() == s,
            holds(dec, kept(all.take(i as int), id, k as nat, s as nat)),
        decreases coded@.len() - i,
    {
        let ghost t = all.take(i + 1);
        assert(t.drop_last() =~= all.take(i as int));
        assert(t.last() == (coded@[i as int].0, coded@[i as int].1@));
        if coded[i].0 == id {
            let ghost before = dec.symbols();
            let ghost wires = kept(all.take(i as int), id, k as nat, s as nat);
            let wire: &Vec<u8> = &coded[i].1;
            let _ = dec.add(wire.as_slice());
            proof {
                if is_kept(wire@, k as nat, s as nat) {
                    let now = wires.push(wire@);
                    assert forall|q: int| 0 <= q < now.len() implies parsed_from(
                        #[trigger] dec.symbols()[q],
                        now[q],
                        k as int,
                        s as int,
                    ) by {
                        if q < wires.len() {
                            assert(dec.symbols().drop_last()[q] == before[q]);
                            assert(parsed_from(before[q], wires[q], k as int, s as int));
                        }
                    }
                }
            }
        }
        i += 1;
    }
    assert(all.take(i as int) =~= all);
    proof {
        lemma_holds(dec, kept(all, id, k as nat, s as nat));
    }
    dec.decode()
}

/// Put the generations of a payload together out of coded symbols that may come
/// in any order, and cut it to the length it had.
pub fn decode(coded: Vec<(u32, Vec<u8>)>, cfg: &BulkConfig, original_len: usize) -> (r: Result<
    Vec<u8>,
    BulkError,
>)
    requires
        coded@.len() > 0 && cfg.gen_size > 0 && cfg.symbol_size > 0 ==> cfg.gen_size
            + cfg.symbol_size + 0x40000 <= usize::MAX,
        ids_of(symbol_views(coded@)).len() * (cfg.gen_size * cfg.symbol_size) <= usize::MAX,
        cfg.gen_size * cfg.symbol_size <= usize::MAX,
    ensures
        coded@.len() == 0 || cfg.gen_size == 0 || cfg.symbol_size == 0 ==> r is Ok
            && r->Ok_0@.len() == 0,
        cfg.gen_size > 0 && cfg.symbol_size > 0 ==> received(
            symbol_views(coded@),
            cfg.gen_size as nat,
            cfg.symbol_size as nat,
            original_len as nat,
            r,
        ),
{
    let k: usize = cfg.gen_size;
    let s: usize = cfg.symbol_size;
    let ghost all = symbol_views(coded@);
    let mut ids: Vec<u32> = Vec::new();
    let mut i: usize = 0;
    assert(all.take(0) =~= Seq::empty());
    while i < coded.len()
        invariant
            i <= coded@.len(),
            all == symbol_views(coded@),
            ids@ == ids_of(all.take(i as int)),
        decreases coded@.len() - i,
    {
        assert(all.take(i + 1).drop_last() =~= all.take(i as int));
        insert_id(&mut ids, coded[i].0);
        i += 1;
    }
    assert(all.take(i as int) =~= all);
    proof {
        assert(k == 0 || s == 0 <==> k * s == 0) by (nonlinear_arith);
    }
    if ids.len() == 0 || k * s == 0 {
        let none: Vec<u8> = Vec::new();
        proof {
            if coded@.len() > 0 {
                lemma_ids(all);
                assert(ids_of(all).contains(all[0].0));
            }
            let nothing = Seq::<Seq<Seq<u8>>>::empty();
            assert(reassembled(nothing) =~= Seq::empty());
            if coded@.len() == 0 {
                assert(all_backed(all, k as nat, s as nat, nothing));
                assert(none@ =~= cut(reassembled(nothing), original_len as nat));
            }
            assert(0nat * (k as nat * s as nat) == 0) by (nonlinear_arith);
        }
        return Ok(none);
    }
    let mut out: Vec<u8> = Vec::new();
    let ghost mut found: Seq<Seq<Seq<u8>>> = Seq::empty();
    let mut g: usize = 0;
    while g < ids.len()
        invariant
            g <= ids@.len(),
            k == cfg.gen_size,
            s == cfg.symbol_size,
            coded@.len() > 0,
            k > 0,
            s > 0,
            k + s + 0x40000 <= usize::MAX,
            all == symbol_views(coded@),
            ids@ == ids_of(all),
            found.len() == g,
            out@ == reassembled(found),
            forall|q: int|
                0 <= q < g ==> determined(kept(all, #[trigger] ids@[q], k as nat, s as nat), k as nat),
            forall|q: int|
                0 <= q < g ==> shaped(#[trigger] found[q], k as int, s as int),
            forall|q: int|
                0 <= q < g ==> found_by(#[trigger] found[q], kept(all, ids@[q], k as nat, s as nat), k as nat, s as nat),
            forall|q: int|
                0 <= q < g ==> backed(
                    wire_system(kept(all, ids@[q], k as nat, s as nat), k as nat, s as nat),
                    k as int,
                    s as int,
                    #[trigger] found[q],
                ),
        decreases ids@.len() - g,
    {
        let id: u32 = ids[g];
        let syms: Vec<Vec<u8>> = match decode_generation(&coded, id, k, s) {
            Ok(syms) => syms,
            Err(e) => {
                assert(first_undetermined(all, k as nat, s as nat, g as int));
                return Err(BulkError::Generation { gen: id as usize, inner: e });
            },
        };
        let ghost x = views(syms@);
        let ghost before = out@;
        let mut j: usize = 0;
        assert(x.take(0) =~= Seq::empty());
        assert(out@ =~= before + joined(x.take(0)));
        while j < syms.len()
            invariant
                j <= syms@.len(),
                x == views(syms@),
                out@ == before + joined(x.take(j as int)),
            decreases syms@.len() - j,
        {
            assert(x.take(j + 1).drop_last() =~= x.take(j as int));
            assert(x.take(j + 1).last() == syms@[j as int]@);
            out.extend_from_slice(syms[j].as_slice());
            assert(out@ =~= before + joined(x.take(j + 1)));
            j += 1;
        }
        assert(x.take(j as int) =~= x);
        proof {
            let more = found.push(x);
            assert(more.drop_last() =~= found);
            found = more;
        }
        g += 1;
    }
    let ghost whole = out@;
    proof {
        lemma_reassembled_len(found, k as nat, s as nat);
    }
    if out.len() > original_len {
        out.truncate(original_len);
    }
    proof {
        assert(out@ =~= cut(whole, original_len as nat));
        assert(all_backed(all, k as nat, s as nat, found));
        assert forall|x: Seq<Seq<Seq<u8>>>| #[trigger] all_explained(all, k as nat, s as nat, x) implies out@
            == cut(reassembled(x), original_len as nat) by {
            assert forall|q: int| 0 <= q < x.len() implies #[trigger] found[q] == x[q] by {
                assert(found_by(found[q], kept(all, ids@[q], k as nat, s as nat), k as nat, s as nat));
                assert(shaped(x[q], k as int, s as int));
            }
            assert(found =~= x);
        }
    }
    Ok(out)
}

/// `y` is the only choice of sources that explains the symbols.
spec fn found_by(y: Seq<Seq<u8>>, wires: Seq<Seq<u8>>, k: nat, s: nat) -> bool {
    forall|x: Seq<Seq<u8>>|
        shaped(x, k as int, s as int) && #[trigger] explains(wires, x, s as int) ==> y == x
}

/// Generation number `g` is the first that cannot be decoded.
pub open spec fn first_undetermined(coded: Seq<(u32, Seq<u8>)>, k: nat, s: nat, g: int) -> bool {
    let ids = ids_of(coded);
    &&& 0 <= g < ids.len()
    &&& !determined(kept(coded, ids[g], k, s), k)
    &&& forall|q: int| 0 <= q < g ==> determined(kept(coded, #[trigger] ids[q], k, s), k)
}

/// Every generation is what as many independent symbols of it say as it has sources.
pub open spec fn all_backed(
    coded: Seq<(u32, Seq<u8>)>,
    k: nat,
    s: nat,
    x: Seq<Seq<Seq<u8>>>,
) -> bool {
    let ids = ids_of(coded);
    &&& x.len() == ids.len()
    &&& forall|g: int|
        0 <= g < ids.len() ==> shaped(#[trigger] x[g], k as int, s as int) && backed(
            wire_system(kept(coded, ids[g], k, s), k, s),
            k as int,
            s as int,
            x[g],
        )
}

/// The answer for some symbols: the payload if every generation is determined,
/// otherwise the first generation that is not.
pub open spec fn received(
    coded: Seq<(u32, Seq<u8>)>,
    k: nat,
    s: nat,
    len: nat,
    r: Result<Vec<u8>, BulkError>,
) -> bool {
    let ids = ids_of(coded);
    &&& r is Ok <==> forall|g: int|
        0 <= g < ids.len() ==> determined(kept(coded, #[trigger] ids[g], k, s), k)
    &&& r matches Ok(out) ==> out@.len() == (if ids.len() * (k * s) <= len {
        ids.len() * (k * s)
    } else {
        len
    })
    &&& r matches Ok(out) ==> forall|x: Seq<Seq<Seq<u8>>>| #[trigger]
        all_explained(coded, k, s, x) ==> out@ == cut(reassembled(x), len)
    &&& r matches Ok(out) ==> exists|x: Seq<Seq<Seq<u8>>>| #[trigger]
        all_backed(coded, k, s, x) && out@ == cut(reassembled(x), len)
    &&& r matches Err(e) ==> e is Generation && exists|g: int| #[trigger]
        first_undetermined(coded, k, s, g) && e->gen == ids[g] && e->inner is Underdetermined && lacks(
            kept(coded, ids[g], k, s),
            k,
            s,
            e->inner->have as int,
            e->inner->need as int,
        )
}

proof fn lemma_with_id(ids: Seq<u32>, id: u32)
    requires
        forall|i: int, j: int| 0 <= i < j < ids.len() ==> ids[i] < ids[j],
    ensures
        ({
            let w = with_id(ids, id);
            &&& forall|i: int, j: int| 0 <= i < j < w.len() ==> w[i] < w[j]
            &&& forall|x: u32| #[trigger] w.contains(x) <==> x == id || ids.contains(x)
        }),
    decreases ids.len(),
{
    let w = with_id(ids, id);
    if ids.len() == 0 || ids.last() < id {
        assert forall|x: u32| #[trigger] w.contains(x) <==> x == id || ids.contains(x) by {
            assert(w[ids.len() as int] == id);
            if ids.contains(x) {
                let q = choose|q: int| 0 <= q < ids.len() && ids[q] == x;
                assert(w[q] == x);
            }
            if w.contains(x) {
                let q = choose|q: int| 0 <= q < w.len() && w[q] == x;
                if q < ids.len() {
                    assert(ids[q] == x);
                }
            }
        }
    } else if ids.last() == id {
        assert(ids[ids.len() - 1] == id);
    } else {
        let u = ids.drop_last();
        lemma_with_id(u, id);
        let b = with_id(u, id);
        assert forall|i: int, j: int| 0 <= i < j < w.len() implies w[i] < w[j] by {
            if j == b.len() {
                assert(b.contains(b[i]));
                if b[i] != id {
                    let q = choose|q: int| 0 <= q < u.len() && u[q] == b[i];
                    assert(ids[q] == b[i]);
                }
            }
        }
        assert forall|x: u32| #[trigger] w.contains(x) <==> x == id || ids.contains(x) by {
            assert(w[b.len() as int] == ids.last());
            if x == id || ids.contains(x) {
                if x != ids.last() {
                    if x != id {
                        let q = choose|q: int| 0 <= q < ids.len() && ids[q] == x;
                        assert(u[q] == x);
                    }
                    assert(b.contains(x));
                    let q = choose|q: int| 0 <= q < b.len() && b[q] == x;
                    assert(w[q] == x);
                }
            }
            if w.contains(x) {
                let q = choose|q: int| 0 <= q < w.len() && w[q] == x;
                if q < b.len() {
                    assert(b[q] == x);
                    assert(b.contains(x));
                    if x != id {
                        let p = choose|p: int| 0 <= p < u.len() && u[p] == x;
                        assert(ids[p] == x);
                    }
                } else {
                    assert(ids[ids.len() - 1] == x);
                }
            }
        }
    }
}

/// A generation belongs to a symbol.
pub open spec fn has_symbol(coded: Seq<(u32, Seq<u8>)>, id: u32) -> bool {
    exists|i: int| 0 <= i < coded.len() && (#[trigger] coded[i]).0 == id
}

/// The generations ascend, and they are just those of the symbols.
pub proof fn lemma_ids(coded: Seq<(u32, Seq<u8>)>)
    ensures
        forall|i: int, j: int| 0 <= i < j < ids_of(coded).len() ==> ids_of(coded)[i] < ids_of(coded)[j],
        forall|x: u32| #[trigger] ids_of(coded).contains(x) <==> has_symbol(coded, x),
    decreases coded.len(),
{
    if coded.len() > 0 {
        let u = coded.drop_last();
        lemma_ids(u);
        lemma_with_id(ids_of(u), coded.last().0);
        assert forall|x: u32| #[trigger] ids_of(coded).contains(x) <==> has_symbol(coded, x) by {
            if has_symbol(u, x) {
                let q = choose|q: int| 0 <= q < u.len() && (#[trigger] u[q]).0 == x;
                assert(coded[q].0 == x);
            }
            if x == coded.last().0 {
                assert(coded[coded.len() - 1].0 == x);
            }
            if has_symbol(coded, x) {
                let q = choose|q: int| 0 <= q < coded.len() && (#[trigger] coded[q]).0 == x;
                if q < u.len() {
                    assert(u[q].0 == x);
                    assert(has_symbol(u, x));
                }
            }
        }
    }
}

proof fn lemma_joined_len(x: Seq<Seq<u8>>, s: nat)
    requires
        forall|i: int| 0 <= i < x.len() ==> (#[trigger] x[i]).len() == s,
    ensures
        joined(x).len() == x.len() * s,
    decreases x.len(),
{
    if x.len() > 0 {
        let u = x.drop_last();
        assert forall|i: int| 0 <= i < u.len() implies (#[trigger] u[i]).len() == s by {
            assert(u[i] == x[i]);
        }
        lemma_joined_len(u, s);
        assert(x[x.len() - 1].len() == s);
        assert((x.len() - 1) * s + s == x.len() * s) by (nonlinear_arith)
            requires
                x.len() >= 1,
        ;
    } else {
        assert(0 * s == 0) by (nonlinear_arith);
    }
}

proof fn lemma_reassembled_len(x: Seq<Seq<Seq<u8>>>, k: nat, s: nat)
    requires
        forall|g: int| 0 <= g < x.len() ==> shaped(#[trigger] x[g], k as int, s as int),
    ensures
        reassembled(x).len() == x.len() * (k * s),
    decreases x.len(),
{
    if x.len() > 0 {
        let u = x.drop_last();
        assert forall|g: int| 0 <= g < u.len() implies shaped(#[trigger] u[g], k as int, s as int) by {
            assert(u[g] == x[g]);
        }
        lemma_reassembled_len(u, k, s);
        assert(shaped(x[x.len() - 1], k as int, s as int));
        lemma_joined_len(x.last(), s);
        assert((x.len() - 1) * (k * s) + k * s == x.len() * (k * s)) by (nonlinear_arith)
            requires
                x.len() >= 1,
        ;
    } else {
        assert(0 * (k * s) == 0) by (nonlinear_arith);
    }
}

// ---- what is sent comes back ------------------------------------------------
/// The generations of a payload.
pub open spec fn generations_of(payload: Seq<u8>, k: nat, s: nat) -> Seq<Seq<Seq<u8>>> {
    Seq::new(
        generation_count(payload.len(), k, s),
        |g: int| generation_sources(payload, k, s, g),
    )
}

proof fn lemma_joined_sources(payload: Seq<u8>, k: nat, s: nat, g: int, n: int)
    requires
        k > 0,
        s > 0,
        0 <= g < generation_count(payload.len(), k, s),
        0 <= n <= k,
    ensures
        ({
            let whole = padded(payload, generation_count(payload.len(), k, s) * (k * s));
            joined(generation_sources(payload, k, s, g).take(n)) == whole.subrange(
                g * (k * s),
                g * (k * s) + n * s,
            )
        }),
    decreases n,
{
    let whole = padded(payload, generation_count(payload.len(), k, s) * (k * s));
    let src = generation_sources(payload, k, s, g);
    lemma_room(payload.len(), k, s);
    lemma_sources(payload, k, s, g);
    assert(0 <= g * (k * s)) by (nonlinear_arith)
        requires
            0 <= g,
    ;
    if n == 0 {
        assert(0 * s == 0) by (nonlinear_arith);
        assert(joined(src.take(0)) =~= whole.subrange(g * (k * s), g * (k * s)));
    } else {
        lemma_joined_sources(payload, k, s, g, n - 1);
        let t = src.take(n);
        assert(t.drop_last() =~= src.take(n - 1));
        assert(t.last() == src[n - 1]);
        assert((n - 1) * s + s == n * s && 0 <= (n - 1) * s && n * s <= k * s) by (nonlinear_arith)
            requires
                1 <= n <= k,
        ;
        assert(joined(t) =~= whole.subrange(g * (k * s), g * (k * s) + n * s));
    }
}

proof fn lemma_reassembled_sources(payload: Seq<u8>, k: nat, s: nat, n: int)
    requires
        k > 0,
        s > 0,
        0 <= n <= generation_count(payload.len(), k, s),
    ensures
        ({
            let whole = padded(payload, generation_count(payload.len(), k, s) * (k * s));
            reassembled(generations_of(payload, k, s).take(n)) == whole.take(n * (k * s))
        }),
    decreases n,
{
    let count = generation_count(payload.len(), k, s);
    let whole = padded(payload, count * (k * s));
    let x = generations_of(payload, k, s);
    lemma_room(payload.len(), k, s);
    if n == 0 {
        assert(0 * (k * s) == 0) by (nonlinear_arith);
        assert(reassembled(x.take(0)) =~= whole.take(0));
    } else {
        lemma_reassembled_sources(payload, k, s, n - 1);
        lemma_joined_sources(payload, k, s, n - 1, k as int);
        let t = x.take(n);
        assert(t.drop_last() =~= x.take(n - 1));
        assert(t.last() == generation_sources(payload, k, s, n - 1));
        assert(t.last().take(k as int) =~= t.last());
        assert((n - 1) * (k * s) + k * s == n * (k * s) && 0 <= (n - 1) * (k * s) && n * (k * s)
            <= count * (k * s)) by (nonlinear_arith)
            requires
                1 <= n <= count,
        ;
        assert(reassembled(t) =~= whole.take(n * (k * s)));
    }
}

/// The generations of a payload put together and cut are the payload.
proof fn lemma_generations(payload: Seq<u8>, k: nat, s: nat)
    requires
        k > 0,
        s > 0,
    ensures
        cut(reassembled(generations_of(payload, k, s)), payload.len()) == payload,
{
    let count = generation_count(payload.len(), k, s);
    let x = generations_of(payload, k, s);
    lemma_room(payload.len(), k, s);
    lemma_reassembled_sources(payload, k, s, count as int);
    assert(x.take(count as int) =~= x);
    let whole = padded(payload, count * (k * s));
    assert(whole.take((count * (k * s)) as int) =~= whole);
    assert(cut(whole, payload.len()) =~= payload);
}

/// Every sent symbol belongs to a generation.
proof fn lemma_sent(
    payload: Seq<u8>,
    k: nat,
    s: nat,
    thresholds: Seq<u64>,
    count: nat,
    n: nat,
    p: (u32, Seq<u8>),
)
    requires
        sent(payload, k, s, thresholds, count, n).contains(p),
    ensures
        exists|g: int, i: int|
            0 <= g < n && 0 <= i < count && p == #[trigger] sent_symbol(
                payload,
                k,
                s,
                thresholds,
                g,
                i,
            ),
    decreases n,
{
    let all = sent(payload, k, s, thresholds, count, n);
    let q = choose|q: int| 0 <= q < all.len() && all[q] == p;
    if n > 0 {
        let before = sent(payload, k, s, thresholds, count, (n - 1) as nat);
        if q < before.len() {
            assert(before[q] == p);
            lemma_sent(payload, k, s, thresholds, count, (n - 1) as nat, p);
        } else {
            assert(p == sent_symbol(payload, k, s, thresholds, n - 1, q - before.len()));
        }
    }
}

/// The symbols kept of a generation are among the symbols.
proof fn lemma_kept(coded: Seq<(u32, Seq<u8>)>, id: u32, k: nat, s: nat)
    ensures
        forall|q: int|
            0 <= q < kept(coded, id, k, s).len() ==> coded.contains(
                (id, #[trigger] kept(coded, id, k, s)[q]),
            ),
        forall|w: Seq<u8>|
            #![trigger coded.contains((id, w))]
            coded.contains((id, w)) && is_kept(w, k, s) ==> kept(coded, id, k, s).contains(w),
    decreases coded.len(),
{
    if coded.len() > 0 {
        let u = coded.drop_last();
        lemma_kept(u, id, k, s);
        let v = kept(coded, id, k, s);
        let before = kept(u, id, k, s);
        assert forall|q: int| 0 <= q < v.len() implies coded.contains((id, #[trigger] v[q])) by {
            if q < before.len() {
                assert(v[q] == before[q]);
                let j = choose|j: int| 0 <= j < u.len() && u[j] == (id, before[q]);
                assert(coded[j] == (id, v[q]));
            } else {
                assert(coded[coded.len() - 1] == (id, v[q]));
            }
        }
        assert forall|w: Seq<u8>|
            #![trigger coded.contains((id, w))]
            coded.contains((id, w)) && is_kept(w, k, s) implies v.contains(w) by {
            let j = choose|j: int| 0 <= j < coded.len() && coded[j] == (id, w);
            if j < u.len() {
                assert(u[j] == (id, w));
                assert(u.contains((id, w)));
                let q = choose|q: int| 0 <= q < before.len() && before[q] == w;
                assert(v[q] == w);
            } else {
                assert(v[before.len() as int] == w);
            }
        }
    }
}

/// Ascending numbers that are just those below `n` are `0, 1, ..`.
proof fn lemma_all_below(ids: Seq<u32>, n: nat, j: int)
    requires
        forall|i: int, l: int| 0 <= i < l < ids.len() ==> ids[i] < ids[l],
        forall|x: u32| #[trigger] ids.contains(x) <==> x < n,
        n <= 0x1_0000_0000,
    ensures
        0 <= j < ids.len() ==> ids[j] == j,
        j < n ==> j < ids.len(),
        ids.len() <= n,
    decreases j + 1,
{
    if 0 <= j {
        lemma_all_below(ids, n, j - 1);
        if j < ids.len() {
            assert(ids.contains(ids[j]));
            if j > 0 {
                assert(ids[j - 1] < ids[j]);
            }
            assert(ids.contains(j as u32));
            let q = choose|q: int| 0 <= q < ids.len() && ids[q] == j as u32;
            if q < j {
                assert(ids[q] <= ids[j - 1]) by {
                    if q < j - 1 {
                        assert(ids[q] < ids[j - 1]);
                    }
                }
            }
            if q > j {
                assert(ids[j] < ids[q]);
            }
        } else if j < n {
            assert(ids.contains(j as u32));
            let q = choose|q: int| 0 <= q < ids.len() && ids[q] == j as u32;
            if q < j - 1 {
                assert(ids[q] < ids[j - 1]);
            }
        }
    } else {
        if ids.len() > 0 {
            lemma_last_below(ids, n, ids.len() - 1);
        }
    }
}

proof fn lemma_last_below(ids: Seq<u32>, n: nat, j: int)
    requires
        forall|i: int, l: int| 0 <= i < l < ids.len() ==> ids[i] < ids[l],
        forall|x: u32| #[trigger] ids.contains(x) <==> x < n,
        0 <= j < ids.len(),
    ensures
        j <= ids[j] < n,
    decreases j,
{
    assert(ids.contains(ids[j]));
    if j > 0 {
        lemma_last_below(ids, n, j - 1);
        assert(ids[j - 1] < ids[j]);
    }
}

/// What is put together of what was sent: whichever symbols of a payload
/// arrived, in whichever order and however often, if they determine every
/// generation then the payload comes back.
pub proof fn what_is_sent_comes_back(
    payload: Seq<u8>,
    k: nat,
    s: nat,
    thresholds: Seq<u64>,
    count: nat,
    coded: Seq<(u32, Seq<u8>)>,
    r: Result<Vec<u8>, BulkError>,
)
    requires
        0 < k <= 65535,
        0 < s,
        0 < generation_count(payload.len(), k, s) <= 0x1_0000_0000,
        forall|j: int|
            0 <= j < coded.len() ==> sent(
                payload,
                k,
                s,
                thresholds,
                count,
                generation_count(payload.len(), k, s),
            ).contains(#[trigger] coded[j]),
        forall|g: int|
            0 <= g < generation_count(payload.len(), k, s) ==> determined(
                #[trigger] kept(coded, g as u32, k, s),
                k,
            ),
        received(coded, k, s, payload.len(), r),
    ensures
        r is Ok,
        r->Ok_0@ == payload,
{
    let n = generation_count(payload.len(), k, s);
    let all = sent(payload, k, s, thresholds, count, n);
    let ids = ids_of(coded);
    let x = generations_of(payload, k, s);
    lemma_ids(coded);
    assert forall|id: u32| #[trigger] ids.contains(id) <==> id < n by {
        if ids.contains(id) {
            let j = choose|j: int| 0 <= j < coded.len() && (#[trigger] coded[j]).0 == id;
            assert(all.contains(coded[j]));
            lemma_sent(payload, k, s, thresholds, count, n, coded[j]);
        }
        if id < n {
            let g = id as int;
            assert(g as u32 == id);
            assert(determined(kept(coded, g as u32, k, s), k));
            lemma_kept(coded, id, k, s);
            let w = kept(coded, id, k, s)[0];
            assert(coded.contains((id, w)));
            let j = choose|j: int| 0 <= j < coded.len() && coded[j] == (id, w);
            assert(coded[j].0 == id);
        }
    }
    assert forall|g: int| 0 <= g < n implies g < ids.len() && ids[g] == g by {
        lemma_all_below(ids, n, g);
    }
    lemma_all_below(ids, n, -1);
    assert(ids.len() == n) by {
        assert(ids[n - 1] == n - 1);
    }
    assert(all_explained(coded, k, s, x)) by {
        assert forall|g: int| 0 <= g < ids.len() implies shaped(#[trigger] x[g], k as int, s as int)
            && explains(kept(coded, ids[g], k, s), x[g], s as int) by {
            lemma_sources(payload, k, s, g);
            lemma_kept(coded, ids[g], k, s);
            let wires = kept(coded, ids[g], k, s);
            assert forall|q: int| 0 <= q < wires.len() implies wire_true(
                #[trigger] wires[q],
                x[g],
                s as int,
            ) by {
                assert(coded.contains((ids[g], wires[q])));
                let j = choose|j: int| 0 <= j < coded.len() && coded[j] == (ids[g], wires[q]);
                assert(all.contains(coded[j]));
                lemma_sent(payload, k, s, thresholds, count, n, coded[j]);
                let (h, i) = choose|h: int, i: int|
                    0 <= h < n && 0 <= i < count && coded[j] == #[trigger] sent_symbol(
                        payload,
                        k,
                        s,
                        thresholds,
                        h,
                        i,
                    );
                assert(h == g);
                lemma_produced_wire(x[g], s as int, thresholds, g as u32, 0, i);
            }
        }
    }
    assert forall|g: int| 0 <= g < ids.len() implies determined(
        kept(coded, #[trigger] ids[g], k, s),
        k,
    ) by {
        assert(determined(kept(coded, g as u32, k, s), k));
    }
    lemma_generations(payload, k, s);
}

/// A generation whose sources all arrived is determined.
pub proof fn the_sources_alone_suffice(
    payload: Seq<u8>,
    k: nat,
    s: nat,
    thresholds: Seq<u64>,
    coded: Seq<(u32, Seq<u8>)>,
    g: int,
)
    requires
        0 < k <= 65535,
        0 < s,
        0 <= g < generation_count(payload.len(), k, s),
        forall|i: int|
            0 <= i < k ==> coded.contains(
                #[trigger] sent_symbol(payload, k, s, thresholds, g, i),
            ),
    ensures
        determined(kept(coded, g as u32, k, s), k),
{
    let src = generation_sources(payload, k, s, g);
    let wires = kept(coded, g as u32, k, s);
    lemma_sources(payload, k, s, g);
    lemma_kept(coded, g as u32, k, s);
    assert forall|i: int| 0 <= i < k implies wires.contains(#[trigger] systematic_wire(src, i))
        && wire_coeffs(systematic_wire(src, i), wire_pairs(systematic_wire(src, i)), k as int)
        == unit(k, i) by {
        let w = systematic_wire(src, i);
        assert(coded.contains(sent_symbol(payload, k, s, thresholds, g, i)));
        assert(sent_symbol(payload, k, s, thresholds, g, i) == (g as u32, w));
        lemma_systematic(src, i, s as int);
        assert(unit(k, i)[i] != 0);
    }
    let at = Seq::new(
        k,
        |i: int| choose|q: int| 0 <= q < wires.len() && wires[q] == systematic_wire(src, i),
    );
    assert forall|i: int| 0 <= i < k implies 0 <= #[trigger] at[i] < wires.len() && wires[at[i]]
        == systematic_wire(src, i) by {
        assert(wires.contains(systematic_wire(src, i)));
    }
    assert forall|i: int, j: int| 0 <= i < j < k implies at[i] != at[j] by {
        if at[i] == at[j] {
            assert(systematic_wire(src, i) == systematic_wire(src, j));
            assert(unit(k, i)[i] == unit(k, j)[i]);
        }
    }
    lemma_injection(at, wires.len() as int);
    assert forall|v: Seq<u8>| v.len() == k && #[trigger] wires_cancel(wires, k, v) implies is_zero(v) by {
        assert forall|i: int| 0 <= i < v.len() implies #[trigger] v[i] == 0 by {
            let w = systematic_wire(src, i);
            assert(wires[at[i]] == w);
            assert(dot(wire_coeffs(w, wire_pairs(w), k as int), v) == 0);
            lemma_dot_single(unit(k, i), v, i);
            product_units(v[i]);
        }
    }
}

/// Distinct places among `n` are at most `n`.
proof fn lemma_injection(at: Seq<int>, n: int)
    requires
        0 <= n,
        forall|i: int| 0 <= i < at.len() ==> 0 <= #[trigger] at[i] < n,
        forall|i: int, j: int| 0 <= i < j < at.len() ==> at[i] != at[j],
    ensures
        at.len() <= n,
    decreases n,
{
    if n > 0 && at.len() > 0 {
        if exists|i: int| 0 <= i < at.len() && #[trigger] at[i] == n - 1 {
            let p = choose|i: int| 0 <= i < at.len() && #[trigger] at[i] == n - 1;
            let without = at.remove(p);
            assert forall|i: int| 0 <= i < without.len() implies 0 <= #[trigger] without[i] < n - 1 by {
                if i < p {
                    assert(at[i] != at[p]);
                } else {
                    assert(at[i + 1] != at[p]);
                }
            }
            lemma_injection(without, n - 1);
        } else {
            assert forall|i: int| 0 <= i < at.len() implies 0 <= #[trigger] at[i] < n - 1 by {}
            lemma_injection(at, n - 1);
        }
    } else if at.len() > 0 {
        assert(0 <= at[0] < n);
    }
}

/// With nothing lost the payload comes back, in whichever order the symbols
/// arrive.
pub proof fn nothing_lost_is_nothing_missing(
    payload: Seq<u8>,
    k: nat,
    s: nat,
    thresholds: Seq<u64>,
    count: nat,
    coded: Seq<(u32, Seq<u8>)>,
    r: Result<Vec<u8>, BulkError>,
)
    requires
        0 < k <= 65535,
        0 < s,
        k <= count,
        0 < generation_count(payload.len(), k, s) <= 0x1_0000_0000,
        forall|p: (u32, Seq<u8>)| #[trigger]
            coded.contains(p) <==> sent(
                payload,
                k,
                s,
                thresholds,
                count,
                generation_count(payload.len(), k, s),
            ).contains(p),
        received(coded, k, s, payload.len(), r),
    ensures
        r is Ok,
        r->Ok_0@ == payload,
{
    let n = generation_count(payload.len(), k, s);
    assert forall|g: int| 0 <= g < n implies determined(#[trigger] kept(coded, g as u32, k, s), k) by {
        assert forall|i: int| 0 <= i < k implies coded.contains(
            #[trigger] sent_symbol(payload, k, s, thresholds, g, i),
        ) by {
            lemma_is_sent(payload, k, s, thresholds, count, n, g, i);
        }
        the_sources_alone_suffice(payload, k, s, thresholds, coded, g);
    }
    assert forall|j: int| 0 <= j < coded.len() implies sent(payload, k, s, thresholds, count, n).contains(
        #[trigger] coded[j],
    ) by {
        assert(coded.contains(coded[j]));
    }
    what_is_sent_comes_back(payload, k, s, thresholds, count, coded, r);
}

proof fn lemma_is_sent(
    payload: Seq<u8>,
    k: nat,
    s: nat,
    thresholds: Seq<u64>,
    count: nat,
    n: nat,
    g: int,
    i: int,
)
    requires
        0 <= g < n,
        0 <= i < count,
    ensures
        sent(payload, k, s, thresholds, count, n).contains(
            sent_symbol(payload, k, s, thresholds, g, i),
        ),
    decreases n,
{
    let all = sent(payload, k, s, thresholds, count, n);
    let before = sent(payload, k, s, thresholds, count, (n - 1) as nat);
    let p = sent_symbol(payload, k, s, thresholds, g, i);
    if g == n - 1 {
        assert(all[before.len() + i] == p);
    } else {
        lemma_is_sent(payload, k, s, thresholds, count, (n - 1) as nat, g, i);
        let q = choose|q: int| 0 <= q < before.len() && before[q] == p;
        assert(all[q] == p);
    }
}

} // verus!
