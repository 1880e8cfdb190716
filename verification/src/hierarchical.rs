//! Two-layer coding for a fan-out to many agents.
//!
//! The outer layer is a Reed-Solomon code over the whole context. Its symbols
//! are dealt out to groups; each group protects its own symbols on its own hop,
//! so that a lossy hop costs its own group only. Any `k` outer symbols, from
//! whichever groups, give the context back.
use crate::linear::{full_rank, has_rank, shaped, solves, views};
use crate::rs;
use crate::rs::{
    coded,
    first_of_each,
    firsts_at,
    generator_rows,
    lemma_firsts,
    placed,
    repeated_symbols_do_no_harm,
    survivor_rows,
    RsEncoder,
    RsError,
};
use crate::text::{decimal, number};
use std::sync::Arc;
use vstd::prelude::*;

verus! {

/// Why a context cannot be encoded or decoded.
#[derive(Debug, PartialEq, Eq)]
pub enum HierError {
    /// The outer code says why.
    Rs(String),
    /// The code of a group says why.
    Rlnc(String),
    /// There is no context.
    Empty,
}

impl HierError {
    /// What the error says.
    pub open spec fn says(&self) -> Seq<char> {
        match self {
            HierError::Rs(e) => "rs: "@ + e@,
            HierError::Rlnc(e) => "rlnc: "@ + e@,
            HierError::Empty => "empty context"@,
        }
    }

    /// What the error says.
    pub fn message(&self) -> (r: String)
        ensures
            r@ == self.says(),
    {
        match self {
            HierError::Rs(e) => "rs: ".to_owned().concat(e.as_str()),
            HierError::Rlnc(e) => "rlnc: ".to_owned().concat(e.as_str()),
            HierError::Empty => "empty context".to_owned(),
        }
    }
}

/// What the outer symbols hold.
pub open spec fn shared_views(v: Seq<Arc<Vec<u8>>>) -> Seq<Seq<u8>> {
    v.map_values(|a: Arc<Vec<u8>>| a@)
}

/// The outer symbols of a context: the data, then the parity symbols.
pub open spec fn codeword(data: Seq<Seq<u8>>, m: nat, s: int) -> Seq<Seq<u8>> {
    Seq::new(
        data.len() + m,
        |i: int|
            if i < data.len() {
                data[i]
            } else {
                coded(generator_rows(data.len(), m)[i], data, s)
            },
    )
}

/// One group's share: the outer symbols it owns, and the seed of its own code.
pub struct Group {
    pub owned: Vec<usize>,
    pub symbols: Vec<Arc<Vec<u8>>>,
    pub seed: u64,
}

/// The positions below `n` that group `gi` of `g` owns.
pub open spec fn owned_by(n: nat, g: int, gi: int) -> Seq<int>
    decreases n,
{
    if n == 0 {
        Seq::empty()
    } else {
        let before = owned_by((n - 1) as nat, g, gi);
        if (n - 1) % g == gi {
            before.push(n - 1)
        } else {
            before
        }
    }
}

/// A group is what group `gi` of `g` has to get.
pub open spec fn deals(group: Group, outer: Seq<Seq<u8>>, g: int, gi: int, seed: u64) -> bool {
    &&& group.owned@.map_values(|i: usize| i as int) == owned_by(outer.len(), g, gi)
    &&& shared_views(group.symbols@) == owned_by(outer.len(), g, gi).map_values(
        |i: int| outer[i],
    )
    &&& group.seed == (seed + gi) % 0x1_0000_0000_0000_0000
}

/// Encoder of a context: its outer symbols, shared.
pub struct HierEncoder {
    outer: Vec<Arc<Vec<u8>>>,
    k: usize,
    n: usize,
}

impl HierEncoder {
    /// The outer symbols.
    pub closed spec fn symbols(&self) -> Seq<Seq<u8>> {
        shared_views(self.outer@)
    }

    /// The number of data symbols.
    pub closed spec fn data_symbols(&self) -> nat {
        self.k as nat
    }

    /// The number of outer symbols.
    pub closed spec fn outer_symbols(&self) -> nat {
        self.n as nat
    }

    /// There are as many outer symbols as there have to be.
    pub open spec fn wf(&self) -> bool {
        self.symbols().len() == self.outer_symbols()
    }

    /// An encoder for `k` data symbols with `m_outer` parity symbols.
    pub fn new(data: Vec<Vec<u8>>, k: usize, m_outer: usize, symbol_size: usize) -> (r: Result<
        Self,
        HierError,
    >)
        requires
            data@.len() > 0 ==> 2 * k <= usize::MAX && k + m_outer <= usize::MAX,
        ensures
            r matches Err(HierError::Empty) <==> data@.len() == 0,
            r is Ok <==> data@.len() > 0 && shaped(views(data@), k as int, symbol_size as int),
            r matches Ok(e) ==> e.wf() && e.data_symbols() == k && e.outer_symbols() == k + m_outer
                && e.symbols() == codeword(views(data@), m_outer as nat, symbol_size as int),
            r matches Err(e) ==> e !is Rlnc,
            r matches Err(HierError::Rs(t)) ==> {
                &&& k == 0 ==> t@ == (RsError::Empty).says()
                &&& k > 0 && data@.len() != k ==> t@ == (RsError::SizeMismatch {
                    a: data@.len() as usize,
                    b: k,
                }).says()
                &&& k > 0 && data@.len() == k ==> exists|i: int|
                    0 <= i < k && (#[trigger] data@[i])@.len() != symbol_size && t@ == (
                    RsError::SizeMismatch { a: data@[i]@.len() as usize, b: symbol_size }).says()
                        && forall|j: int| 0 <= j < i ==> (#[trigger] data@[j])@.len() == symbol_size
            },
    {
        if data.len() == 0 {
            return Err(HierError::Empty);
        }
        let enc: RsEncoder = match RsEncoder::new(k, m_outer, symbol_size) {
            Ok(enc) => enc,
            Err(e) => {
                return Err(HierError::Rs(e.message()));
            },
        };
        let word: Vec<Vec<u8>> = match enc.encode(data.as_slice()) {
            Ok(word) => word,
            Err(e) => {
                return Err(HierError::Rs(e.message()));
            },
        };
        let ghost whole = views(word@);
        assert(whole =~= codeword(views(data@), m_outer as nat, symbol_size as int));
        let n: usize = k + m_outer;
        let mut outer: Vec<Arc<Vec<u8>>> = Vec::new();
        assert(shared_views(outer@) =~= whole.take(0));
        while outer.len() < n
            invariant
                outer@.len() <= n,
                whole.len() == n,
                whole == views(word@),
                shared_views(outer@) == whole.take(outer@.len() as int),
            decreases n - outer@.len(),
        {
            let ghost i = outer@.len() as int;
            assert(views(word@)[i] == word@[i]@);
            let symbol: Vec<u8> = copy_bytes(&word[outer.len()]);
            let ghost before = shared_views(outer@);
            outer.push(Arc::new(symbol));
            assert(shared_views(outer@) =~= before.push(whole[i]));
            assert(before.push(whole[i]) =~= whole.take(i + 1));
        }
        assert(whole.take(n as int) =~= whole);
        Ok(HierEncoder { outer, k, n })
    }

    /// The number of outer symbols.
    pub fn n(&self) -> (n: usize)
        ensures
            n == self.outer_symbols(),
    {
        self.n
    }

    /// The number of data symbols.
    pub fn k(&self) -> (k: usize)
        ensures
            k == self.data_symbols(),
    {
        self.k
    }

    /// Deal the outer symbols out to `g` groups.
    pub fn into_groups(self, g: usize, seed: u64) -> (r: Vec<Group>)
        requires
            self.wf(),
        ensures
            r@.len() == g,
            forall|gi: int|
                0 <= gi < g ==> deals(#[trigger] r@[gi], self.symbols(), g as int, gi, seed),
    {
        let mut out: Vec<Group> = Vec::new();
        let mut gi: usize = 0;
        while gi < g
            invariant
                gi <= g,
                self.wf(),
                out@.len() == gi,
                forall|q: int|
                    0 <= q < gi ==> deals(#[trigger] out@[q], self.symbols(), g as int, q, seed),
            decreases g - gi,
        {
            let mut owned: Vec<usize> = Vec::new();
            let mut symbols: Vec<Arc<Vec<u8>>> = Vec::new();
            let mut i: usize = 0;
            let ghost outer = self.symbols();
            assert(owned@.map_values(|i: usize| i as int) =~= owned_by(0, g as int, gi as int));
            assert(shared_views(symbols@) =~= owned_by(0, g as int, gi as int).map_values(
                |i: int| outer[i],
            ));
            while i < self.n
                invariant
                    i <= self.n,
                    gi < g,
                    self.wf(),
                    outer == self.symbols(),
                    owned@.map_values(|i: usize| i as int) == owned_by(
                        i as nat,
                        g as int,
                        gi as int,
                    ),
                    shared_views(symbols@) == owned_by(i as nat, g as int, gi as int).map_values(
                        |i: int| outer[i],
                    ),
                decreases self.n - i,
            {
                if i % g == gi {
                    let ghost so_far = owned_by(i as nat, g as int, gi as int);
                    owned.push(i);
                    let ghost held = shared_views(symbols@);
                    symbols.push(self.outer[i].clone());
                    assert(shared_views(symbols@) =~= held.push(outer[i as int]));
                    assert(owned@.map_values(|i: usize| i as int) =~= so_far.push(i as int));
                    assert(shared_views(symbols@) =~= so_far.push(i as int).map_values(
                        |i: int| outer[i],
                    ));
                }
                i += 1;
            }
            out.push(Group { owned, symbols, seed: seed.wrapping_add(gi as u64) });
            gi += 1;
        }
        out
    }
}

/// Decoder of a context: the outer symbols that groups have contributed.
pub struct HierDecoder {
    k: usize,
    m_outer: usize,
    symbol_size: usize,
    outer: Vec<(usize, Vec<u8>)>,
}

fn copy_bytes(s: &Vec<u8>) -> (v: Vec<u8>)
    ensures
        v@ == s@,
{
    let mut v: Vec<u8> = Vec::new();
    v.extend_from_slice(s.as_slice());
    assert(v@ =~= s@);
    v
}

impl HierDecoder {
    /// The number of data symbols.
    pub closed spec fn data_symbols(&self) -> nat {
        self.k as nat
    }

    /// The number of parity symbols.
    pub closed spec fn parity_symbols(&self) -> nat {
        self.m_outer as nat
    }

    /// The length of a symbol.
    pub closed spec fn size(&self) -> nat {
        self.symbol_size as nat
    }

    /// The symbols collected, in the order they came.
    pub closed spec fn collected(&self) -> Seq<(int, Seq<u8>)> {
        placed(self.outer@)
    }

    /// The symbols of distinct positions.
    pub open spec fn distinct(&self) -> Seq<(int, Seq<u8>)> {
        first_of_each(self.collected())
    }

    /// A decoder that has collected nothing.
    pub fn new(k: usize, m_outer: usize, symbol_size: usize) -> (d: Self)
        ensures
            d.data_symbols() == k,
            d.parity_symbols() == m_outer,
            d.size() == symbol_size,
            d.collected().len() == 0,
    {
        HierDecoder { k, m_outer, symbol_size, outer: Vec::new() }
    }

    /// Take in what a group's own code has given back: the symbols that it owns,
    /// or why there are none. The result is how many symbols have been collected.
    pub fn add_group(&mut self, owned: &[usize], decoded: Result<Vec<Vec<u8>>, String>) -> (r: Result<
        usize,
        HierError,
    >)
        requires
            decoded matches Ok(syms) ==> syms@.len() == owned@.len(),
        ensures
            final(self).data_symbols() == old(self).data_symbols(),
            final(self).parity_symbols() == old(self).parity_symbols(),
            final(self).size() == old(self).size(),
            decoded matches Err(e) ==> {
                &&& r matches Err(HierError::Rlnc(t)) && t@ == e@
                &&& final(self).collected() == old(self).collected()
            },
            decoded matches Ok(syms) ==> {
                &&& r == Ok::<usize, HierError>(final(self).collected().len() as usize)
                &&& final(self).collected() == old(self).collected() + Seq::new(
                    owned@.len(),
                    |i: int| (owned@[i] as int, syms@[i]@),
                )
            },
    {
        let syms: Vec<Vec<u8>> = match decoded {
            Ok(syms) => syms,
            Err(e) => {
                return Err(HierError::Rlnc(e));
            },
        };
        let ghost fresh = Seq::new(owned@.len(), |i: int| (owned@[i] as int, syms@[i]@));
        let ghost before = self.collected();
        let mut i: usize = 0;
        assert(self.collected() =~= before + fresh.take(0));
        while i < owned.len()
            invariant
                i <= owned@.len(),
                syms@.len() == owned@.len(),
                fresh == Seq::new(owned@.len(), |i: int| (owned@[i] as int, syms@[i]@)),
                self.k == old(self).k,
                self.m_outer == old(self).m_outer,
                self.symbol_size == old(self).symbol_size,
                self.collected() == before + fresh.take(i as int),
            decreases owned@.len() - i,
        {
            let ghost so_far = self.collected();
            self.outer.push((owned[i], copy_bytes(&syms[i])));
            assert(self.collected() =~= so_far.push(fresh[i as int]));
            assert(so_far.push(fresh[i as int]) =~= before + fresh.take(i + 1));
            i += 1;
        }
        assert(fresh.take(i as int) =~= fresh);
        Ok(self.outer.len())
    }

    /// Whether enough symbols of distinct positions have been collected.
    pub fn ready(&self) -> (r: bool)
        ensures
            r == (self.distinct().len() >= self.data_symbols()),
    {
        firsts_at(self.outer.as_slice()).len() >= self.k
    }

    /// The context, from the first symbols of distinct positions.
    pub fn decode(&self) -> (r: Result<Vec<Vec<u8>>, HierError>)
        requires
            self.distinct().len() >= self.data_symbols() ==> 2 * self.data_symbols() <= usize::MAX
                && self.data_symbols() + self.parity_symbols() <= usize::MAX && self.data_symbols()
                + self.size() <= usize::MAX,
            self.distinct().len() >= self.data_symbols() ==> forall|i: int|
                0 <= i < self.data_symbols() ==> (#[trigger] self.distinct()[i]).0
                    < self.data_symbols() + self.parity_symbols() && self.distinct()[i].1.len()
                    == self.size(),
        ensures
            self.distinct().len() < self.data_symbols() ==> (r matches Err(HierError::Rs(t)) && t@
                == "only "@ + decimal(self.distinct().len()) + " outer symbols, need "@ + decimal(
                self.data_symbols(),
            )),
            self.distinct().len() >= self.data_symbols() ==> (r is Ok <==> (self.data_symbols() == 0
                || self.size() > 0) && full_rank(
                survivor_rows(self.data_symbols(), self.parity_symbols(), self.distinct()),
                self.data_symbols() as int,
            )),
            r matches Ok(out) ==> self.distinct().len() >= self.data_symbols() && shaped(
                views(out@),
                self.data_symbols() as int,
                self.size() as int,
            ) && solves(
                survivor_rows(self.data_symbols(), self.parity_symbols(), self.distinct()),
                self.data_symbols() as int,
                self.size() as int,
                views(out@),
            ) && forall|x: Seq<Seq<u8>>|
                shaped(x, self.data_symbols() as int, self.size() as int) && #[trigger] solves(
                    survivor_rows(self.data_symbols(), self.parity_symbols(), self.distinct()),
                    self.data_symbols() as int,
                    self.size() as int,
                    x,
                ) ==> views(out@) == x,
            r matches Err(e) ==> e is Rs,
            r matches Err(HierError::Rs(t)) ==> self.distinct().len() >= self.data_symbols()
                ==> exists|have: usize|
                have <= self.data_symbols() && t@ == #[trigger] (RsError::Insufficient {
                    have,
                    need: self.data_symbols() as usize,
                }).says() && if full_rank(
                    survivor_rows(self.data_symbols(), self.parity_symbols(), self.distinct()),
                    self.data_symbols() as int,
                ) {
                    have == self.data_symbols()
                } else {
                    has_rank(
                        survivor_rows(self.data_symbols(), self.parity_symbols(), self.distinct()),
                        self.data_symbols() as int,
                        have as int,
                    )
                },
    {
        let count: usize = firsts_at(self.outer.as_slice()).len();
        if count < self.k {
            return Err(
                HierError::Rs(
                    "only ".to_owned().concat(number(count as u64).as_str()).concat(
                        " outer symbols, need ",
                    ).concat(number(self.k as u64).as_str()),
                ),
            );
        }
        proof {
            lemma_firsts(self.collected());
        }
        match rs::decode(self.k, self.m_outer, self.symbol_size, self.outer.as_slice()) {
            Ok(out) => Ok(out),
            Err(e) => {
                proof {
                    let have = e->have;
                    assert(e == (RsError::Insufficient { have, need: self.data_symbols() as usize }));
                }
                Err(HierError::Rs(e.message()))
            },
        }
    }
}

/// Every outer symbol goes to just one group: the one that its position leaves
/// as the rest by the number of groups.
pub proof fn every_symbol_goes_to_one_group(n: nat, g: int, gi: int, i: int)
    requires
        0 < g,
        0 <= gi < g,
    ensures
        owned_by(n, g, gi).contains(i) <==> 0 <= i < n && i % g == gi,
    decreases n,
{
    if n > 0 {
        let before = owned_by((n - 1) as nat, g, gi);
        every_symbol_goes_to_one_group((n - 1) as nat, g, gi, i);
        let now = owned_by(n, g, gi);
        if (n - 1) % g == gi {
            assert(now == before.push(n - 1));
            assert(now[before.len() as int] == n - 1);
            if before.contains(i) {
                let q = choose|q: int| 0 <= q < before.len() && before[q] == i;
                assert(now[q] == i);
            }
            if now.contains(i) {
                let q = choose|q: int| 0 <= q < now.len() && now[q] == i;
                if q < before.len() {
                    assert(before[q] == i);
                }
            }
        }
    }
}

/// What a decoder gives back of what an encoder dealt out: whichever true outer
/// symbols arrived, from whichever groups, in whichever order and however often,
/// as soon as `k` positions are among them they determine the context, and the
/// context is what solves for them.
pub proof fn enough_symbols_return_the_context(
    data: Seq<Seq<u8>>,
    m: nat,
    s: int,
    arrived: Seq<(int, Seq<u8>)>,
)
    requires
        0 < data.len(),
        data.len() + m <= 256,
        0 < s,
        shaped(data, data.len() as int, s),
        forall|i: int|
            0 <= i < arrived.len() ==> 0 <= (#[trigger] arrived[i]).0 < data.len() + m && arrived[i].1
                == codeword(data, m, s)[arrived[i].0],
        first_of_each(arrived).len() >= data.len(),
    ensures
        full_rank(survivor_rows(data.len(), m, first_of_each(arrived)), data.len() as int),
        solves(survivor_rows(data.len(), m, first_of_each(arrived)), data.len() as int, s, data),
        forall|x: Seq<Seq<u8>>|
            shaped(x, data.len() as int, s) && #[trigger] solves(
                survivor_rows(data.len(), m, first_of_each(arrived)),
                data.len() as int,
                s,
                x,
            ) ==> x == data,
{
    let k = data.len();
    repeated_symbols_do_no_harm(k, m, s, data, codeword(data, m, s), arrived);
}

} // verus!
