//! Golden-ratio placement on the hash ring.
//!
//! The `n`-th entity sits at `n` golden steps round the ring. The positions are
//! near-uniform for every number of entities, and none is ever used twice, so
//! that neither coming nor going moves anyone else.
use crate::fib_hash::{golden, golden_of, multiplication_keeps_keys_apart, two_to_64};
use std::collections::btree_map::Range;
use std::collections::{BTreeMap, HashMap};
use vstd::prelude::*;
use vstd::std_specs::iter::IteratorSpec;

verus! {

broadcast use {
    vstd::laws_cmp::group_laws_cmp,
    vstd::std_specs::btree::group_btree_axioms,
    vstd::std_specs::hash::group_hash_axioms,
};

/// The position of the `n`-th entity on a ring of `2^64` places.
pub fn placement_fixed(n: u64) -> (r: u64)
    ensures
        r == golden(n),
{
    golden_of(n)
}

/// How far it is from one place clockwise to another.
pub open spec fn clockwise(from: u64, to: u64) -> int {
    if to >= from {
        to - from
    } else {
        to - from + two_to_64()
    }
}

/// The entity that is responsible for a key: the next one clockwise.
pub open spec fn responsible(homes: Map<u64, u64>, key: u64, id: u64) -> bool {
    homes.contains_key(id) && forall|other: u64| #[trigger]
        homes.contains_key(other) ==> clockwise(golden(key), homes[id]) <= clockwise(
            golden(key),
            homes[other],
        )
}

/// An iterator over part of a `BTreeMap`.
#[verifier::external_type_specification]
#[verifier::external_body]
#[verifier::reject_recursive_types(K)]
#[verifier::reject_recursive_types(V)]
pub struct ExRange<'a, K, V>(std::collections::btree_map::Range<'a, K, V>);

/// `next` of such an iterator. What is claimed of it is what holds of `next` of
/// every iterator that keeps to the laws of iterators: it gives the first of what
/// remains and leaves the rest.
pub assume_specification<'a, K, V>[ <std::collections::btree_map::Range<'a, K, V> as std::iter::Iterator>::next ](
    it: &mut std::collections::btree_map::Range<'a, K, V>,
) -> (r: Option<(&'a K, &'a V)>);

/// Calls `BTreeMap::range` with everything from `at` on. Claims that the iterator
/// gives the entries of the map whose keys are no less than `at`, each of them
/// once, in the order of their keys.
#[verifier::external_body]
fn entries_from<'a>(nodes: &'a BTreeMap<u64, u64>, at: u64) -> (r: Range<'a, u64, u64>)
    ensures
        r.obeys_prophetic_iter_laws(),
        forall|i: int|
            0 <= i < r.remaining().len() ==> at <= *(#[trigger] r.remaining()[i]).0
                && nodes@.contains_pair(*r.remaining()[i].0, *r.remaining()[i].1),
        forall|p: u64| #[trigger]
            nodes@.contains_key(p) && at <= p ==> exists|i: int|
                0 <= i < r.remaining().len() && *(#[trigger] r.remaining()[i]).0 == p,
        forall|i: int, j: int|
            0 <= i < j < r.remaining().len() ==> *(#[trigger] r.remaining()[i]).0 < *(
            #[trigger] r.remaining()[j]).0,
{
    nodes.range(at..)
}

/// A consistent-hash ring.
#[derive(Debug)]
pub struct GoldenRing {
    /// The entity at every position that is taken.
    nodes: BTreeMap<u64, u64>,
    /// The position of every entity.
    id_to_pos: HashMap<u64, u64>,
    /// How many positions have been given out.
    counter: u64,
}

/// What a ring holds: where every entity is, and how many positions have been
/// given out.
pub struct RingView {
    pub homes: Map<u64, u64>,
    pub counter: u64,
}

impl View for GoldenRing {
    type V = RingView;

    closed spec fn view(&self) -> RingView {
        RingView { homes: self.id_to_pos@, counter: self.counter }
    }
}

/// A position that has been given out.
pub open spec fn given_out(pos: u64, counter: u64) -> bool {
    exists|c: u64| c < counter && #[trigger] golden(c) == pos
}

impl GoldenRing {
    /// The two maps undo each other, and every position has been given out.
    #[verifier::type_invariant]
    pub closed spec fn wf(&self) -> bool {
        &&& forall|pos: u64| #[trigger]
            self.nodes@.contains_key(pos) ==> {
                let id = self.nodes@[pos];
                &&& self.id_to_pos@.contains_key(id)
                &&& self.id_to_pos@[id] == pos
                &&& given_out(pos, self.counter)
            }
        &&& forall|id: u64| #[trigger]
            self.id_to_pos@.contains_key(id) ==> {
                let pos = self.id_to_pos@[id];
                &&& self.nodes@.contains_key(pos)
                &&& self.nodes@[pos] == id
            }
    }

    /// An empty ring.
    pub fn new() -> (r: Self)
        ensures
            r@.homes == Map::<u64, u64>::empty(),
            r@.homes.dom().finite(),
            r@.counter == 0,
    {
        GoldenRing { nodes: BTreeMap::new(), id_to_pos: HashMap::new(), counter: 0 }
    }

    /// Give an entity a place; one that has a place keeps it.
    pub fn add(&mut self, entity_id: u64)
        requires
            old(self)@.homes.contains_key(entity_id) || old(self)@.counter < u64::MAX,
        ensures
            final(self)@ == (if old(self)@.homes.contains_key(entity_id) {
                old(self)@
            } else {
                RingView {
                    homes: old(self)@.homes.insert(entity_id, golden(old(self)@.counter)),
                    counter: (old(self)@.counter + 1) as u64,
                }
            }),
            final(self)@.homes.dom().finite(),
            final(self)@.homes.len() == old(self)@.homes.len() + (if old(self)@.homes.contains_key(
                entity_id,
            ) {
                0nat
            } else {
                1nat
            }),
    {
        proof {
            use_type_invariant(&*self);
        }
        if self.id_to_pos.contains_key(&entity_id) {
            return;
        }
        let ghost nodes = self.nodes@;
        let ghost homes = self.id_to_pos@;
        let ghost c = self.counter;
        let pos: u64 = placement_fixed(self.counter);
        assert(!nodes.contains_key(pos)) by {
            if nodes.contains_key(pos) {
                let d = choose|d: u64| d < c && #[trigger] golden(d) == pos;
                multiplication_keeps_keys_apart(d, c);
            }
        }
        let mut ring: GoldenRing = GoldenRing::new();
        std::mem::swap(self, &mut ring);
        let counter: u64 = ring.counter + 1;
        let mut taken: BTreeMap<u64, u64> = ring.nodes;
        let mut map: HashMap<u64, u64> = ring.id_to_pos;
        let _none: Option<u64> = taken.insert(pos, entity_id);
        let _new: Option<u64> = map.insert(entity_id, pos);
        proof {
            assert forall|p: u64| #[trigger] taken@.contains_key(p) implies {
                let id = taken@[p];
                &&& map@.contains_key(id)
                &&& map@[id] == p
                &&& given_out(p, counter)
            } by {
                if p == pos {
                    assert(golden(c) == pos);
                } else {
                    assert(nodes.contains_key(p));
                    let d = choose|d: u64| d < c && #[trigger] golden(d) == p;
                    assert(d < counter && golden(d) == p);
                }
            }
            assert forall|id: u64| #[trigger] map@.contains_key(id) implies taken@.contains_key(
                map@[id],
            ) && taken@[map@[id]] == id by {
                if id != entity_id {
                    assert(homes.contains_key(id));
                }
            }
        }
        *self = GoldenRing { nodes: taken, id_to_pos: map, counter };
    }

    /// Take an entity off the ring; `false` where it is not on it.
    pub fn remove(&mut self, entity_id: u64) -> (r: bool)
        ensures
            r == old(self)@.homes.contains_key(entity_id),
            final(self)@ == (RingView {
                homes: old(self)@.homes.remove(entity_id),
                counter: old(self)@.counter,
            }),
            final(self)@.homes.dom().finite(),
            final(self)@.homes.len() + (if r {
                1nat
            } else {
                0nat
            }) == old(self)@.homes.len(),
    {
        proof {
            use_type_invariant(&*self);
        }
        let ghost nodes = self.nodes@;
        let ghost homes = self.id_to_pos@;
        let mut ring: GoldenRing = GoldenRing::new();
        std::mem::swap(self, &mut ring);
        let counter: u64 = ring.counter;
        let mut taken: BTreeMap<u64, u64> = ring.nodes;
        let mut map: HashMap<u64, u64> = ring.id_to_pos;
        let r: bool = match map.remove(&entity_id) {
            Some(pos) => {
                let _gone: Option<u64> = taken.remove(&pos);
                proof {
                    assert(taken@ == nodes.remove(pos));
                    assert(map@ == homes.remove(entity_id));
                    assert forall|p: u64| #[trigger] taken@.contains_key(p) implies {
                        let id = taken@[p];
                        &&& map@.contains_key(id)
                        &&& map@[id] == p
                        &&& given_out(p, counter)
                    } by {
                        assert(nodes.contains_key(p));
                    }
                    assert forall|id: u64| #[trigger] map@.contains_key(id) implies taken@.contains_key(
                        map@[id],
                    ) && taken@[map@[id]] == id by {
                        assert(homes.contains_key(id));
                    }
                }
                true
            },
            None => {
                assert(homes.remove(entity_id) =~= homes);
                false
            },
        };
        *self = GoldenRing { nodes: taken, id_to_pos: map, counter };
        r
    }

    /// The entity that is responsible for a key: the one at the first position
    /// from the key's on, or else at the first of all.
    pub fn route(&self, key: u64) -> (r: Option<u64>)
        ensures
            match r {
                Some(id) => responsible(self@.homes, key, id),
                None => self@.homes == Map::<u64, u64>::empty(),
            },
    {
        let ghost homes = self.id_to_pos@;
        let ghost nodes = self.nodes@;
        proof {
            use_type_invariant(self);
        }
        let at: u64 = placement_fixed(key);
        let mut behind: Range<u64, u64> = entries_from(&self.nodes, at);
        let ghost from = behind.remaining();
        match behind.next() {
            Some((pos, id)) => {
                proof {
                    assert((pos, id) == from[0]);
                    assert forall|other: u64| #[trigger] homes.contains_key(other) implies clockwise(
                        golden(key),
                        homes[*id],
                    ) <= clockwise(golden(key), homes[other]) by {
                        let p = homes[other];
                        assert(nodes.contains_key(p));
                        if p >= at {
                            let i = choose|i: int| 0 <= i < from.len() && *(#[trigger] from[i]).0 == p;
                            if i > 0 {
                                assert(*from[0].0 < *from[i].0);
                            }
                        }
                    }
                }
                return Some(*id);
            },
            None => {},
        }
        assert forall|p: u64| #[trigger] nodes.contains_key(p) implies p < at by {
            if p >= at {
                let i = choose|i: int| 0 <= i < from.len() && *(#[trigger] from[i]).0 == p;
            }
        }
        let mut whole: Range<u64, u64> = entries_from(&self.nodes, 0);
        let ghost all = whole.remaining();
        match whole.next() {
            Some((pos, id)) => {
                proof {
                    assert((pos, id) == all[0]);
                    assert forall|other: u64| #[trigger] homes.contains_key(other) implies clockwise(
                        golden(key),
                        homes[*id],
                    ) <= clockwise(golden(key), homes[other]) by {
                        let p = homes[other];
                        assert(nodes.contains_key(p));
                        let i = choose|i: int| 0 <= i < all.len() && *(#[trigger] all[i]).0 == p;
                        if i > 0 {
                            assert(*all[0].0 < *all[i].0);
                        }
                    }
                }
                Some(*id)
            },
            None => {
                proof {
                    assert forall|id: u64| !#[trigger] homes.contains_key(id) by {
                        if homes.contains_key(id) {
                            assert(nodes.contains_key(homes[id]));
                            let i = choose|i: int|
                                0 <= i < all.len() && *(#[trigger] all[i]).0 == homes[id];
                        }
                    }
                    assert(homes =~= Map::<u64, u64>::empty());
                }
                None
            },
        }
    }

    /// No two entities have the same place.
    pub proof fn places_are_distinct(&self, a: u64, b: u64)
        requires
            self.wf(),
            self@.homes.contains_key(a),
            self@.homes.contains_key(b),
            a != b,
        ensures
            self@.homes[a] != self@.homes[b],
    {
    }

    /// How many entities are on the ring.
    pub fn len(&self) -> (n: usize)
        ensures
            n == self@.homes.len(),
            self@.homes.dom().finite(),
    {
        self.id_to_pos.len()
    }

    /// Whether no entity is on the ring.
    pub fn is_empty(&self) -> (r: bool)
        ensures
            r == (self@.homes.len() == 0),
    {
        self.len() == 0
    }
}

impl Default for GoldenRing {
    fn default() -> (r: Self)
        ensures
            r@.homes == Map::<u64, u64>::empty(),
            r@.counter == 0,
    {
        Self::new()
    }
}

/// A key that another entity is responsible for stays with it when one leaves.
pub proof fn leaving_moves_no_other_key(homes: Map<u64, u64>, key: u64, id: u64, gone: u64)
    requires
        responsible(homes, key, id),
        id != gone,
    ensures
        responsible(homes.remove(gone), key, id),
{
    let rest = homes.remove(gone);
    assert forall|other: u64| #[trigger] rest.contains_key(other) implies clockwise(
        golden(key),
        rest[id],
    ) <= clockwise(golden(key), rest[other]) by {
        assert(homes.contains_key(other));
    }
}

/// When an entity comes, a key stays where it is or moves to the newcomer.
pub proof fn coming_moves_keys_only_to_the_newcomer(
    homes: Map<u64, u64>,
    key: u64,
    id: u64,
    new: u64,
    pos: u64,
)
    requires
        responsible(homes, key, id),
        !homes.contains_key(new),
    ensures
        responsible(homes.insert(new, pos), key, id) || responsible(
            homes.insert(new, pos),
            key,
            new,
        ),
{
    let all = homes.insert(new, pos);
    let k = golden(key);
    if clockwise(k, homes[id]) <= clockwise(k, pos) {
        assert forall|other: u64| #[trigger] all.contains_key(other) implies clockwise(k, all[id])
            <= clockwise(k, all[other]) by {
            if other != new {
                assert(homes.contains_key(other));
            }
        }
    } else {
        assert forall|other: u64| #[trigger] all.contains_key(other) implies clockwise(k, all[new])
            <= clockwise(k, all[other]) by {
            if other != new {
                assert(homes.contains_key(other));
            }
        }
    }
}

/// Entities at different positions are not both responsible for a key.
pub proof fn one_entity_is_responsible(homes: Map<u64, u64>, key: u64, a: u64, b: u64)
    requires
        responsible(homes, key, a),
        responsible(homes, key, b),
        a != b ==> homes[a] != homes[b],
    ensures
        a == b,
{
}

} // verus!
