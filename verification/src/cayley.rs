//! Circulant overlays: the Cayley graphs of the cyclic groups.
//!
//! Node `u` of a graph of size `n` is joined to `u + s` and `u - s` modulo `n`
//! for every jump `s`. Every node looks like every other, so none is a hot relay.
use crate::text::{decimal, number};
use crate::zeckendorf::fib;
use vstd::arithmetic::div_mod::{
    lemma_add_mod_noop,
    lemma_add_mod_noop_right,
    lemma_div_is_ordered,
    lemma_fundamental_div_mod,
    lemma_mod_add_multiples_vanish,
    lemma_mod_twice,
    lemma_small_mod,
};
use vstd::math::abs;
use vstd::prelude::*;
use vstd::string::*;

verus! {

/// What can go wrong.
#[derive(Debug, Clone, Copy, PartialEq, Eq, Structural)]
pub enum CayleyError {
    /// There is no such node.
    OutOfRange { id: usize, n: usize },
    /// No path was found.
    NoPath { from: usize, to: usize },
}

impl CayleyError {
    /// What the error says.
    pub open spec fn says(self) -> Seq<char> {
        match self {
            CayleyError::OutOfRange { id, n } => "node id "@ + decimal(id as nat)
                + " out of range for n="@ + decimal(n as nat),
            CayleyError::NoPath { from, to } => "no path found "@ + decimal(from as nat) + "->"@
                + decimal(to as nat),
        }
    }

    /// What the error says.
    pub fn message(&self) -> (r: String)
        ensures
            r@ == self.says(),
    {
        match self {
            CayleyError::OutOfRange { id, n } => "node id ".to_owned().concat(
                number(*id as u64).as_str(),
            ).concat(" out of range for n=").concat(number(*n as u64).as_str()),
            CayleyError::NoPath { from, to } => "no path found ".to_owned().concat(
                number(*from as u64).as_str(),
            ).concat("->").concat(number(*to as u64).as_str()),
        }
    }
}

/// A circulant graph.
#[derive(Debug)]
pub struct CayleyGraph {
    pub n: usize,
    /// The jumps: distinct, in order, none more than half way round.
    pub jumps: Vec<usize>,
}

/// A jump and its inverse lead to the same neighbours: the one that goes no more
/// than half way round. No jump at all counts as one of one.
pub open spec fn normal(s: nat, n: nat) -> nat {
    let r = if s % n == 0 {
        1
    } else {
        s % n
    };
    if r > n / 2 {
        (n - r) as nat
    } else {
        r
    }
}

/// Numbers in order, none twice.
pub open spec fn ascending(v: Seq<usize>) -> bool {
    forall|i: int, j: int| 0 <= i < j < v.len() ==> #[trigger] v[i] < #[trigger] v[j]
}

/// The normal forms of some jumps, in order, none twice.
pub open spec fn normal_jumps(out: Seq<usize>, jumps: Seq<usize>, n: nat) -> bool {
    &&& ascending(out)
    &&& forall|i: int|
        0 <= i < jumps.len() ==> out.contains(normal(#[trigger] jumps[i] as nat, n) as usize)
    &&& forall|k: int|
        0 <= k < out.len() ==> exists|i: int|
            0 <= i < jumps.len() && normal(#[trigger] jumps[i] as nat, n) == #[trigger] out[k]
}

/// Put a number into its place among others, unless it is there.
fn insert_number(v: &mut Vec<usize>, x: usize) -> (at: Ghost<int>)
    requires
        ascending(old(v)@),
    ensures
        ascending(final(v)@),
        old(v)@.contains(x) ==> final(v)@ == old(v)@,
        !old(v)@.contains(x) ==> 0 <= at@ <= old(v)@.len() && final(v)@ == old(v)@.insert(at@, x),
        final(v)@.contains(x),
{
    let ghost before = v@;
    let mut i: usize = 0;
    while i < v.len() && v[i] < x
        invariant
            i <= v@.len(),
            v@ == before,
            forall|k: int| 0 <= k < i ==> #[trigger] v@[k] < x,
        decreases v@.len() - i,
    {
        i += 1;
    }
    if i < v.len() && v[i] == x {
        assert(before[i as int] == x);
        return Ghost(0);
    }
    assert(!before.contains(x)) by {
        if before.contains(x) {
            let k = choose|k: int| 0 <= k < before.len() && before[k] == x;
            if k > i {
                assert(before[i as int] < before[k]);
            }
        }
    }
    v.insert(i, x);
    assert(v@[i as int] == x);
    assert forall|a: int, b: int| 0 <= a < b < v@.len() implies #[trigger] v@[a] < #[trigger] v@[b] by {
        if a < i && b > i {
            assert(before[a] < before[b - 1]);
        } else if a == i {
            if i < b - 1 {
                assert(before[i as int] < before[b - 1]);
            }
        } else if a > i {
            assert(before[a - 1] < before[b - 1]);
        }
    }
    Ghost(i as int)
}

/// The normal form of a jump.
fn normal_of(s: usize, n: usize) -> (r: usize)
    requires
        n > 0,
    ensures
        r == normal(s as nat, n as nat),
{
    let m: usize = s % n;
    let r: usize = if m == 0 {
        1
    } else {
        m
    };
    if r > n / 2 {
        n - r
    } else {
        r
    }
}

/// How many Fibonacci numbers from 1, 2 on are no more than `half`, from number
/// `i` on.
pub open spec fn fibs_up_to(half: nat, i: nat) -> nat
    decreases 2 * half + 2 - fib(i),
{
    proof {
        lemma_fib_rises(i);
    }
    if fib(i) > half {
        i
    } else {
        fibs_up_to(half, i + 1)
    }
}

/// The Fibonacci numbers rise.
pub proof fn lemma_fib_rises(i: nat)
    ensures
        0 < fib(i) < fib(i + 1) <= 2 * fib(i),
    decreases i,
{
    if i > 0 {
        lemma_fib_rises((i - 1) as nat);
        if i > 1 {
            lemma_fib_rises((i - 2) as nat);
        }
    }
}

/// The jumps that are chosen for a degree: Fibonacci numbers up to half way
/// round, evenly spaced.
pub open spec fn spread_jumps(n: nat, degree: nat) -> Seq<usize> {
    let c = fibs_up_to(n / 2, 0);
    if c == 0 {
        seq![1usize]
    } else {
        let step = if c / degree > 1 {
            c / degree
        } else {
            1
        };
        let all = (c + step - 1) / step as int;
        Seq::new(
            if all < degree {
                all as nat
            } else {
                degree
            },
            |i: int| fib((i * step) as nat) as usize,
        )
    }
}

impl CayleyGraph {
    /// The jumps are in normal form and in order.
    pub open spec fn wf(&self) -> bool {
        &&& self.n > 0
        &&& ascending(self.jumps@)
        &&& forall|i: int| 0 <= i < self.jumps@.len() ==> #[trigger] self.jumps@[i] <= self.n / 2
    }

    /// The graph of size `n` with some jumps.
    pub fn new(n: usize, jumps: Vec<usize>) -> (r: Self)
        requires
            n > 0,
        ensures
            r.wf(),
            r.n == n,
            normal_jumps(r.jumps@, jumps@, n as nat),
    {
        let mut out: Vec<usize> = Vec::new();
        let mut i: usize = 0;
        while i < jumps.len()
            invariant
                i <= jumps@.len(),
                n > 0,
                normal_jumps(out@, jumps@.take(i as int), n as nat),
                forall|k: int| 0 <= k < out@.len() ==> #[trigger] out@[k] <= n / 2,
            decreases jumps@.len() - i,
        {
            let ghost before = out@;
            let ghost seen = jumps@.take(i as int);
            let ghost now = jumps@.take(i + 1);
            let x: usize = normal_of(jumps[i], n);
            assert(now[i as int] == jumps@[i as int]);
            let at: Ghost<int> = insert_number(&mut out, x);
            assert forall|k: int| 0 <= k < out@.len() implies exists|j: int|
                0 <= j < now.len() && normal(#[trigger] now[j] as nat, n as nat)
                    == #[trigger] out@[k] by {
                if out@[k] == x {
                    assert(normal(now[i as int] as nat, n as nat) == out@[k]);
                } else {
                    assert(before.contains(out@[k])) by {
                        if !before.contains(x) {
                            if k < at@ {
                                assert(before[k] == out@[k]);
                            } else {
                                assert(before[k - 1] == out@[k]);
                            }
                        }
                    }
                    let b = choose|b: int| 0 <= b < before.len() && before[b] == out@[k];
                    let j = choose|j: int|
                        0 <= j < seen.len() && normal(#[trigger] seen[j] as nat, n as nat)
                            == before[b];
                    assert(now[j] == seen[j]);
                }
            }
            assert forall|j: int| 0 <= j < now.len() implies out@.contains(
                normal(#[trigger] now[j] as nat, n as nat) as usize,
            ) by {
                if j < i {
                    assert(seen[j] == now[j]);
                    let y = normal(now[j] as nat, n as nat) as usize;
                    let b = choose|b: int| 0 <= b < before.len() && before[b] == y;
                    if !before.contains(x) {
                        if b < at@ {
                            assert(out@[b] == y);
                        } else {
                            assert(out@[b + 1] == y);
                        }
                    }
                }
            }
            assert forall|k: int| 0 <= k < out@.len() implies #[trigger] out@[k] <= n / 2 by {
                if !before.contains(x) {
                    if k < at@ {
                        assert(before[k] == out@[k]);
                    } else if k > at@ {
                        assert(before[k - 1] == out@[k]);
                    }
                }
            }
            i += 1;
        }
        assert(jumps@.take(i as int) =~= jumps@);
        CayleyGraph { n, jumps: out }
    }

    /// The graph of size `n` with evenly spaced Fibonacci jumps.
    pub fn fibonacci_jumps(n: usize, degree: usize) -> (r: Self)
        requires
            n > 0,
            degree > 0 || n < 2,
        ensures
            r.wf(),
            r.n == n,
            normal_jumps(r.jumps@, spread_jumps(n as nat, degree as nat), n as nat),
    {
        let half: usize = n / 2;
        let mut fibs: Vec<usize> = Vec::new();
        let mut a: usize = 1;
        let mut b: usize = 2;
        assert(fib(0) == 1 && fib(1) == 2);
        while a <= half
            invariant
                n > 0,
                half == n / 2,
                degree > 0 || n < 2,
                a == fib(fibs@.len()),
                b == fib(fibs@.len() + 1),
                a < b,
                a <= half ==> b <= 2 * half + 1,
                fibs_up_to(half as nat, 0) == fibs_up_to(half as nat, fibs@.len()),
                forall|i: int| 0 <= i < fibs@.len() ==> #[trigger] fibs@[i] == fib(i as nat),
            decreases half + 1 - a,
        {
            proof {
                lemma_fib_rises(fibs@.len());
                lemma_fib_rises(fibs@.len() + 1);
            }
            fibs.push(a);
            if b <= half {
                let c: usize = a + b;
                a = b;
                b = c;
            } else {
                assert(fibs_up_to(half as nat, fibs@.len()) == fibs@.len());
                let c: Vec<usize> = choose_spaced(&fibs, degree);
                return Self::new(n, c);
            }
        }
        assert(fibs_up_to(half as nat, fibs@.len()) == fibs@.len());
        let c: Vec<usize> = choose_spaced(&fibs, degree);
        Self::new(n, c)
    }
}

/// Numbers evenly spaced, as many as asked for; 1 where there are none.
fn choose_spaced(fibs: &Vec<usize>, degree: usize) -> (r: Vec<usize>)
    requires
        degree > 0 || fibs@.len() == 0,
        forall|i: int| 0 <= i < fibs@.len() ==> #[trigger] fibs@[i] == fib(i as nat),
    ensures
        fibs@.len() == 0 ==> r@ == seq![1usize],
        fibs@.len() > 0 ==> ({
            let c = fibs@.len() as int;
            let step = if c / degree as int > 1 {
                c / degree as int
            } else {
                1
            };
            let all = (c + step - 1) / step;
            r@ == Seq::new(
                if all < degree {
                    all as nat
                } else {
                    degree as nat
                },
                |i: int| fib((i * step) as nat) as usize,
            )
        }),
{
    let mut out: Vec<usize> = Vec::new();
    let c: usize = fibs.len();
    if c == 0 {
        out.push(1);
        assert(out@ =~= seq![1usize]);
        return out;
    }
    let step: usize = if c / degree > 1 {
        c / degree
    } else {
        1
    };
    let ghost all = (c + step - 1) / step as int;
    let mut i: usize = 0;
    let mut more: bool = true;
    assert(out@.len() * step == 0) by (nonlinear_arith)
        requires
            out@.len() == 0,
    ;
    while more && i < c && out.len() < degree
        invariant
            c == fibs@.len(),
            1 <= step <= c,
            all == (c + step - 1) / step as int,
            forall|k: int| 0 <= k < fibs@.len() ==> #[trigger] fibs@[k] == fib(k as nat),
            out@.len() <= degree,
            more ==> i == out@.len() * step,
            !more ==> c <= out@.len() * step,
            out@.len() > 0 ==> (out@.len() - 1) * step < c,
            forall|k: int|
                0 <= k < out@.len() ==> #[trigger] out@[k] == fib((k * step) as nat) as usize,
        decreases c - i, (if more {
                1int
            } else {
                0int
            }),
    {
        out.push(fibs[i]);
        assert((out@.len() - 1) * step == i);
        assert(out@.len() * step == i + step) by (nonlinear_arith)
            requires
                (out@.len() - 1) * step == i,
        ;
        if c - i <= step {
            more = false;
        } else {
            i += step;
        }
    }
    proof {
        let len = out@.len() as int;
        if len < degree {
            assert(c <= len * step);
            assert((len - 1) * step < c);
            assert((len - 1) * step == len * step - step) by (nonlinear_arith);
            vstd::arithmetic::div_mod::lemma_fundamental_div_mod_converse(
                c + step - 1,
                step as int,
                len,
                c + step - 1 - len * step,
            );
        } else {
            assert(all >= degree) by {
                let r = (c + step - 1) % (step as int);
                lemma_fundamental_div_mod(c + step - 1, step as int);
                assert(all >= degree) by (nonlinear_arith)
                    requires
                        c + step - 1 == step * all + r,
                        0 <= r < step,
                        (degree - 1) * step < c,
                ;
            }
        }
        let want = Seq::new(
            if all < degree {
                all as nat
            } else {
                degree as nat
            },
            |i: int| fib((i * step) as nat) as usize,
        );
        assert(out@ =~= want);
    }
    out
}

// ---- neighbours and walks ---------------------------------------------------
impl CayleyGraph {
    /// The neighbours of a node, two for each jump.
    #[verifier::opaque]
    pub open spec fn around(&self, u: int) -> Seq<usize> {
        Seq::new(
            2 * self.jumps@.len(),
            |k: int|
                if k % 2 == 0 {
                    ((u + self.jumps@[k / 2]) % (self.n as int)) as usize
                } else {
                    ((u + self.n - self.jumps@[k / 2]) % (self.n as int)) as usize
                },
        )
    }

    /// There is an edge between two nodes.
    pub open spec fn joined(&self, u: usize, v: usize) -> bool {
        self.around(u as int).contains(v)
    }

    /// Nodes that follow one another along edges.
    pub open spec fn walk(&self, w: Seq<usize>) -> bool {
        &&& w.len() > 0
        &&& forall|i: int| 0 <= i < w.len() ==> #[trigger] w[i] < self.n
        &&& forall|i: int, j: int|
            0 <= i && j == i + 1 && j < w.len() ==> self.joined(#[trigger] w[i], #[trigger] w[j])
    }

    /// A walk between two nodes.
    pub open spec fn leads(&self, w: Seq<usize>, from: usize, to: usize) -> bool {
        self.walk(w) && w[0] == from && w.last() == to
    }

    /// Among the neighbours of `u`, `a` is listed before `b` is.
    pub open spec fn listed_before(&self, u: usize, a: usize, b: usize) -> bool {
        exists|i: int|
            0 <= i < self.around(u as int).len() && #[trigger] self.around(u as int)[i] == a
                && forall|j: int| 0 <= j <= i ==> self.around(u as int)[j] != b
    }

    /// Where two walks part, the first goes on to the neighbour that is listed first.
    pub open spec fn earlier(&self, p: Seq<usize>, w: Seq<usize>) -> bool {
        exists|i: int|
            0 < i < p.len() && i < w.len() && #[trigger] p.take(i) == w.take(i)
                && self.listed_before(p[i - 1], p[i], w[i])
    }

    /// The shortest walks between two nodes have `d` edges.
    pub open spec fn apart(&self, from: usize, to: usize, d: nat) -> bool {
        &&& exists|w: Seq<usize>| #[trigger] self.leads(w, from, to) && w.len() == d + 1
        &&& forall|w: Seq<usize>| #[trigger] self.leads(w, from, to) ==> w.len() >= d + 1
    }

    /// No walk leads from one node to the other.
    pub open spec fn cut_off(&self, from: usize, to: usize) -> bool {
        forall|w: Seq<usize>| !#[trigger] self.leads(w, from, to)
    }

    proof fn lemma_around(&self, u: int)
        requires
            self.wf(),
            0 <= u < self.n,
        ensures
            forall|k: int|
                0 <= k < self.around(u).len() ==> #[trigger] self.around(u)[k] < self.n,
    {
        reveal(CayleyGraph::around);
    }

    /// The neighbours of a node.
    pub fn neighbors(&self, u: usize) -> (out: Vec<usize>)
        requires
            self.wf(),
            u + self.n <= usize::MAX,
        ensures
            out@ == self.around(u as int),
    {
        proof {
            reveal(CayleyGraph::around);
        }
        let mut out: Vec<usize> = Vec::new();
        let mut i: usize = 0;
        while i < self.jumps.len()
            invariant
                i <= self.jumps@.len(),
                self.wf(),
                u + self.n <= usize::MAX,
                out@ =~= self.around(u as int).take(2 * i as int),
            decreases self.jumps@.len() - i,
        {
            proof {
                reveal(CayleyGraph::around);
            }
            let s: usize = self.jumps[i];
            assert(s <= self.n / 2);
            out.push((u + s) % self.n);
            out.push((u + self.n - s) % self.n);
            i += 1;
        }
        assert(out@ =~= self.around(u as int));
        out
    }
}

// ---- breadth-first search ---------------------------------------------------
/// How many of the first `n` nodes have not been seen.
spec fn unseen(dist: Seq<usize>, n: nat) -> nat
    decreases n,
{
    if n == 0 {
        0
    } else {
        unseen(dist, (n - 1) as nat) + if dist[n - 1] == usize::MAX {
            1nat
        } else {
            0nat
        }
    }
}

proof fn lemma_unseen_update(dist: Seq<usize>, v: int, d: usize, n: nat)
    requires
        n <= dist.len(),
        0 <= v < dist.len(),
        dist[v] == usize::MAX,
        d != usize::MAX,
    ensures
        unseen(dist.update(v, d), n) == (if v < n {
            unseen(dist, n) - 1
        } else {
            unseen(dist, n) as int
        }),
        v < n ==> unseen(dist, n) >= 1,
    decreases n,
{
    if n > 0 {
        lemma_unseen_update(dist, v, d, (n - 1) as nat);
    }
}

proof fn lemma_all_unseen(dist: Seq<usize>, n: nat)
    requires
        n <= dist.len(),
        forall|i: int| 0 <= i < n ==> #[trigger] dist[i] == usize::MAX,
    ensures
        unseen(dist, n) == n,
    decreases n,
{
    if n > 0 {
        lemma_all_unseen(dist, (n - 1) as nat);
    }
}

/// One place in the search comes before another: an earlier node of the queue, or
/// an earlier neighbour of the same one.
spec fn before(a: int, m: int, b: int, k: int) -> bool {
    a < b || (a == b && m < k)
}

/// The way that a search leaves to a node `d` edges from where it began.
spec fn way(prev: Seq<usize>, d: nat, v: usize) -> Seq<usize>
    decreases d,
{
    if d == 0 {
        seq![v]
    } else {
        way(prev, (d - 1) as nat, prev[v as int]).push(v)
    }
}

/// The way to a node, followed by what has been walked back, one step further back.
proof fn lemma_way_back(prev: Seq<usize>, d: nat, cur: usize, back: Seq<usize>)
    requires
        d > 0,
        back.len() > 0,
        back.last() == cur,
    ensures
        way(prev, d, cur) + back.drop_last().reverse() == way(
            prev,
            (d - 1) as nat,
            prev[cur as int],
        ) + back.reverse(),
{
    let w = way(prev, (d - 1) as nat, prev[cur as int]);
    assert(way(prev, d, cur) == w.push(cur));
    assert(back.reverse() =~= seq![cur] + back.drop_last().reverse());
    assert(w.push(cur) + back.drop_last().reverse() =~= w + back.reverse());
}

proof fn lemma_way_len(prev: Seq<usize>, d: nat, v: usize)
    ensures
        way(prev, d, v).len() == d + 1,
        way(prev, d, v).last() == v,
    decreases d,
{
    if d > 0 {
        lemma_way_len(prev, (d - 1) as nat, prev[v as int]);
    }
}

impl CayleyGraph {
    /// The queue holds the nodes that have been seen, nearest first.
    #[verifier::opaque]
    spec fn queued(&self, from: usize, dist: Seq<usize>, q: Seq<usize>) -> bool {
        &&& q.len() > 0
        &&& q.len() + unseen(dist, self.n as nat) == self.n
        &&& dist[from as int] == 0
        &&& forall|i: int|
            0 <= i < q.len() ==> (#[trigger] q[i]) < self.n && dist[q[i] as int] <= i
        &&& forall|v: int| 0 <= v < self.n && #[trigger] dist[v] != usize::MAX ==> q.contains(
            v as usize,
        )
        &&& forall|i: int, j: int|
            0 <= i <= j < q.len() ==> dist[#[trigger] q[i] as int] <= dist[#[trigger] q[j] as int]
    }

    /// No node that has been seen is further than one edge behind the next.
    #[verifier::opaque]
    spec fn level(&self, dist: Seq<usize>, q: Seq<usize>, head: int) -> bool {
        head < q.len() ==> forall|j: int|
            0 <= j < q.len() ==> dist[#[trigger] q[j] as int] <= dist[q[head] as int] + 1
    }

    /// Every node that has been seen but the first has one before it.
    #[verifier::opaque]
    spec fn tree(&self, from: usize, dist: Seq<usize>, prev: Seq<usize>) -> bool {
        forall|v: int|
            0 <= v < self.n && #[trigger] dist[v] != usize::MAX && v != from ==> {
                &&& prev[v] < self.n
                &&& dist[v] == dist[prev[v] as int] + 1
                &&& self.joined(prev[v], v as usize)
            }
    }

    /// The nodes of the queue before `head` are done, and of the next one its
    /// first `k` neighbours.
    #[verifier::opaque]
    spec fn done(&self, dist: Seq<usize>, q: Seq<usize>, head: int, k: int) -> bool {
        forall|i: int, m: int|
            0 <= i < q.len() && 0 <= m < self.around(q[i] as int).len() && (i < head || (i == head
                && m < k)) ==> {
                let v = #[trigger] self.around(#[trigger] q[i] as int)[m] as int;
                dist[v] <= dist[q[i] as int] + 1 && dist[v] != usize::MAX
            }
    }

    /// Node `i` of the queue but the first was found as neighbour number `slot[i]`
    /// of node `par[i]` of the queue, before which it was nowhere to be found; the
    /// nodes are in the order in which they were found.
    #[verifier::opaque]
    spec fn in_order(
        &self,
        dist: Seq<usize>,
        prev: Seq<usize>,
        q: Seq<usize>,
        par: Seq<int>,
        slot: Seq<int>,
        head: int,
        k: int,
    ) -> bool {
        &&& par.len() == q.len()
        &&& slot.len() == q.len()
        &&& forall|i: int|
            0 < i < q.len() ==> {
                &&& 0 <= #[trigger] par[i] < i
                &&& before(par[i], slot[i], head, k)
                &&& prev[q[i] as int] == q[par[i]]
                &&& dist[q[i] as int] == dist[q[par[i]] as int] + 1
                &&& 0 <= slot[i] < self.around(q[par[i]] as int).len()
                &&& self.around(q[par[i]] as int)[slot[i]] == q[i]
            }
        &&& forall|i: int, j: int|
            0 < i < j < q.len() ==> before(#[trigger] par[i], slot[i], #[trigger] par[j], slot[j])
        &&& forall|i: int, a: int, m: int|
            0 < i < q.len() && 0 <= a && 0 <= m < self.around(q[a] as int).len() && before(
                a,
                m,
                #[trigger] par[i],
                slot[i],
            ) ==> #[trigger] self.around(q[a] as int)[m] != q[i]
    }

    proof fn lemma_order_grows(
        &self,
        from: usize,
        dist: Seq<usize>,
        prev: Seq<usize>,
        q: Seq<usize>,
        par: Seq<int>,
        slot: Seq<int>,
        head: int,
        k: int,
        v: usize,
    )
        requires
            self.searching(from, dist, prev, q, head, k),
            self.in_order(dist, prev, q, par, slot, head, k),
            0 <= head < q.len(),
            q[head] < self.n,
            0 <= k < self.around(q[head] as int).len(),
            self.around(q[head] as int)[k] == v,
            v < self.n,
            dist[v as int] == usize::MAX,
            dist[q[head] as int] < usize::MAX - 1,
            forall|i: int| 0 <= i < q.len() ==> #[trigger] q[i] != v && q[i] < self.n,
        ensures
            self.in_order(
                dist.update(v as int, (dist[q[head] as int] + 1) as usize),
                prev.update(v as int, q[head]),
                q.push(v),
                par.push(head),
                slot.push(k),
                head,
                k + 1,
            ),
    {
        reveal(CayleyGraph::in_order);
        reveal(CayleyGraph::done);
        let dist2 = dist.update(v as int, (dist[q[head] as int] + 1) as usize);
        let prev2 = prev.update(v as int, q[head]);
        let q2 = q.push(v);
        let par2 = par.push(head);
        let slot2 = slot.push(k);
        assert forall|i: int| 0 < i < q2.len() implies {
            &&& 0 <= #[trigger] par2[i] < i
            &&& before(par2[i], slot2[i], head, k + 1)
            &&& prev2[q2[i] as int] == q2[par2[i]]
            &&& dist2[q2[i] as int] == dist2[q2[par2[i]] as int] + 1
            &&& 0 <= slot2[i] < self.around(q2[par2[i]] as int).len()
            &&& self.around(q2[par2[i]] as int)[slot2[i]] == q2[i]
        } by {
            if i < q.len() {
                assert(0 <= par[i] < i);
                assert(q[i] != v);
                assert(q[par[i]] != v);
                assert(q2[par[i]] == q[par[i]]);
            } else {
                assert(q[head] != v);
            }
        }
        assert forall|i: int, j: int| 0 < i < j < q2.len() implies before(
            #[trigger] par2[i],
            slot2[i],
            #[trigger] par2[j],
            slot2[j],
        ) by {
            assert(0 <= par[i] < i);
            if j < q.len() {
                assert(before(par[i], slot[i], par[j], slot[j]));
            }
        }
        assert forall|i: int, a: int, m: int|
            0 < i < q2.len() && 0 <= a && 0 <= m < self.around(q2[a] as int).len() && before(
                a,
                m,
                #[trigger] par2[i],
                slot2[i],
            ) implies #[trigger] self.around(q2[a] as int)[m] != q2[i] by {
            if i < q.len() {
                assert(0 <= par[i] < i);
                assert(q2[a] == q[a]);
                assert(self.around(q[a] as int)[m] != q[i]);
            } else {
                assert(q2[a] == q[a]);
                let x = self.around(q[a] as int)[m] as int;
                assert(dist[x] != usize::MAX);
            }
        }
    }

    /// What holds while the nodes of the queue before `head` are done, and of the
    /// next one its first `k` neighbours.
    spec fn searching(
        &self,
        from: usize,
        dist: Seq<usize>,
        prev: Seq<usize>,
        q: Seq<usize>,
        head: int,
        k: int,
    ) -> bool {
        &&& self.wf()
        &&& from < self.n
        &&& dist.len() == self.n
        &&& prev.len() == self.n
        &&& 0 <= head <= q.len()
        &&& self.queued(from, dist, q)
        &&& self.level(dist, q, head)
        &&& self.tree(from, dist, prev)
        &&& self.done(dist, q, head, k)
    }

    proof fn lemma_seen_is_queued(&self, from: usize, dist: Seq<usize>, q: Seq<usize>, v: usize) -> (i:
        int)
        requires
            self.queued(from, dist, q),
            v < self.n,
            dist[v as int] != usize::MAX,
        ensures
            0 <= i < q.len(),
            q[i] == v,
            dist[v as int] <= i,
            q.len() <= self.n,
    {
        reveal(CayleyGraph::queued);
        assert(q.contains(v));
        choose|i: int| 0 <= i < q.len() && q[i] == v
    }

    proof fn lemma_queue_grows(&self, from: usize, d0: Seq<usize>, q0: Seq<usize>, head: int, v: usize)
        requires
            self.queued(from, d0, q0),
            self.level(d0, q0, head),
            d0.len() == self.n,
            from < self.n,
            v < self.n,
            d0[v as int] == usize::MAX,
            0 <= head < q0.len(),
        ensures
            ({
                let d = d0[q0[head] as int];
                let dist = d0.update(v as int, (d + 1) as usize);
                let q = q0.push(v);
                &&& q0[head] < self.n
                &&& d + 1 < self.n
                &&& self.queued(from, dist, q)
                &&& self.level(dist, q, head)
                &&& forall|i: int|
                    0 <= i < q0.len() ==> #[trigger] q0[i] != v && q0[i] < self.n
            }),
    {
        reveal(CayleyGraph::queued);
        reveal(CayleyGraph::level);
        let d = d0[q0[head] as int];
        let dist = d0.update(v as int, (d + 1) as usize);
        let q = q0.push(v);
        assert(d <= head);
        lemma_unseen_update(d0, v as int, 0, self.n as nat);
        lemma_unseen_update(d0, v as int, (d + 1) as usize, self.n as nat);
        assert forall|i: int| 0 <= i < q0.len() implies #[trigger] q0[i] != v && q0[i] < self.n by {
            assert(d0[q0[i] as int] <= i);
        }
        assert forall|i: int| 0 <= i < q.len() implies (#[trigger] q[i]) < self.n && dist[q[i] as int]
            <= i by {
            if i < q0.len() {
                assert(q0[i] < self.n);
            }
        }
        assert forall|x: int| 0 <= x < self.n && #[trigger] dist[x] != usize::MAX implies q.contains(
            x as usize,
        ) by {
            if x == v {
                assert(q[q0.len() as int] == x);
            } else {
                assert(d0[x] != usize::MAX);
                assert(q0.contains(x as usize));
                let i = choose|i: int| 0 <= i < q0.len() && q0[i] == x as usize;
                assert(q[i] == x);
            }
        }
        assert forall|i: int, j: int| 0 <= i <= j < q.len() implies dist[#[trigger] q[i] as int]
            <= dist[#[trigger] q[j] as int] by {
            if j < q0.len() {
                assert(d0[q0[i] as int] <= d0[q0[j] as int]);
            } else if i < q0.len() {
                assert(d0[q0[i] as int] <= d0[q0[head] as int] + 1);
            }
        }
        assert forall|j: int| 0 <= j < q.len() implies dist[#[trigger] q[j] as int] <= dist[
            q[head] as int
        ] + 1 by {
            if j < q0.len() {
                assert(d0[q0[j] as int] <= d0[q0[head] as int] + 1);
            }
        }
    }

    proof fn lemma_tree_grows(
        &self,
        from: usize,
        d0: Seq<usize>,
        p0: Seq<usize>,
        u: usize,
        v: usize,
    )
        requires
            self.tree(from, d0, p0),
            d0.len() == self.n,
            p0.len() == self.n,
            u < self.n,
            v < self.n,
            d0[v as int] == usize::MAX,
            d0[u as int] < usize::MAX - 1,
            self.joined(u, v),
        ensures
            self.tree(from, d0.update(v as int, (d0[u as int] + 1) as usize), p0.update(v as int, u)),
    {
        reveal(CayleyGraph::tree);
        let dist = d0.update(v as int, (d0[u as int] + 1) as usize);
        let prev = p0.update(v as int, u);
        assert forall|x: int|
            0 <= x < self.n && #[trigger] dist[x] != usize::MAX && x != from implies {
            &&& prev[x] < self.n
            &&& dist[x] == dist[prev[x] as int] + 1
            &&& self.joined(prev[x], x as usize)
        } by {
            if x != v {
                assert(d0[x] != usize::MAX);
                assert(d0[x] == d0[p0[x] as int] + 1);
                assert(p0[x] != v);
            }
        }
    }

    proof fn lemma_done_grows(
        &self,
        d0: Seq<usize>,
        q0: Seq<usize>,
        head: int,
        k: int,
        v: usize,
        d: usize,
    )
        requires
            self.wf(),
            self.done(d0, q0, head, k),
            d0.len() == self.n,
            0 <= head < q0.len(),
            v < self.n,
            d0[v as int] == usize::MAX,
            d != usize::MAX,
            d == d0[q0[head] as int] + 1,
            0 <= k < self.around(q0[head] as int).len(),
            self.around(q0[head] as int)[k] == v,
            forall|i: int| 0 <= i < q0.len() ==> #[trigger] q0[i] != v && q0[i] < self.n,
        ensures
            self.done(d0.update(v as int, d), q0.push(v), head, k + 1),
    {
        reveal(CayleyGraph::done);
        let dist = d0.update(v as int, d);
        let q = q0.push(v);
        assert forall|i: int, m: int|
            0 <= i < q.len() && 0 <= m < self.around(q[i] as int).len() && (i < head || (i == head
                && m < k + 1)) implies {
            let x = #[trigger] self.around(#[trigger] q[i] as int)[m] as int;
            dist[x] <= dist[q[i] as int] + 1 && dist[x] != usize::MAX
        } by {
            let x = self.around(q0[i] as int)[m] as int;
            assert(q0[i] != v);
            self.lemma_around(q0[i] as int);
            if !(i == head && m == k) {
                assert(d0[x] <= d0[q0[i] as int] + 1 && d0[x] != usize::MAX);
            }
        }
    }

    /// What a finished search says: the distance of every node that can be
    /// reached, and the node before it on the way.
    spec fn searched(&self, from: usize, dist: Seq<usize>, prev: Seq<usize>) -> bool {
        &&& dist.len() == self.n
        &&& prev.len() == self.n
        &&& dist[from as int] == 0
        &&& forall|v: int| 0 <= v < self.n && #[trigger] dist[v] != usize::MAX ==> dist[v] < self.n
        &&& forall|v: int|
            0 <= v < self.n && #[trigger] dist[v] != usize::MAX && v != from ==> {
                &&& prev[v] < self.n
                &&& dist[v] == dist[prev[v] as int] + 1
                &&& self.joined(prev[v], v as usize)
            }
        &&& forall|w: Seq<usize>|
            #[trigger] self.walk(w) && w[0] == from ==> dist[w.last() as int] != usize::MAX
                && dist[w.last() as int] <= w.len() - 1
    }

    /// Every walk ends at a node that a finished search has seen, no later.
    proof fn lemma_walks_are_seen(
        &self,
        from: usize,
        dist: Seq<usize>,
        prev: Seq<usize>,
        q: Seq<usize>,
        w: Seq<usize>,
    )
        requires
            self.searching(from, dist, prev, q, q.len() as int, 0),
            self.walk(w),
            w[0] == from,
        ensures
            dist[w.last() as int] != usize::MAX,
            dist[w.last() as int] <= w.len() - 1,
        decreases w.len(),
    {
        if w.len() == 1 {
            reveal(CayleyGraph::queued);
        } else {
            let x = w.drop_last();
            assert(self.walk(x)) by {
                assert forall|i: int, j: int| 0 <= i && j == i + 1 && j < x.len() implies self.joined(
                    #[trigger] x[i],
                    #[trigger] x[j],
                ) by {
                    assert(self.joined(w[i], w[j]));
                }
            }
            self.lemma_walks_are_seen(from, dist, prev, q, x);
            let u = x.last();
            assert(u == w[w.len() - 2]);
            assert(self.joined(w[w.len() - 2], w[w.len() - 1]));
            let i = self.lemma_seen_is_queued(from, dist, q, u);
            reveal(CayleyGraph::done);
            let m = choose|m: int|
                0 <= m < self.around(u as int).len() && self.around(u as int)[m] == w.last();
            assert(self.around(q[i] as int)[m] == w.last());
        }
    }

    /// Look at one neighbour.
    fn look(
        &self,
        from: usize,
        dist: &mut Vec<usize>,
        prev: &mut Vec<usize>,
        q: &mut Vec<usize>,
        head: usize,
        k: usize,
        u: usize,
        v: usize,
    ) -> (found: bool)
        requires
            self.searching(from, old(dist)@, old(prev)@, old(q)@, head as int, k as int),
            head < old(q)@.len(),
            u == old(q)@[head as int],
            u < self.n,
            k < self.around(u as int).len(),
            v == self.around(u as int)[k as int],
        ensures
            self.searching(from, final(dist)@, final(prev)@, final(q)@, head as int, k + 1),
            head < final(q)@.len(),
            final(q)@[head as int] == u,
            found == (old(dist)@[v as int] == usize::MAX),
            found ==> {
                &&& old(dist)@[u as int] < usize::MAX - 1
                &&& final(dist)@ == old(dist)@.update(v as int, (old(dist)@[u as int] + 1) as usize)
                &&& final(prev)@ == old(prev)@.update(v as int, u)
                &&& final(q)@ == old(q)@.push(v)
                &&& forall|i: int|
                    0 <= i < old(q)@.len() ==> #[trigger] old(q)@[i] != v && old(q)@[i] < self.n
            },
            !found ==> final(dist)@ == old(dist)@ && final(prev)@ == old(prev)@ && final(q)@
                == old(q)@,
    {
        proof {
            self.lemma_around(u as int);
        }
        if dist[v] != usize::MAX {
            proof {
                let i = self.lemma_seen_is_queued(from, dist@, q@, v);
                reveal(CayleyGraph::level);
                reveal(CayleyGraph::done);
                assert(dist@[q@[i] as int] <= dist@[q@[head as int] as int] + 1);
            }
            return false;
        }
        let d: usize = dist[u];
        proof {
            self.lemma_queue_grows(from, dist@, q@, head as int, v);
            assert(self.joined(u, v)) by {
                assert(self.around(u as int)[k as int] == v);
            }
            self.lemma_tree_grows(from, dist@, prev@, u, v);
            self.lemma_done_grows(dist@, q@, head as int, k as int, v, (d + 1) as usize);
        }
        dist.set(v, d + 1);
        prev.set(v, u);
        q.push(v);
        true
    }

    /// Search the whole graph from a node, nearest nodes first.
    fn search(&self, from: usize) -> (r: (Vec<usize>, Vec<usize>))
        requires
            self.wf(),
            self.n <= usize::MAX / 2,
            from < self.n,
        ensures
            self.searched(from, r.0@, r.1@),
            self.in_some_order(from, r.0@, r.1@),
    {
        let mut dist: Vec<usize> = Vec::new();
        let mut prev: Vec<usize> = Vec::new();
        while dist.len() < self.n
            invariant
                dist@.len() <= self.n,
                prev@.len() == dist@.len(),
                forall|i: int| 0 <= i < dist@.len() ==> #[trigger] dist@[i] == usize::MAX,
            decreases self.n - dist@.len(),
        {
            dist.push(usize::MAX);
            prev.push(0);
        }
        proof {
            lemma_all_unseen(dist@, self.n as nat);
            lemma_unseen_update(dist@, from as int, 0, self.n as nat);
        }
        dist.set(from, 0);
        let mut q: Vec<usize> = Vec::new();
        q.push(from);
        assert(q@[0] == from);
        let mut head: usize = 0;
        let ghost mut par: Seq<int> = seq![0int];
        let ghost mut slot: Seq<int> = seq![0int];
        proof {
            reveal(CayleyGraph::in_order);
            assert(self.in_order(dist@, prev@, q@, par, slot, 0, 0));
            reveal(CayleyGraph::queued);
            reveal(CayleyGraph::level);
            reveal(CayleyGraph::tree);
            reveal(CayleyGraph::done);
            assert(self.searching(from, dist@, prev@, q@, 0, 0));
        }
        while head < q.len()
            invariant
                self.searching(from, dist@, prev@, q@, head as int, 0),
                self.in_order(dist@, prev@, q@, par, slot, head as int, 0),
                q@[0] == from,
                self.n <= usize::MAX / 2,
            decreases self.n - head,
        {
            let u: usize = q[head];
            proof {
                reveal(CayleyGraph::queued);
                assert(q@[head as int] < self.n);
                assert(q@.len() <= self.n);
            }
            let around: Vec<usize> = self.neighbors(u);
            let mut k: usize = 0;
            while k < around.len()
                invariant
                    k <= around@.len(),
                    around@ == self.around(u as int),
                    u < self.n,
                    self.searching(from, dist@, prev@, q@, head as int, k as int),
                    self.in_order(dist@, prev@, q@, par, slot, head as int, k as int),
                    q@[0] == from,
                    head < q@.len(),
                    q@[head as int] == u,
                decreases around@.len() - k,
            {
                let ghost dist0 = dist@;
                let ghost prev0 = prev@;
                let ghost q0 = q@;
                let v: usize = around[k];
                let found: bool = self.look(from, &mut dist, &mut prev, &mut q, head, k, u, v);
                proof {
                    self.lemma_around(u as int);
                    if found {
                        self.lemma_order_grows(
                            from,
                            dist0,
                            prev0,
                            q0,
                            par,
                            slot,
                            head as int,
                            k as int,
                            v,
                        );
                        par = par.push(head as int);
                        slot = slot.push(k as int);
                    } else {
                        reveal(CayleyGraph::in_order);
                        assert forall|i: int| 0 < i < q@.len() implies before(
                            #[trigger] par[i],
                            slot[i],
                            head as int,
                            k + 1,
                        ) by {
                            assert(before(par[i], slot[i], head as int, k as int));
                        }
                        assert(self.in_order(dist@, prev@, q@, par, slot, head as int, k + 1));
                    }
                }
                k += 1;
            }
            proof {
                assert(self.in_order(dist@, prev@, q@, par, slot, head + 1, 0)) by {
                    reveal(CayleyGraph::in_order);
                    assert forall|i: int| 0 < i < q@.len() implies before(
                        #[trigger] par[i],
                        slot[i],
                        head + 1,
                        0,
                    ) by {
                        assert(before(par[i], slot[i], head as int, k as int));
                    }
                }
                let h = head as int;
                reveal(CayleyGraph::queued);
                reveal(CayleyGraph::level);
                reveal(CayleyGraph::done);
                if h + 1 < q@.len() {
                    assert forall|j: int| 0 <= j < q@.len() implies dist@[#[trigger] q@[j] as int]
                        <= dist@[q@[h + 1] as int] + 1 by {
                        assert(dist@[q@[h] as int] <= dist@[q@[h + 1] as int]);
                    }
                }
                assert(self.searching(from, dist@, prev@, q@, h + 1, 0));
            }
            head += 1;
        }
        proof {
            assert forall|w: Seq<usize>| #[trigger] self.walk(w) && w[0] == from implies dist@[
                w.last() as int
            ] != usize::MAX && dist@[w.last() as int] <= w.len() - 1 by {
                self.lemma_walks_are_seen(from, dist@, prev@, q@, w);
            }
            assert forall|v: int|
                0 <= v < self.n && #[trigger] dist@[v] != usize::MAX implies dist@[v] < self.n by {
                let i = self.lemma_seen_is_queued(from, dist@, q@, v as usize);
            }
            reveal(CayleyGraph::queued);
            reveal(CayleyGraph::tree);
            assert(self.discovered(from, dist@, prev@, q@, par, slot));
            assert(self.in_some_order(from, dist@, prev@));
        }
        (dist, prev)
    }

    /// The nodes have been found in an order.
    spec fn in_some_order(&self, from: usize, dist: Seq<usize>, prev: Seq<usize>) -> bool {
        exists|q: Seq<usize>, par: Seq<int>, slot: Seq<int>| #[trigger]
            self.discovered(from, dist, prev, q, par, slot)
    }

    /// The order in which a finished search has found the nodes.
    spec fn discovered(
        &self,
        from: usize,
        dist: Seq<usize>,
        prev: Seq<usize>,
        q: Seq<usize>,
        par: Seq<int>,
        slot: Seq<int>,
    ) -> bool {
        &&& q.len() > 0
        &&& q[0] == from
        &&& forall|i: int| 0 <= i < q.len() ==> (#[trigger] q[i]) < self.n && dist[q[i] as int]
            != usize::MAX
        &&& forall|v: int| 0 <= v < self.n && #[trigger] dist[v] != usize::MAX ==> q.contains(
            v as usize,
        )
        &&& self.in_order(dist, prev, q, par, slot, q.len() as int, 0)
    }

    /// What one walk gains over another stays when both go on.
    proof fn lemma_earlier_goes_on(&self, p: Seq<usize>, w: Seq<usize>, x: usize, y: usize)
        requires
            self.earlier(p, w),
        ensures
            self.earlier(p.push(x), w.push(y)),
    {
        let i = choose|i: int|
            0 < i < p.len() && i < w.len() && #[trigger] p.take(i) == w.take(i)
                && self.listed_before(p[i - 1], p[i], w[i]);
        let p2 = p.push(x);
        let w2 = w.push(y);
        assert(p2.take(i) =~= p.take(i));
        assert(w2.take(i) =~= w.take(i));
        assert(p2[i - 1] == p[i - 1] && p2[i] == p[i] && w2[i] == w[i]);
    }

    proof fn lemma_earlier_chains(&self, a: Seq<usize>, b: Seq<usize>, c: Seq<usize>)
        requires
            self.earlier(a, b),
            self.earlier(b, c),
            a.len() == b.len(),
            b.len() == c.len(),
        ensures
            self.earlier(a, c),
    {
        let i = choose|i: int|
            0 < i < a.len() && i < b.len() && #[trigger] a.take(i) == b.take(i)
                && self.listed_before(a[i - 1], a[i], b[i]);
        let j = choose|j: int|
            0 < j < b.len() && j < c.len() && #[trigger] b.take(j) == c.take(j)
                && self.listed_before(b[j - 1], b[j], c[j]);
        assert forall|t: int| 0 <= t < i implies a[t] == b[t] by {
            assert(a.take(i)[t] == b.take(i)[t]);
        }
        assert forall|t: int| 0 <= t < j implies b[t] == c[t] by {
            assert(b.take(j)[t] == c.take(j)[t]);
        }
        let l = if i < j {
            i
        } else {
            j
        };
        assert(a.take(l) =~= c.take(l));
        assert(self.listed_before(a[l - 1], a[l], c[l])) by {
            if i < j {
                assert(b[i] == c[i]);
            } else if j < i {
                assert(a[j] == b[j]);
                assert(a[j - 1] == b[j - 1]);
            } else {
                let u = a[i - 1];
                let around = self.around(u as int);
                let s = choose|s: int|
                    0 <= s < around.len() && #[trigger] around[s] == a[i] && forall|z: int|
                        0 <= z <= s ==> around[z] != b[i];
                let t = choose|t: int|
                    0 <= t < around.len() && #[trigger] around[t] == b[i] && forall|z: int|
                        0 <= z <= t ==> around[z] != c[i];
                assert(s < t);
                assert(self.around(u as int)[s] == a[i]);
            }
        }
    }

    /// Of two nodes as far away, the one found first has the earlier way.
    proof fn lemma_found_first(
        &self,
        from: usize,
        dist: Seq<usize>,
        prev: Seq<usize>,
        q: Seq<usize>,
        par: Seq<int>,
        slot: Seq<int>,
        i: int,
        j: int,
    )
        requires
            self.searched(from, dist, prev),
            self.discovered(from, dist, prev, q, par, slot),
            0 <= i < j < q.len(),
            dist[q[i] as int] == dist[q[j] as int],
        ensures
            self.earlier(
                way(prev, dist[q[i] as int] as nat, q[i]),
                way(prev, dist[q[j] as int] as nat, q[j]),
            ),
        decreases dist[q[i] as int],
    {
        reveal(CayleyGraph::in_order);
        let d = dist[q[i] as int];
        assert(0 <= par[j] < j);
        assert(dist[q[j] as int] == dist[q[par[j]] as int] + 1);
        assert(i > 0) by {
            if i == 0 {
                assert(q[0] == from);
            }
        }
        assert(0 <= par[i] < i);
        assert(before(par[i], slot[i], par[j], slot[j]));
        let a = way(prev, (d - 1) as nat, q[par[i]]);
        let b = way(prev, (d - 1) as nat, q[par[j]]);
        lemma_way_len(prev, (d - 1) as nat, q[par[i]]);
        if par[i] < par[j] {
            self.lemma_found_first(from, dist, prev, q, par, slot, par[i], par[j]);
            self.lemma_earlier_goes_on(a, b, q[i], q[j]);
        } else {
            let p = a.push(q[i]);
            let w = b.push(q[j]);
            assert(p.take(d as int) =~= w.take(d as int));
            let around = self.around(q[par[i]] as int);
            assert(around[slot[i]] == q[i]);
            assert forall|m: int| 0 <= m <= slot[i] implies around[m] != q[j] by {
                assert(before(par[j], m, par[j], slot[j]));
                assert(self.around(q[par[j]] as int)[m] != q[j]);
            }
            assert(p[d - 1] == q[par[i]]);
            assert(self.listed_before(p[d - 1], p[d as int], w[d as int]));
        }
    }

    /// The way that a search leaves comes first among the shortest walks.
    proof fn lemma_way_is_first(
        &self,
        from: usize,
        dist: Seq<usize>,
        prev: Seq<usize>,
        q: Seq<usize>,
        par: Seq<int>,
        slot: Seq<int>,
        w: Seq<usize>,
    )
        requires
            self.wf(),
            from < self.n,
            self.searched(from, dist, prev),
            self.discovered(from, dist, prev, q, par, slot),
            self.walk(w),
            w[0] == from,
            w.len() == dist[w.last() as int] + 1,
        ensures
            w == way(prev, dist[w.last() as int] as nat, w.last()) || self.earlier(
                way(prev, dist[w.last() as int] as nat, w.last()),
                w,
            ),
        decreases w.len(),
    {
        let v = w.last();
        let d = dist[v as int];
        if w.len() == 1 {
            assert(w =~= seq![from]);
        } else {
            reveal(CayleyGraph::in_order);
            let x = w.drop_last();
            let u = x.last();
            assert(w =~= x.push(v));
            assert(self.walk(x)) by {
                assert forall|i: int, j: int| 0 <= i && j == i + 1 && j < x.len() implies self.joined(
                    #[trigger] x[i],
                    #[trigger] x[j],
                ) by {
                    assert(self.joined(w[i], w[j]));
                }
            }
            assert(self.joined(w[w.len() - 2], w[w.len() - 1]));
            assert(self.joined(u, v));
            assert(dist[u as int] == d - 1) by {
                assert(dist[u as int] <= x.len() - 1);
                let y = self.lemma_walk_to(from, dist, prev, u);
                let z = y.push(v);
                assert(self.walk(z)) by {
                    assert forall|i: int, j: int| 0 <= i && j == i + 1 && j < z.len() implies self.joined(
                        #[trigger] z[i],
                        #[trigger] z[j],
                    ) by {
                        if j < y.len() {
                            assert(self.joined(y[i], y[j]));
                        }
                    }
                }
                assert(z[0] == from);
                assert(dist[z.last() as int] <= z.len() - 1);
            }
            self.lemma_way_is_first(from, dist, prev, q, par, slot, x);
            assert(q.contains(v) && q.contains(u));
            let j = choose|j: int| 0 <= j < q.len() && q[j] == v;
            let b = choose|b: int| 0 <= b < q.len() && q[b] == u;
            assert(j > 0) by {
                if j == 0 {
                    assert(v == from);
                }
            }
            let a = par[j];
            assert(0 <= par[j] < j);
            assert(prev[v as int] == q[a]);
            let m = choose|m: int|
                0 <= m < self.around(u as int).len() && self.around(u as int)[m] == v;
            assert(a <= b) by {
                if b < a {
                    assert(before(b, m, par[j], slot[j]));
                    assert(self.around(q[b] as int)[m] != q[j]);
                }
            }
            let near = way(prev, (d - 1) as nat, q[a]);
            let mine = way(prev, (d - 1) as nat, u);
            lemma_way_len(prev, (d - 1) as nat, q[a]);
            lemma_way_len(prev, (d - 1) as nat, u);
            assert(way(prev, d as nat, v) == near.push(v));
            if a < b {
                self.lemma_found_first(from, dist, prev, q, par, slot, a, b);
                if x != mine {
                    self.lemma_earlier_chains(near, mine, x);
                }
                self.lemma_earlier_goes_on(near, x, v, v);
            } else {
                if x != mine {
                    self.lemma_earlier_goes_on(near, x, v, v);
                }
            }
        }
    }

    /// A node at a distance has a walk of that length to it.
    proof fn lemma_walk_to(&self, from: usize, dist: Seq<usize>, prev: Seq<usize>, v: usize) -> (w:
        Seq<usize>)
        requires
            self.wf(),
            from < self.n,
            self.searched(from, dist, prev),
            v < self.n,
            dist[v as int] != usize::MAX,
        ensures
            self.leads(w, from, v),
            w.len() == dist[v as int] + 1,
        decreases dist[v as int],
    {
        if v == from {
            seq![from]
        } else {
            let u = prev[v as int];
            let x = self.lemma_walk_to(from, dist, prev, u);
            let w = x.push(v);
            assert forall|i: int, j: int| 0 <= i && j == i + 1 && j < w.len() implies self.joined(
                #[trigger] w[i],
                #[trigger] w[j],
            ) by {
                if j < x.len() {
                    assert(self.joined(x[i], x[j]));
                }
            }
            w
        }
    }

    proof fn lemma_apart(&self, from: usize, dist: Seq<usize>, prev: Seq<usize>, v: usize)
        requires
            self.wf(),
            from < self.n,
            self.searched(from, dist, prev),
            v < self.n,
        ensures
            dist[v as int] == usize::MAX ==> self.cut_off(from, v),
            dist[v as int] != usize::MAX ==> self.apart(from, v, dist[v as int] as nat),
    {
        if dist[v as int] == usize::MAX {
            assert forall|w: Seq<usize>| !#[trigger] self.leads(w, from, v) by {
                if self.leads(w, from, v) {
                    assert(self.walk(w));
                }
            }
        } else {
            let w = self.lemma_walk_to(from, dist, prev, v);
            assert(self.leads(w, from, v));
            assert forall|x: Seq<usize>| #[trigger] self.leads(x, from, v) implies x.len()
                >= dist[v as int] + 1 by {
                assert(self.walk(x));
            }
        }
    }

    /// A shortest path between two nodes: of several, the one that goes on to the
    /// neighbour that is listed first where they part.
    #[verifier::spinoff_prover]
    #[verifier::rlimit(40)]
    pub fn shortest_path(&self, from: usize, to: usize) -> (r: Result<Vec<usize>, CayleyError>)
        requires
            self.wf(),
            self.n <= usize::MAX / 2,
        ensures
            match r {
                Ok(p) => self.leads(p@, from, to) && forall|w: Seq<usize>|
                    #[trigger] self.leads(w, from, to) ==> p@.len() < w.len() || p@ == w || (
                    p@.len() == w.len() && self.earlier(p@, w)),
                Err(CayleyError::OutOfRange { id, n }) => (from >= self.n || to >= self.n) && n
                    == self.n && id == (if from > to {
                    from
                } else {
                    to
                }),
                Err(CayleyError::NoPath { from: a, to: b }) => from < self.n && to < self.n && a
                    == from && b == to && self.cut_off(from, to),
            },
    {
        if from >= self.n || to >= self.n {
            let id: usize = if from > to {
                from
            } else {
                to
            };
            proof {
                assert forall|w: Seq<usize>| !#[trigger] self.leads(w, from, to) by {
                    if self.leads(w, from, to) {
                        assert(w[0] < self.n && w[w.len() - 1] < self.n);
                    }
                }
            }
            return Err(CayleyError::OutOfRange { id, n: self.n });
        }
        let (dist, prev): (Vec<usize>, Vec<usize>) = self.search(from);
        proof {
            self.lemma_apart(from, dist@, prev@, to);
        }
        if dist[to] == usize::MAX {
            return Err(CayleyError::NoPath { from, to });
        }
        let mut back: Vec<usize> = Vec::new();
        back.push(to);
        let mut cur: usize = to;
        while cur != from
            invariant
                self.wf(),
                from < self.n,
                to < self.n,
                self.searched(from, dist@, prev@),
                cur < self.n,
                dist@[cur as int] != usize::MAX,
                back@.len() > 0,
                back@[0] == to,
                back@.last() == cur,
                back@.len() + dist@[cur as int] == dist@[to as int] + 1,
                forall|i: int| 0 <= i < back@.len() ==> #[trigger] back@[i] < self.n,
                forall|i: int, j: int|
                    0 <= i && j == i + 1 && j < back@.len() ==> self.joined(
                        #[trigger] back@[j],
                        #[trigger] back@[i],
                    ),
                way(prev@, dist@[to as int] as nat, to) == way(
                    prev@,
                    dist@[cur as int] as nat,
                    cur,
                ) + back@.drop_last().reverse(),
            decreases dist@[cur as int],
        {
            let ghost before = back@;
            let p: usize = prev[cur];
            back.push(p);
            proof {
                lemma_way_back(prev@, dist@[cur as int] as nat, cur, before);
                assert(back@.drop_last() =~= before);
                assert forall|i: int, j: int| 0 <= i && j == i + 1 && j < back@.len() implies self.joined(
                    #[trigger] back@[j],
                    #[trigger] back@[i],
                ) by {
                    if j < before.len() {
                        assert(self.joined(before[j], before[i]));
                    } else {
                        assert(back@[i] == cur);
                    }
                }
            }
            cur = p;
        }
        let mut path: Vec<usize> = Vec::new();
        let mut i: usize = back.len();
        let ghost len = back@.len();
        while i > 0
            invariant
                i <= len,
                len == back@.len(),
                path@.len() == len - i,
                forall|k: int| 0 <= k < path@.len() ==> #[trigger] path@[k] == back@[len - 1 - k],
            decreases i,
        {
            i -= 1;
            path.push(back[i]);
        }
        proof {
            assert forall|a: int, b: int| 0 <= a && b == a + 1 && b < path@.len() implies self.joined(
                #[trigger] path@[a],
                #[trigger] path@[b],
            ) by {
                assert(self.joined(back@[len - 1 - a], back@[len - 1 - b]));
            }
            assert(path@ =~= back@.reverse());
            assert(back@.reverse() =~= seq![from] + back@.drop_last().reverse());
            assert(path@ =~= way(prev@, dist@[to as int] as nat, to));
            let (q, par, slot) = choose|q: Seq<usize>, par: Seq<int>, slot: Seq<int>| #[trigger]
                self.discovered(from, dist@, prev@, q, par, slot);
            assert forall|w: Seq<usize>| #[trigger] self.leads(w, from, to) implies path@.len()
                < w.len() || path@ == w || (path@.len() == w.len() && self.earlier(path@, w)) by {
                if w.len() == path@.len() {
                    self.lemma_way_is_first(from, dist@, prev@, q, par, slot, w);
                }
            }
        }
        Ok(path)
    }

    /// The longest of the shortest paths; the largest number there is where two
    /// nodes are cut off from each other.
    pub fn diameter(&self) -> (r: usize)
        requires
            self.wf(),
            self.n <= usize::MAX / 2,
        ensures
            (exists|u: usize, v: usize| u < self.n && v < self.n && #[trigger] self.cut_off(u, v))
                ==> r == usize::MAX,
            (forall|u: usize, v: usize|
                u < self.n && v < self.n ==> !#[trigger] self.cut_off(u, v)) ==> {
                &&& r < self.n
                &&& forall|u: usize, v: usize, d: nat|
                    u < self.n && v < self.n && #[trigger] self.apart(u, v, d) ==> d <= r
                &&& exists|u: usize, v: usize|
                    u < self.n && v < self.n && #[trigger] self.apart(u, v, r as nat)
            },
    {
        let mut best: usize = 0;
        let mut s: usize = 0;
        let ghost mut a: usize = 0;
        let ghost mut b: usize = 0;
        proof {
            let w = seq![0usize];
            assert(self.leads(w, 0, 0));
            assert(self.apart(0, 0, 0));
        }
        while s < self.n
            invariant
                s <= self.n,
                self.wf(),
                self.n <= usize::MAX / 2,
                a < self.n,
                b < self.n,
                best != usize::MAX ==> self.apart(a, b, best as nat) && best < self.n,
                best == usize::MAX ==> self.cut_off(a, b),
                forall|u: usize, v: usize|
                    u < s && v < self.n && #[trigger] self.cut_off(u, v) ==> best == usize::MAX,
                forall|u: usize, v: usize, d: nat|
                    u < s && v < self.n && #[trigger] self.apart(u, v, d) ==> d <= best,
            decreases self.n - s,
        {
            let (dist, prev): (Vec<usize>, Vec<usize>) = self.search(s);
            let ghost before = best;
            let mut v: usize = 0;
            while v < self.n
                invariant
                    v <= self.n,
                    s < self.n,
                    self.wf(),
                    self.searched(s, dist@, prev@),
                    a < self.n,
                    b < self.n,
                    before <= best,
                    best != usize::MAX ==> self.apart(a, b, best as nat) && best < self.n,
                    best == usize::MAX ==> self.cut_off(a, b),
                    forall|x: int| 0 <= x < v ==> #[trigger] dist@[x] <= best,
                decreases self.n - v,
            {
                if dist[v] > best {
                    best = dist[v];
                    proof {
                        self.lemma_apart(s, dist@, prev@, v);
                        a = s;
                        b = v;
                    }
                }
                v += 1;
            }
            proof {
                assert forall|u: usize, x: usize|
                    u < s + 1 && x < self.n && #[trigger] self.cut_off(u, x) implies best
                    == usize::MAX by {
                    if u == s {
                        self.lemma_apart(s, dist@, prev@, x);
                        assert(dist@[x as int] <= best);
                        if dist@[x as int] != usize::MAX {
                            let w = choose|w: Seq<usize>| #[trigger] self.leads(w, s, x);
                            assert(!self.leads(w, u, x));
                        }
                    }
                }
                assert forall|u: usize, x: usize, d: nat|
                    u < s + 1 && x < self.n && #[trigger] self.apart(u, x, d) implies d <= best by {
                    if u == s {
                        self.lemma_apart(s, dist@, prev@, x);
                        assert(dist@[x as int] <= best);
                        let w = choose|w: Seq<usize>|
                            #[trigger] self.leads(w, u, x) && w.len() == d + 1;
                        assert(self.walk(w));
                        if dist@[x as int] != usize::MAX {
                            let y = choose|y: Seq<usize>|
                                #[trigger] self.leads(y, s, x) && y.len() == dist@[x as int] + 1;
                            assert(y.len() >= d + 1);
                        }
                    }
                }
            }
            s += 1;
        }
        best
    }
}

// ---- greedy routing ---------------------------------------------------------
/// How far apart two nodes are round the circle.
pub open spec fn cyclic(a: int, b: int, n: int) -> int {
    let d = (a + n - b) % n;
    if d < n - d {
        d
    } else {
        n - d
    }
}

fn cyclic_dist(a: usize, b: usize, n: usize) -> (r: usize)
    requires
        a < n,
        b < n,
        n <= usize::MAX / 2,
    ensures
        r == cyclic(a as int, b as int, n as int),
{
    let d: usize = (a + n - b) % n;
    if d < n - d {
        d
    } else {
        n - d
    }
}

/// Which of the first `k` nodes is nearest to another, the first of those that
/// are as near.
pub open spec fn nearest(nodes: Seq<usize>, to: int, n: int, k: nat) -> int
    decreases k,
{
    if k <= 1 {
        0
    } else {
        let b = nearest(nodes, to, n, (k - 1) as nat);
        if cyclic(nodes[k - 1] as int, to, n) < cyclic(nodes[b] as int, to, n) {
            k - 1
        } else {
            b
        }
    }
}

/// The nearest node is one of them, and none is nearer.
pub proof fn lemma_nearest(nodes: Seq<usize>, to: int, n: int, k: nat)
    requires
        1 <= k <= nodes.len(),
    ensures
        0 <= nearest(nodes, to, n, k) < k,
        forall|j: int|
            0 <= j < k ==> cyclic(nodes[nearest(nodes, to, n, k)] as int, to, n) <= cyclic(
                #[trigger] nodes[j] as int,
                to,
                n,
            ),
    decreases k,
{
    if k > 1 {
        lemma_nearest(nodes, to, n, (k - 1) as nat);
    }
}

impl CayleyGraph {
    /// The hop that brings a message nearest to its target.
    pub open spec fn hop(&self, cur: usize, to: usize) -> usize {
        let around = self.around(cur as int);
        around[nearest(around, to as int, self.n as int, around.len())]
    }

    /// The nodes that greedy routing visits in at most `steps` hops.
    pub open spec fn greedy(&self, cur: usize, to: usize, steps: nat) -> Seq<usize>
        decreases steps,
    {
        if cur == to || steps == 0 {
            seq![cur]
        } else {
            seq![cur] + self.greedy(self.hop(cur, to), to, (steps - 1) as nat)
        }
    }

    fn next_hop(&self, cur: usize, to: usize) -> (r: usize)
        requires
            self.wf(),
            self.n <= usize::MAX / 2,
            cur < self.n,
            to < self.n,
            self.jumps@.len() > 0,
        ensures
            r == self.hop(cur, to),
            r < self.n,
    {
        let around: Vec<usize> = self.neighbors(cur);
        proof {
            self.lemma_around(cur as int);
            assert(around@.len() == 2 * self.jumps@.len()) by {
                reveal(CayleyGraph::around);
            }
        }
        let mut best: usize = 0;
        let mut k: usize = 1;
        while k < around.len()
            invariant
                1 <= k <= around@.len(),
                around@ == self.around(cur as int),
                forall|j: int| 0 <= j < around@.len() ==> #[trigger] around@[j] < self.n,
                to < self.n,
                self.n <= usize::MAX / 2,
                best < k,
                best == nearest(around@, to as int, self.n as int, k as nat),
            decreases around@.len() - k,
        {
            if cyclic_dist(around[k], to, self.n) < cyclic_dist(around[best], to, self.n) {
                best = k;
            }
            k += 1;
        }
        around[best]
    }

    /// Route by hops that bring a message ever nearer to its target, without
    /// knowing the graph as a whole.
    pub fn greedy_route(&self, from: usize, to: usize) -> (r: Result<Vec<usize>, CayleyError>)
        requires
            self.wf(),
            self.n <= usize::MAX / 2,
            self.jumps@.len() > 0 || from == to || from >= self.n || to >= self.n,
        ensures
            match r {
                Ok(p) => from < self.n && to < self.n && p@ == self.greedy(
                    from,
                    to,
                    (self.n + 1) as nat,
                ) && p@.last() == to,
                Err(CayleyError::OutOfRange { id, n }) => (from >= self.n || to >= self.n) && n
                    == self.n && id == (if from > to {
                    from
                } else {
                    to
                }),
                Err(CayleyError::NoPath { from: a, to: b }) => from < self.n && to < self.n && a
                    == from && b == to && self.greedy(from, to, (self.n + 1) as nat).last() != to,
            },
    {
        if from >= self.n || to >= self.n {
            let id: usize = if from > to {
                from
            } else {
                to
            };
            return Err(CayleyError::OutOfRange { id, n: self.n });
        }
        let ghost want = self.greedy(from, to, (self.n + 1) as nat);
        let mut path: Vec<usize> = Vec::new();
        path.push(from);
        let mut cur: usize = from;
        let mut steps: usize = 0;
        let cap: usize = self.n + 1;
        assert(path@.drop_last() + self.greedy(cur, to, cap as nat) =~= want);
        while cur != to && steps < cap
            invariant
                steps <= cap,
                cap == self.n + 1,
                self.wf(),
                self.n <= usize::MAX / 2,
                self.jumps@.len() > 0 || cur == to,
                cur < self.n,
                to < self.n,
                path@.len() > 0,
                path@.last() == cur,
                path@.drop_last() + self.greedy(cur, to, (cap - steps) as nat) == want,
            decreases cap - steps,
        {
            let ghost before = path@;
            let next: usize = self.next_hop(cur, to);
            path.push(next);
            assert(path@.drop_last() =~= before);
            assert(before =~= before.drop_last().push(cur));
            let ghost rest = self.greedy(next, to, (cap - steps - 1) as nat);
            assert(before.drop_last() + (seq![cur] + rest) =~= before + rest);
            cur = next;
            steps += 1;
        }
        proof {
            assert(self.greedy(cur, to, (cap - steps) as nat) =~= seq![cur]);
            assert(path@ =~= path@.drop_last() + seq![cur]);
            assert(want == path@);
        }
        if cur == to {
            Ok(path)
        } else {
            Err(CayleyError::NoPath { from, to })
        }
    }
}

// ---- the laws ---------------------------------------------------------------
proof fn lemma_shift_mod(u: int, s: int, t: int, n: int)
    requires
        n > 0,
    ensures
        ((u + t) % n + s) % n == ((u + s) % n + t) % n,
{
    lemma_add_mod_noop(u + t, s, n);
    lemma_add_mod_noop(u + s, t, n);
    lemma_mod_twice(u + t, n);
    lemma_mod_twice(u + s, n);
    lemma_add_mod_noop((u + t) % n, s, n);
    lemma_add_mod_noop((u + s) % n, t, n);
}

/// Every node looks like every other: moving both ends of an edge round the
/// circle gives an edge.
pub proof fn moving_round_keeps_every_edge(g: CayleyGraph, u: usize, v: usize, t: usize)
    requires
        g.wf(),
        u < g.n,
        v < g.n,
        g.joined(u, v),
    ensures
        g.joined(((u + t) % (g.n as int)) as usize, ((v + t) % (g.n as int)) as usize),
{
    reveal(CayleyGraph::around);
    let n = g.n as int;
    let k = choose|k: int| 0 <= k < g.around(u as int).len() && g.around(u as int)[k] == v;
    let s = g.jumps@[k / 2] as int;
    let x = ((u + t) % n) as usize;
    let y = ((v + t) % n) as usize;
    if k % 2 == 0 {
        lemma_shift_mod(u as int, s, t as int, n);
    } else {
        lemma_shift_mod(u as int, n - s, t as int, n);
    }
    assert(g.around(x as int)[k] == y);
}

/// Edges lead both ways.
pub proof fn edges_lead_both_ways(g: CayleyGraph, u: usize, v: usize)
    requires
        g.wf(),
        u < g.n,
        v < g.n,
        g.joined(u, v),
    ensures
        g.joined(v, u),
{
    reveal(CayleyGraph::around);
    let n = g.n as int;
    let k = choose|k: int| 0 <= k < g.around(u as int).len() && g.around(u as int)[k] == v;
    let s = g.jumps@[k / 2] as int;
    assert(0 <= s <= n);
    if k % 2 == 0 {
        lemma_shift_mod(u as int, n - s, s, n);
        lemma_add_mod_noop(u + s, n - s, n);
        lemma_mod_add_multiples_vanish(u as int, n);
        lemma_small_mod(u as nat, n as nat);
        lemma_add_mod_noop((u + s) % n, n - s, n);
        lemma_mod_twice(u + s, n);
        assert(u + s + (n - s) == n + u);
        assert(g.around(v as int)[k + 1] == u);
    } else {
        lemma_add_mod_noop(u + n - s, s, n);
        lemma_add_mod_noop((u + n - s) % n, s, n);
        lemma_mod_twice(u + n - s, n);
        lemma_mod_add_multiples_vanish(u as int, n);
        lemma_small_mod(u as nat, n as nat);
        assert(u + n - s + s == n + u);
        assert(g.around(v as int)[k - 1] == u);
    }
}

proof fn lemma_one_step(g: CayleyGraph, cur: usize, to: usize)
    requires
        g.wf(),
        g.n >= 2,
        g.jumps@.contains(1),
        cur < g.n,
        to < g.n,
        cur != to,
    ensures
        g.hop(cur, to) < g.n,
        cyclic(g.hop(cur, to) as int, to as int, g.n as int) < cyclic(
            cur as int,
            to as int,
            g.n as int,
        ),
        g.joined(cur, g.hop(cur, to)),
{
    let n = g.n as int;
    let around = g.around(cur as int);
    let i = choose|i: int| 0 <= i < g.jumps@.len() && g.jumps@[i] == 1;
    g.lemma_around(cur as int);
    assert(around.len() == 2 * g.jumps@.len() && around[2 * i] == (cur + 1) % n && around[2 * i + 1]
        == (cur + n - 1) % n) by {
        reveal(CayleyGraph::around);
        assert((2 * i) / 2 == i && (2 * i + 1) / 2 == i && (2 * i) % 2 == 0 && (2 * i + 1) % 2 == 1);
    }
    lemma_nearest(around, to as int, n, around.len());
    let d = (cur + n - to) % n;
    assert(1 <= d < n && cyclic(cur as int, to as int, n) == (if d < n - d {
        d
    } else {
        n - d
    })) by {
        if cur >= to {
            lemma_mod_add_multiples_vanish(cur - to, n);
            lemma_small_mod((cur - to) as nat, n as nat);
        } else {
            lemma_small_mod((cur + n - to) as nat, n as nat);
        }
    }
    // One of the two neighbours next door is nearer by one.
    let a = around[2 * i] as int;
    let b = around[2 * i + 1] as int;
    assert((a + n - to) % n == (d + 1) % n) by {
        lemma_add_mod_noop(cur + 1, n - to, n);
        lemma_add_mod_noop((cur + 1) % n, n - to, n);
        lemma_mod_twice(cur + 1, n);
        lemma_add_mod_noop(cur + n - to, 1, n);
        lemma_add_mod_noop(d, 1, n);
        lemma_mod_twice(cur + n - to, n);
    }
    assert((b + n - to) % n == (d - 1) % n) by {
        lemma_add_mod_noop(cur + n - 1, n - to, n);
        lemma_add_mod_noop((cur + n - 1) % n, n - to, n);
        lemma_mod_twice(cur + n - 1, n);
        lemma_add_mod_noop(cur + n - to, n - 1, n);
        lemma_add_mod_noop(d, n - 1, n);
        lemma_mod_twice(cur + n - to, n);
        lemma_mod_add_multiples_vanish(d - 1, n);
        assert(d + (n - 1) == n + (d - 1));
    }
    lemma_small_mod((d - 1) as nat, n as nat);
    if d + 1 < n {
        lemma_small_mod((d + 1) as nat, n as nat);
    } else {
        assert(d + 1 == n);
        vstd::arithmetic::div_mod::lemma_mod_self_0(n);
    }
    assert(cyclic(around[2 * i] as int, to as int, n) < cyclic(cur as int, to as int, n) || cyclic(
        around[2 * i + 1] as int,
        to as int,
        n,
    ) < cyclic(cur as int, to as int, n));
}

proof fn lemma_greedy_arrives(g: CayleyGraph, cur: usize, to: usize, steps: nat)
    requires
        g.wf(),
        g.n >= 2,
        g.jumps@.contains(1),
        cur < g.n,
        to < g.n,
        cyclic(cur as int, to as int, g.n as int) <= steps,
    ensures
        g.leads(g.greedy(cur, to, steps), cur, to),
        g.greedy(cur, to, steps).len() <= steps + 1,
    decreases steps,
{
    let n = g.n as int;
    if cur == to {
        assert(g.greedy(cur, to, steps) =~= seq![cur]);
    } else {
        lemma_one_step(g, cur, to);
        let next = g.hop(cur, to);
        assert(cyclic(next as int, to as int, n) >= 0) by {
            let d = (next + n - to) % n;
            assert(0 <= d < n);
        }
        let rest = g.greedy(next, to, (steps - 1) as nat);
        lemma_greedy_arrives(g, next, to, (steps - 1) as nat);
        let w = g.greedy(cur, to, steps);
        assert(w == seq![cur] + rest);
        assert forall|i: int, j: int| 0 <= i && j == i + 1 && j < w.len() implies g.joined(
            #[trigger] w[i],
            #[trigger] w[j],
        ) by {
            if i > 0 {
                assert(g.joined(rest[i - 1], rest[j - 1]));
            } else {
                assert(w[1] == rest[0]);
            }
        }
        assert(w.last() == rest.last());
    }
}

/// With a jump of one among the jumps, greedy routing brings every message to
/// its target, along edges and in no more hops than half the graph has nodes. So
/// no two nodes are cut off from each other.
pub proof fn greedy_routing_arrives(g: CayleyGraph, from: usize, to: usize)
    requires
        g.wf(),
        g.n >= 2,
        g.jumps@.contains(1),
        from < g.n,
        to < g.n,
    ensures
        g.leads(g.greedy(from, to, (g.n + 1) as nat), from, to),
        !g.cut_off(from, to),
{
    let n = g.n as int;
    let d = (from + n - to) % n;
    assert(0 <= d < n);
    lemma_greedy_arrives(g, from, to, (g.n + 1) as nat);
}

/// A graph with Fibonacci jumps has a jump of one, so that it is connected.
pub proof fn fibonacci_jumps_connect(g: CayleyGraph, degree: nat)
    requires
        g.wf(),
        g.n >= 2,
        degree > 0,
        normal_jumps(g.jumps@, spread_jumps(g.n as nat, degree), g.n as nat),
    ensures
        g.jumps@.contains(1),
{
    let n = g.n as nat;
    let c = fibs_up_to(n / 2, 0);
    let v = spread_jumps(n, degree);
    assert(fib(0) == 1);
    lemma_fibs_up_to(n / 2, 0);
    if c > 0 {
        let step = if c / degree > 1 {
            c / degree
        } else {
            1
        };
        let all = (c + step - 1) / step as int;
        assert(all >= 1) by (nonlinear_arith)
            requires
                all == (c + step - 1) / step as int,
                c >= 1,
                step >= 1,
        ;
        assert(0 * step == 0);
        assert(v[0] == fib(0) as usize);
    }
    assert(v[0] == 1);
    lemma_small_mod(1, n);
    assert(normal(v[0] as nat, n) == 1);
}

proof fn lemma_fibs_up_to(half: nat, i: nat)
    ensures
        fibs_up_to(half, i) >= i,
    decreases 2 * half + 2 - fib(i),
{
    lemma_fib_rises(i);
    if fib(i) <= half {
        lemma_fibs_up_to(half, i + 1);
    }
}

/// A number below twice `n`, modulo `n`.
proof fn lemma_wrap(x: int, n: int)
    requires
        0 <= x < 2 * n,
    ensures
        x % n == (if x < n {
            x
        } else {
            x - n
        }),
{
    if x < n {
        lemma_small_mod(x as nat, n as nat);
    } else {
        lemma_small_mod((x - n) as nat, n as nat);
        lemma_mod_add_multiples_vanish(x - n, n);
    }
}

/// The neighbours of a node by jump `i`, which is `s`.
spec fn neighbour_pair(g: CayleyGraph, u: usize, i: int, s: int) -> bool {
    let n = g.n as int;
    &&& 0 <= s <= n / 2
    &&& g.around(u as int)[2 * i] == (if u + s < n {
        u + s
    } else {
        u + s - n
    })
    &&& g.around(u as int)[2 * i + 1] == (if u + n - s < n {
        u + n - s
    } else {
        u - s
    })
}

/// A node is a neighbour just when its distance round the circle is a jump.
pub proof fn neighbours_are_a_jump_away(g: CayleyGraph, u: usize, v: usize)
    requires
        g.wf(),
        u < g.n,
        v < g.n,
    ensures
        g.around(u as int).len() == 2 * g.jumps@.len(),
        g.joined(u, v) <==> g.jumps@.contains(cyclic(u as int, v as int, g.n as int) as usize),
{
    reveal(CayleyGraph::around);
    let n = g.n as int;
    let around = g.around(u as int);
    let c = cyclic(u as int, v as int, n);
    lemma_wrap(u + n - v, n);
    assert forall|i: int| 0 <= i < g.jumps@.len() implies neighbour_pair(g, u, i, #[trigger] g.jumps@[i] as int) by {
        let s = g.jumps@[i] as int;
        assert((2 * i) / 2 == i && (2 * i + 1) / 2 == i);
        lemma_wrap(u + s, n);
        lemma_wrap(u + n - s, n);
    }
    if g.joined(u, v) {
        let k = choose|k: int| 0 <= k < around.len() && around[k] == v;
        let i = k / 2;
        assert(k == 2 * i || k == 2 * i + 1);
        let s = g.jumps@[i] as int;
        assert(neighbour_pair(g, u, i, s));
        assert(c == s);
        assert(g.jumps@[i] == c as usize);
    }
    if g.jumps@.contains(c as usize) {
        let i = choose|i: int| 0 <= i < g.jumps@.len() && g.jumps@[i] == c as usize;
        assert(0 <= c <= n);
        assert(neighbour_pair(g, u, i, g.jumps@[i] as int));
        assert(around[2 * i] == v || around[2 * i + 1] == v);
    }
}

/// A node moved round the circle.
spec fn moved(v: usize, t: int, n: int) -> usize {
    ((v + t) % n) as usize
}

/// A walk moved round the circle is a walk between the moved nodes.
proof fn lemma_walk_moves(g: CayleyGraph, w: Seq<usize>, from: usize, to: usize, t: usize)
    requires
        g.wf(),
        g.leads(w, from, to),
    ensures
        ({
            let x = w.map_values(|v: usize| moved(v, t as int, g.n as int));
            g.leads(x, moved(from, t as int, g.n as int), moved(to, t as int, g.n as int))
        }),
{
    let n = g.n as int;
    let x = w.map_values(|v: usize| moved(v, t as int, n));
    assert forall|i: int| 0 <= i < x.len() implies #[trigger] x[i] < g.n by {
        assert(0 <= (w[i] + t) % n < n);
    }
    assert forall|i: int, j: int| 0 <= i && j == i + 1 && j < x.len() implies g.joined(
        #[trigger] x[i],
        #[trigger] x[j],
    ) by {
        assert(g.joined(w[i], w[j]));
        moving_round_keeps_every_edge(g, w[i], w[j], t);
    }
}

/// Moving round the circle and on to the start is no move.
proof fn lemma_moved_back(v: usize, t: int, n: int)
    requires
        0 <= t < n,
        v < n,
        n <= usize::MAX,
    ensures
        moved(moved(v, t, n), (n - t) % n, n) == v,
{
    lemma_wrap(v + t, n);
    if t == 0 {
        lemma_mod_add_multiples_vanish(0, n);
        lemma_small_mod(0, n as nat);
        lemma_small_mod(v as nat, n as nat);
    } else {
        lemma_small_mod((n - t) as nat, n as nat);
        lemma_wrap(moved(v, t, n) + (n - t), n);
    }
}

/// Every node sees as far as every other: what is `d` edges from one node is `d`
/// edges from any other once it is moved round the circle along with that.
pub proof fn every_node_sees_as_far(g: CayleyGraph, u: usize, v: usize, d: nat, w: usize) -> (x: usize)
    requires
        g.wf(),
        u < g.n,
        v < g.n,
        w < g.n,
        g.apart(u, v, d),
    ensures
        x < g.n,
        g.apart(w, x, d),
{
    let n = g.n as int;
    let t = (if w >= u {
        w - u
    } else {
        w - u + n
    }) as usize;
    let back = ((n - t) % n) as usize;
    lemma_wrap(u + t, n);
    assert(moved(u, t as int, n) == w);
    let x = moved(v, t as int, n);
    lemma_wrap(v + t, n);
    assert(0 <= (n - t) % n < n);
    lemma_moved_back(u, t as int, n);
    lemma_moved_back(v, t as int, n);
    let a = choose|a: Seq<usize>| #[trigger] g.leads(a, u, v) && a.len() == d + 1;
    lemma_walk_moves(g, a, u, v, t);
    assert(g.leads(a.map_values(|y: usize| moved(y, t as int, n)), w, x));
    assert forall|b: Seq<usize>| #[trigger] g.leads(b, w, x) implies b.len() >= d + 1 by {
        lemma_walk_moves(g, b, w, x, back);
        assert(g.leads(b.map_values(|y: usize| moved(y, back as int, n)), u, v));
    }
    x
}

/// One node already sees the diameter: where it is a distance between two nodes,
/// some node is as far from any given one, and none is farther than it from there.
pub proof fn one_node_sees_the_diameter(g: CayleyGraph, w: usize, r: nat)
    requires
        g.wf(),
        w < g.n,
        exists|u: usize, v: usize| u < g.n && v < g.n && #[trigger] g.apart(u, v, r),
    ensures
        exists|x: usize| x < g.n && #[trigger] g.apart(w, x, r),
        (forall|x: usize, d: nat| x < g.n && #[trigger] g.apart(w, x, d) ==> d <= r) ==> forall|
            u: usize,
            v: usize,
            d: nat,
        |
            u < g.n && v < g.n && #[trigger] g.apart(u, v, d) ==> d <= r,
{
    let (u, v) = choose|u: usize, v: usize| u < g.n && v < g.n && #[trigger] g.apart(u, v, r);
    let x = every_node_sees_as_far(g, u, v, r, w);
    assert(g.apart(w, x, r));
    if forall|x: usize, d: nat| x < g.n && #[trigger] g.apart(w, x, d) ==> d <= r {
        assert forall|a: usize, b: usize, d: nat| a < g.n && b < g.n && #[trigger] g.apart(a, b, d) implies d
            <= r by {
            let y = every_node_sees_as_far(g, a, b, d, w);
        }
    }
}

// ---- how far apart nodes can be ---------------------------------------------
impl CayleyGraph {
    /// A walk of at most `m` edges leads from one node to the other.
    pub open spec fn within(&self, from: usize, to: usize, m: nat) -> bool {
        exists|w: Seq<usize>| #[trigger] self.leads(w, from, to) && w.len() <= m + 1
    }
}

/// A walk goes on over one more edge.
proof fn lemma_goes_on(g: CayleyGraph, u: usize, v: usize, x: usize, m: nat)
    requires
        g.within(u, v, m),
        g.joined(v, x),
        x < g.n,
    ensures
        g.within(u, x, m + 1),
{
    let w = choose|w: Seq<usize>| #[trigger] g.leads(w, u, v) && w.len() <= m + 1;
    let y = w.push(x);
    assert forall|i: int, j: int| 0 <= i && j == i + 1 && j < y.len() implies g.joined(
        #[trigger] y[i],
        #[trigger] y[j],
    ) by {
        if j < w.len() {
            assert(g.joined(w[i], w[j]));
        }
    }
    assert(g.leads(y, u, x));
}

/// A jump leads one edge on, either way round.
proof fn lemma_jump(g: CayleyGraph, v: usize, s: usize)
    requires
        g.wf(),
        v < g.n,
        g.jumps@.contains(s),
    ensures
        g.joined(v, moved(v, s as int, g.n as int)),
        g.joined(v, moved(v, -s, g.n as int)),
        moved(v, s as int, g.n as int) < g.n,
        moved(v, -s, g.n as int) < g.n,
{
    reveal(CayleyGraph::around);
    let n = g.n as int;
    let i = choose|i: int| 0 <= i < g.jumps@.len() && g.jumps@[i] == s;
    assert((2 * i) / 2 == i && (2 * i + 1) / 2 == i);
    lemma_mod_add_multiples_vanish(v - s, n);
    let around = g.around(v as int);
    assert(around[2 * i] == moved(v, s as int, n));
    assert(around[2 * i + 1] == moved(v, -s, n));
    assert(0 <= (v + s) % n < n);
    assert(0 <= (v - s) % n < n);
}

/// So many jumps of one size, forward or back, lead that many edges on.
proof fn lemma_jumps(g: CayleyGraph, u: usize, v: usize, m: nat, s: usize, k: int)
    requires
        g.wf(),
        v < g.n,
        g.within(u, v, m),
        g.jumps@.contains(s),
    ensures
        moved(v, k * s, g.n as int) < g.n,
        g.within(u, moved(v, k * s, g.n as int), m + abs(k)),
    decreases abs(k),
{
    let n = g.n as int;
    if k == 0 {
        assert(0 * s == 0);
        lemma_small_mod(v as nat, n as nat);
    } else {
        let l = if k > 0 {
            k - 1
        } else {
            k + 1
        };
        let t = if k > 0 {
            s as int
        } else {
            -s
        };
        lemma_jumps(g, u, v, m, s, l);
        let x = moved(v, l * s, n);
        lemma_jump(g, x, s);
        lemma_goes_on(g, u, x, moved(x, t, n), m + abs(l));
        assert(l * s + t == k * s) by (nonlinear_arith)
            requires
                k > 0 ==> l == k - 1 && t == s,
                k <= 0 ==> l == k + 1 && t == -s,
        ;
        lemma_add_mod_noop_right(t, v + l * s, n);
    }
}

/// The whole number of steps of `s` nearest to `d`: what is left is no more than
/// half a step.
proof fn lemma_round(d: nat, s: nat, most: nat) -> (k: nat)
    requires
        s > 0,
        d <= most,
    ensures
        k <= (most + s / 2) / s,
        abs(d - k * s) <= s / 2,
{
    let x = d + s / 2;
    let k = x / s;
    lemma_div_is_ordered(x as int, (most + s / 2) as int, s as int);
    lemma_fundamental_div_mod(x as int, s as int);
    assert(k * s == s * k) by (nonlinear_arith);
    assert(0 <= x % s < s);
    k
}

/// Jumps of one, of `a` and of `b` lead anywhere: along the large ones to within
/// half of a large one, along the middle ones to within half of those, and by
/// single steps from there.
pub proof fn three_jumps_bound_every_distance(g: CayleyGraph, a: usize, b: usize, u: usize, v: usize)
    requires
        g.wf(),
        g.jumps@.contains(1),
        g.jumps@.contains(a),
        g.jumps@.contains(b),
        0 < a,
        0 < b,
        u < g.n,
        v < g.n,
    ensures
        g.within(
            u,
            v,
            (g.n / 2 + b / 2) as nat / b as nat + (b / 2 + a / 2) as nat / a as nat + a as nat / 2,
        ),
{
    let n = g.n as int;
    let t = if v - u > n / 2 {
        v - u - n
    } else if u - v > n / 2 {
        v - u + n
    } else {
        v - u
    };
    let far = abs(t);
    let k = lemma_round(far, b as nat, (n / 2) as nat);
    let kt: int = if t < 0 {
        -(k as int)
    } else {
        k as int
    };
    let r = t - kt * b;
    assert(abs(r) == abs(far - k * b)) by (nonlinear_arith)
        requires
            r == t - kt * b,
            far == abs(t),
            kt == if t < 0 { -(k as int) } else { k as int },
    ;
    let l = lemma_round(abs(r), a as nat, (b / 2) as nat);
    let lt: int = if r < 0 {
        -(l as int)
    } else {
        l as int
    };
    let q = r - lt * a;
    assert(abs(q) == abs(abs(r) - l * a)) by (nonlinear_arith)
        requires
            q == r - lt * a,
            lt == if r < 0 { -(l as int) } else { l as int },
    ;
    let start = seq![u];
    assert(g.leads(start, u, u));
    assert(g.within(u, u, 0));
    lemma_jumps(g, u, u, 0, b, kt);
    let x = moved(u, kt * b, n);
    lemma_jumps(g, u, x, k, a, lt);
    let y = moved(x, lt * a, n);
    lemma_jumps(g, u, y, k + l, 1, q);
    let z = moved(y, q * 1, n);
    lemma_add_mod_noop_right(lt * a, u + kt * b, n);
    lemma_add_mod_noop_right(q, u + kt * b + lt * a, n);
    assert(z == ((u + t) % n) as usize);
    lemma_small_mod(v as nat, n as nat);
    lemma_mod_add_multiples_vanish(v as int, n);
    lemma_mod_add_multiples_vanish(v - n, n);
    assert(z == v);
    let w = choose|w: Seq<usize>| #[trigger] g.leads(w, u, z) && w.len() <= k + l + abs(q) + 1;
    assert(g.leads(w, u, v));
}

/// The jumps that are chosen for 128 nodes and degree three.
proof fn lemma_three_spread_jumps()
    ensures
        spread_jumps(128, 3) == seq![1usize, 5, 21],
{
    assert(fib(0) == 1 && fib(1) == 2);
    assert(fib(2) == 3);
    assert(fib(3) == 5);
    assert(fib(4) == 8);
    assert(fib(5) == 13);
    assert(fib(6) == 21);
    assert(fib(7) == 34);
    assert(fib(8) == 55);
    assert(fib(9) == 89);
    assert(fibs_up_to(64, 9) == 9);
    assert(fibs_up_to(64, 8) == 9);
    assert(fibs_up_to(64, 7) == 9);
    assert(fibs_up_to(64, 6) == 9);
    assert(fibs_up_to(64, 5) == 9);
    assert(fibs_up_to(64, 4) == 9);
    assert(fibs_up_to(64, 3) == 9);
    assert(fibs_up_to(64, 2) == 9);
    assert(fibs_up_to(64, 1) == 9);
    assert(fibs_up_to(64, 0) == 9);
    assert(spread_jumps(128, 3) =~= seq![1usize, 5, 21]);
}

/// In the graph of 128 nodes with three Fibonacci jumps no two nodes are more
/// than eight edges apart, which bounds its diameter.
pub proof fn the_fibonacci_graph_is_shallow(g: CayleyGraph)
    requires
        g.wf(),
        g.n == 128,
        normal_jumps(g.jumps@, spread_jumps(128, 3), 128),
    ensures
        forall|u: usize, v: usize| u < g.n && v < g.n ==> !#[trigger] g.cut_off(u, v),
        forall|u: usize, v: usize, d: nat|
            u < g.n && v < g.n && #[trigger] g.apart(u, v, d) ==> d <= 8,
{
    lemma_three_spread_jumps();
    let j = spread_jumps(128, 3);
    assert(normal(j[0] as nat, 128) == 1);
    assert(normal(j[1] as nat, 128) == 5);
    assert(normal(j[2] as nat, 128) == 21);
    assert forall|u: usize, v: usize| u < g.n && v < g.n implies #[trigger] g.within(u, v, 8) by {
        three_jumps_bound_every_distance(g, 5, 21, u, v);
        let w = choose|w: Seq<usize>| #[trigger] g.leads(w, u, v) && w.len() <= 8;
        assert(g.leads(w, u, v));
    }
    assert forall|u: usize, v: usize| u < g.n && v < g.n implies !#[trigger] g.cut_off(u, v) by {
        assert(g.within(u, v, 8));
    }
    assert forall|u: usize, v: usize, d: nat|
        u < g.n && v < g.n && #[trigger] g.apart(u, v, d) implies d <= 8 by {
        assert(g.within(u, v, 8));
    }
}

} // verus!
