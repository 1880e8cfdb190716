//! What the jumps of an overlay are and what its edges and routes are, in plain
//! numbers.
use crate::cayley::{
    cyclic,
    fibs_up_to,
    lemma_fib_rises,
    lemma_nearest,
    neighbours_are_a_jump_away,
    normal,
    normal_jumps,
    spread_jumps,
    ascending,
    CayleyGraph,
};
use crate::zeckendorf::fib;
use vstd::arithmetic::div_mod::{
    lemma_div_is_ordered,
    lemma_fundamental_div_mod,
    lemma_mod_add_multiples_vanish,
    lemma_small_mod,
};
use vstd::prelude::*;

verus! {

proof fn lemma_fib_order(i: nat, j: nat)
    requires
        i < j,
    ensures
        fib(i) < fib(j),
    decreases j,
{
    lemma_fib_rises((j - 1) as nat);
    if i < j - 1 {
        lemma_fib_order(i, (j - 1) as nat);
    }
}

proof fn lemma_count(half: nat, i: nat, c: nat)
    requires
        i <= c,
        half < fib(c),
        c > 0 ==> fib((c - 1) as nat) <= half,
    ensures
        fibs_up_to(half, i) == c,
    decreases c - i,
{
    if i < c {
        if i < c - 1 {
            lemma_fib_order(i, (c - 1) as nat);
        }
        lemma_count(half, i + 1, c);
    }
}

/// Numbers in order that are the same numbers are the same sequence.
proof fn lemma_same_numbers(a: Seq<usize>, b: Seq<usize>)
    requires
        ascending(a),
        ascending(b),
        forall|i: int| 0 <= i < a.len() ==> b.contains(#[trigger] a[i]),
        forall|i: int| 0 <= i < b.len() ==> a.contains(#[trigger] b[i]),
    ensures
        a == b,
    decreases a.len(),
{
    if a.len() == 0 {
        if b.len() > 0 {
            assert(a.contains(b[0]));
        }
        assert(a =~= b);
    } else {
        assert(b.contains(a[0]));
        let x = a.drop_last();
        let y = b.drop_last();
        assert(a.last() == b.last()) by {
            assert(b.contains(a[a.len() - 1]));
            assert(a.contains(b[b.len() - 1]));
            let i = choose|i: int| 0 <= i < b.len() && b[i] == a.last();
            let j = choose|j: int| 0 <= j < a.len() && a[j] == b.last();
            if i < b.len() - 1 {
                assert(b[i] < b[b.len() - 1]);
            }
            if j < a.len() - 1 {
                assert(a[j] < a[a.len() - 1]);
            }
        }
        assert forall|i: int| 0 <= i < x.len() implies y.contains(#[trigger] x[i]) by {
            assert(b.contains(a[i]));
            let k = choose|k: int| 0 <= k < b.len() && b[k] == a[i];
            assert(a[i] < a[a.len() - 1]);
            assert(y[k] == x[i]);
        }
        assert forall|i: int| 0 <= i < y.len() implies x.contains(#[trigger] y[i]) by {
            assert(a.contains(b[i]));
            let k = choose|k: int| 0 <= k < a.len() && a[k] == b[i];
            assert(b[i] < b[b.len() - 1]);
            assert(x[k] == y[i]);
        }
        lemma_same_numbers(x, y);
        assert(a =~= x.push(a.last()));
        assert(b =~= y.push(b.last()));
    }
}

/// The jumps of a Fibonacci graph: where there are `c` Fibonacci numbers up to
/// half way round, as many different jumps as were asked for, or all `c` of them
/// if those are fewer, each a Fibonacci number, and an equal number of Fibonacci
/// numbers passed over between any two.
pub proof fn the_jumps_are_as_many_as_asked_for(g: CayleyGraph, degree: nat, c: nat)
    requires
        g.wf(),
        g.n >= 2,
        degree > 0,
        normal_jumps(g.jumps@, spread_jumps(g.n as nat, degree), g.n as nat),
        c > 0,
        fib((c - 1) as nat) <= g.n / 2 < fib(c),
    ensures
        g.jumps@.len() == (if degree <= c {
            degree
        } else {
            c
        }),
        forall|i: int|
            0 <= i < g.jumps@.len() ==> #[trigger] g.jumps@[i] == fib(
                (i * (if degree <= c {
                    c / degree
                } else {
                    1
                })) as nat,
            ),
{
    let n = g.n as nat;
    let v = spread_jumps(n, degree);
    lemma_count(n / 2, 0, c);
    let step = if c / degree > 1 {
        c / degree
    } else {
        1
    };
    let all = (c + step - 1) / step as int;
    lemma_fundamental_div_mod(c as int, degree as int);
    if degree <= c {
        lemma_div_is_ordered(degree as int, c as int, degree as int);
        assert(degree as int / degree as int == 1) by (nonlinear_arith)
            requires
                degree > 0,
        ;
        assert(step == c / degree);
        assert(degree * step <= c) by (nonlinear_arith)
            requires
                c == degree * (c / degree) + c % degree,
                step == c / degree,
                c % degree >= 0,
        ;
        assert(all >= degree) by (nonlinear_arith)
            requires
                all == (c + step - 1) / step as int,
                degree * step <= c,
                step >= 1,
        ;
    } else {
        assert(c / degree == 0) by (nonlinear_arith)
            requires
                c < degree,
        ;
        assert(all == c);
    }
    let count = v.len();
    assert(count == (if degree <= c {
        degree
    } else {
        c
    }));
    assert forall|i: int| 0 <= i < count implies {
        let x = #[trigger] v[i];
        &&& x == fib((i * step) as nat)
        &&& 0 < x <= n / 2
        &&& normal(x as nat, n) == x
    } by {
        assert(0 <= i * step < c) by (nonlinear_arith)
            requires
                0 <= i < count,
                step >= 1,
                degree <= c ==> count == degree && degree * step <= c,
                degree > c ==> count == c && step == 1,
        ;
        let at = (i * step) as nat;
        lemma_fib_rises(at);
        if at < c - 1 {
            lemma_fib_order(at, (c - 1) as nat);
        }
        lemma_small_mod(fib(at), n);
    }
    assert(ascending(v)) by {
        assert forall|i: int, j: int| 0 <= i < j < v.len() implies #[trigger] v[i] < #[trigger] v[j] by {
            assert(0 <= i * step < j * step) by (nonlinear_arith)
                requires
                    0 <= i < j,
                    step >= 1,
            ;
            lemma_fib_order((i * step) as nat, (j * step) as nat);
        }
    }
    assert forall|k: int| 0 <= k < g.jumps@.len() implies v.contains(#[trigger] g.jumps@[k]) by {
        let i = choose|i: int|
            0 <= i < v.len() && normal(#[trigger] v[i] as nat, n) == g.jumps@[k];
        assert(v[i] == g.jumps@[k]);
    }
    assert forall|i: int| 0 <= i < v.len() implies g.jumps@.contains(#[trigger] v[i]) by {
        assert(normal(v[i] as nat, n) as usize == v[i]);
    }
    lemma_same_numbers(g.jumps@, v);
}

/// How far apart two nodes are: the shorter way round.
pub proof fn distances_are_the_shorter_way_round(a: int, b: int, n: int)
    requires
        0 <= a < n,
        0 <= b < n,
    ensures
        a >= b ==> cyclic(a, b, n) == (if a - b <= n - (a - b) {
            a - b
        } else {
            n - (a - b)
        }),
        cyclic(a, b, n) == cyclic(b, a, n),
        cyclic(a, b, n) == 0 <==> a == b,
        cyclic(a, b, n) <= n / 2,
{
    if a >= b {
        lemma_mod_add_multiples_vanish(a - b, n);
        lemma_small_mod((a - b) as nat, n as nat);
        if a == b {
            lemma_mod_add_multiples_vanish(0, n);
        } else {
            lemma_small_mod((b + n - a) as nat, n as nat);
        }
    } else {
        lemma_small_mod((a + n - b) as nat, n as nat);
        lemma_mod_add_multiples_vanish(b - a, n);
        lemma_small_mod((b - a) as nat, n as nat);
    }
}

/// A jump leads from one node to another, forward or back round the circle; a
/// jump of no distance counts as one of one.
pub open spec fn leads_by(jump: usize, u: usize, v: usize, n: usize) -> bool {
    let s = if jump % n == 0 {
        1int
    } else {
        (jump % n) as int
    };
    v == u + s || v == u + s - n || v == u - s || v == u - s + n
}

proof fn lemma_leads_by(jump: usize, u: usize, v: usize, n: usize)
    requires
        n >= 2,
        u < n,
        v < n,
    ensures
        leads_by(jump, u, v, n) <==> normal(jump as nat, n as nat) == cyclic(
            u as int,
            v as int,
            n as int,
        ),
{
    distances_are_the_shorter_way_round(u as int, v as int, n as int);
    distances_are_the_shorter_way_round(v as int, u as int, n as int);
    let r = (jump % n) as int;
    assert(0 <= r < n);
    assert(jump as nat % n as nat == r);
}

/// Two nodes are joined just when one of the jumps a graph was made of leads from
/// one to the other.
pub proof fn edges_are_the_given_jumps(g: CayleyGraph, jumps: Seq<usize>, u: usize, v: usize)
    requires
        g.wf(),
        g.n >= 2,
        normal_jumps(g.jumps@, jumps, g.n as nat),
        u < g.n,
        v < g.n,
    ensures
        g.joined(u, v) <==> exists|i: int|
            0 <= i < jumps.len() && leads_by(#[trigger] jumps[i], u, v, g.n),
{
    let n = g.n as nat;
    neighbours_are_a_jump_away(g, u, v);
    distances_are_the_shorter_way_round(u as int, v as int, n as int);
    distances_are_the_shorter_way_round(v as int, u as int, n as int);
    let d = cyclic(u as int, v as int, n as int) as usize;
    if g.joined(u, v) {
        let k = choose|k: int| 0 <= k < g.jumps@.len() && g.jumps@[k] == d;
        let i = choose|i: int|
            0 <= i < jumps.len() && normal(#[trigger] jumps[i] as nat, n) == g.jumps@[k];
        lemma_leads_by(jumps[i], u, v, g.n);
        assert(leads_by(jumps[i], u, v, g.n));
    }
    if exists|i: int| 0 <= i < jumps.len() && leads_by(#[trigger] jumps[i], u, v, g.n) {
        let i = choose|i: int| 0 <= i < jumps.len() && leads_by(#[trigger] jumps[i], u, v, g.n);
        lemma_leads_by(jumps[i], u, v, g.n);
        assert(g.jumps@.contains(normal(jumps[i] as nat, n) as usize));
    }
}

/// A hop goes to a neighbour, and none of the neighbours is nearer to the target.
pub proof fn a_hop_goes_as_near_as_it_can(g: CayleyGraph, cur: usize, to: usize, other: usize)
    requires
        g.wf(),
        cur < g.n,
        to < g.n,
        other < g.n,
        g.joined(cur, other),
    ensures
        g.joined(cur, g.hop(cur, to)),
        cyclic(g.hop(cur, to) as int, to as int, g.n as int) <= cyclic(
            other as int,
            to as int,
            g.n as int,
        ),
{
    let around = g.around(cur as int);
    lemma_nearest(around, to as int, g.n as int, around.len());
    let k = choose|k: int| 0 <= k < around.len() && around[k] == other;
    assert(around[k] == other);
}

/// Greedy routing goes from hop to hop until it is there.
pub proof fn greedy_routing_goes_by_hops(g: CayleyGraph, from: usize, to: usize, steps: nat, i: int)
    requires
        0 <= i,
        i + 1 < g.greedy(from, to, steps).len(),
    ensures
        g.greedy(from, to, steps)[0] == from,
        g.greedy(from, to, steps)[i] != to,
        g.greedy(from, to, steps)[i + 1] == g.hop(g.greedy(from, to, steps)[i], to),
    decreases steps,
{
    let w = g.greedy(from, to, steps);
    if from != to && steps > 0 {
        let rest = g.greedy(g.hop(from, to), to, (steps - 1) as nat);
        assert(w[1] == rest[0]);
        assert(rest[0] == g.hop(from, to));
        if i > 0 {
            greedy_routing_goes_by_hops(g, g.hop(from, to), to, (steps - 1) as nat, i - 1);
            assert(w[i] == rest[i - 1]);
            assert(w[i + 1] == rest[i]);
        }
    }
}

} // verus!
