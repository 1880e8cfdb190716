//! Rateless erasure coding for bulk transfer.
//!
//! A generation of `k` source symbols is sent as the symbols themselves
//! followed by as many repair symbols as wanted, each a random combination of
//! a few sources over GF(2^8). A receiver rebuilds the sources from any set of
//! received symbols whose coefficient vectors have full rank, whichever
//! symbols were lost. Decoding peels: a symbol with one unknown reveals it, and
//! the value is substituted into the others; what peeling leaves is solved by
//! Gaussian elimination.
use crate::gf256;
use crate::gf256::{product, product_associates, product_commutes, product_units, sum_laws};
use crate::linear::{
    apart,
    backed,
    column,
    copy_range,
    dot,
    full_rank,
    has_rank,
    independence_is_a_matter_of_rank,
    is_reduced,
    is_zero,
    kernel,
    lemma_dot_agree,
    lemma_dot_clear,
    lemma_dot_none,
    lemma_dot_single,
    lemma_row_bounds,
    lemma_rows_push,
    one_solution_at_most,
    rows_at,
    rows_of,
    same_kernel,
    settled,
    shaped,
    solve_system,
    solves,
    unit,
    views,
};
use crate::text::{decimal, number};
use std::collections::VecDeque;
use std::sync::Arc;
use vstd::prelude::*;

verus! {

/// Why a generation cannot be encoded or decoded.
#[derive(Debug, Clone, Copy, PartialEq, Eq, Structural)]
pub enum FountainError {
    /// There are no source symbols.
    Empty,
    /// The received symbols do not determine the sources.
    Underdetermined { have: usize, need: usize },
    /// A symbol is shorter or longer than it has to be.
    SizeMismatch { a: usize, b: usize },
}

impl FountainError {
    /// What the error says.
    pub open spec fn says(&self) -> Seq<char> {
        match self {
            FountainError::Empty => "empty generation"@,
            FountainError::Underdetermined { have, need } => "decode failed: only "@ + decimal(
                *have as nat,
            ) + " of "@ + decimal(*need as nat) + " independent symbols"@,
            FountainError::SizeMismatch { a, b } => "symbol size mismatch: "@ + decimal(*a as nat)
                + " vs "@ + decimal(*b as nat),
        }
    }

    /// What the error says.
    pub fn message(&self) -> (r: String)
        ensures
            r@ == self.says(),
    {
        match self {
            FountainError::Empty => "empty generation".to_owned(),
            FountainError::Underdetermined { have, need } => "decode failed: only ".to_owned().concat(
                number(*have as u64).as_str(),
            ).concat(" of ").concat(number(*need as u64).as_str()).concat(" independent symbols"),
            FountainError::SizeMismatch { a, b } => "symbol size mismatch: ".to_owned().concat(
                number(*a as u64).as_str(),
            ).concat(" vs ").concat(number(*b as u64).as_str()),
        }
    }
}

/// A coded symbol: the coefficient of every source, and the combination of the
/// sources with these coefficients.
#[derive(Clone, Debug)]
pub struct CodedSymbol {
    pub coeffs: Vec<u8>,
    pub payload: Vec<u8>,
}

/// The coefficient vectors of the symbols.
pub open spec fn coeff_rows(syms: Seq<CodedSymbol>) -> Seq<Seq<u8>> {
    syms.map_values(|c: CodedSymbol| c.coeffs@)
}

/// Once the sources in `known` are, the coefficients leave just source `j` open.
pub open spec fn opens(row: Seq<u8>, known: Seq<int>, j: int) -> bool {
    &&& 0 <= j < row.len()
    &&& row[j] != 0
    &&& !known.contains(j)
    &&& forall|q: int| 0 <= q < row.len() && #[trigger] row[q] != 0 && q != j ==> known.contains(q)
}

/// Once the sources in `known` are, some symbol reveals source `j`.
pub open spec fn comes_out(rows: Seq<Seq<u8>>, known: Seq<int>, j: int) -> bool {
    exists|i: int| 0 <= i < rows.len() && opens(#[trigger] rows[i], known, j)
}

/// Peeling reveals the sources in this order.
pub open spec fn peels(rows: Seq<Seq<u8>>, order: Seq<int>) -> bool
    decreases order.len(),
{
    order.len() == 0 || (peels(rows, order.drop_last()) && comes_out(
        rows,
        order.drop_last(),
        order.last(),
    ))
}

/// Peeling reveals the sources in `order` and no more; `u` are the others.
pub open spec fn left_over(rows: Seq<Seq<u8>>, k: int, order: Seq<int>, u: Seq<usize>) -> bool {
    &&& peels(rows, order)
    &&& forall|j: int| !#[trigger] comes_out(rows, order, j)
    &&& ascending(u, k)
    &&& forall|j: int| 0 <= j < k ==> (#[trigger] u.contains(j as usize) <==> !order.contains(j))
}

/// The rows at the positions `u` alone.
pub open spec fn restricted(rows: Seq<Seq<u8>>, u: Seq<usize>) -> Seq<Seq<u8>> {
    rows.map_values(|r: Seq<u8>| gather(r, u))
}

/// Peeling alone reveals every source.
pub open spec fn peels_out(rows: Seq<Seq<u8>>, k: int) -> bool {
    exists|order: Seq<int>| #[trigger] left_over(rows, k, order, Seq::empty())
}

/// Peeling leaves `need` sources, and what it leaves of the coefficients has
/// rank `have`. Symbols of no bytes leave nothing to solve.
pub open spec fn short_by(rows: Seq<Seq<u8>>, k: int, s: int, have: int, need: int) -> bool {
    exists|order: Seq<int>, u: Seq<usize>| #[trigger]
        left_over(rows, k, order, u) && need == u.len() && if s > 0 {
            has_rank(restricted(rows, u), need, have)
        } else {
            have == 0
        }
}

/// Whatever peeling reveals in one order is revealed in every order that goes on
/// to the end.
proof fn lemma_revealed_anyway(rows: Seq<Seq<u8>>, some: Seq<int>, all: Seq<int>, j: int)
    requires
        peels(rows, some),
        forall|j: int| !#[trigger] comes_out(rows, all, j),
        some.contains(j),
    ensures
        all.contains(j),
    decreases some.len(),
{
    let rest = some.drop_last();
    if rest.contains(j) {
        lemma_revealed_anyway(rows, rest, all, j);
    } else {
        let at = choose|at: int| 0 <= at < some.len() && some[at] == j;
        assert(at == some.len() - 1) by {
            if at < some.len() - 1 {
                assert(rest[at] == j);
            }
        }
        assert(comes_out(rows, rest, j));
        let i = choose|i: int| 0 <= i < rows.len() && opens(#[trigger] rows[i], rest, j);
        if !all.contains(j) {
            assert forall|q: int| 0 <= q < rows[i].len() && #[trigger] rows[i][q] != 0 && q != j implies all.contains(
                q,
            ) by {
                lemma_revealed_anyway(rows, rest, all, q);
            }
            assert(opens(rows[i], all, j));
            assert(comes_out(rows, all, j));
        }
    }
}

proof fn lemma_same_positions(a: Seq<usize>, b: Seq<usize>, n: int)
    requires
        ascending(a, n),
        ascending(b, n),
        forall|x: usize| #[trigger] a.contains(x) <==> b.contains(x),
    ensures
        a == b,
    decreases a.len(),
{
    if a.len() == 0 {
        if b.len() > 0 {
            assert(b.contains(b[0]));
            assert(a.contains(b[0]));
        }
        assert(a =~= b);
    } else {
        assert(a.contains(a.last()));
        assert(b.contains(a.last()));
        assert(b.contains(b.last()));
        assert(a.contains(b.last()));
        assert(a.last() == b.last());
        let a1 = a.drop_last();
        let b1 = b.drop_last();
        assert forall|x: usize| #[trigger] a1.contains(x) <==> b1.contains(x) by {
            if a1.contains(x) {
                let i = choose|i: int| 0 <= i < a1.len() && a1[i] == x;
                assert(a[i] == x);
                assert(a.contains(x));
                let j = choose|j: int| 0 <= j < b.len() && b[j] == x;
                assert(b1[j] == x);
            }
            if b1.contains(x) {
                let i = choose|i: int| 0 <= i < b1.len() && b1[i] == x;
                assert(b[i] == x);
                assert(b.contains(x));
                assert(a.contains(x));
                let j = choose|j: int| 0 <= j < a.len() && a[j] == x;
                assert(a1[j] == x);
            }
        }
        lemma_same_positions(a1, b1, n);
        assert(a =~= a1.push(a.last()));
        assert(b =~= b1.push(b.last()));
    }
}

/// Peeling ends in the same place whatever order it takes the symbols in.
pub proof fn peeling_has_one_end(
    rows: Seq<Seq<u8>>,
    k: int,
    order: Seq<int>,
    u: Seq<usize>,
    other_order: Seq<int>,
    other_u: Seq<usize>,
)
    requires
        k <= usize::MAX,
        left_over(rows, k, order, u),
        left_over(rows, k, other_order, other_u),
    ensures
        u == other_u,
{
    assert forall|x: usize| #[trigger] u.contains(x) <==> other_u.contains(x) by {
        let j = x as int;
        if u.contains(x) {
            let i = choose|i: int| 0 <= i < u.len() && u[i] == x;
            assert(0 <= u[i] < k);
            assert(u.contains(j as usize));
            if other_order.contains(j) {
                lemma_revealed_anyway(rows, other_order, order, j);
            }
            assert(other_u.contains(j as usize));
        }
        if other_u.contains(x) {
            let i = choose|i: int| 0 <= i < other_u.len() && other_u[i] == x;
            assert(0 <= other_u[i] < k);
            assert(other_u.contains(j as usize));
            if order.contains(j) {
                lemma_revealed_anyway(rows, order, other_order, j);
            }
            assert(u.contains(j as usize));
        }
    }
    lemma_same_positions(u, other_u, k);
}

/// Rows without a nonzero entry reveal nothing and determine nothing.
proof fn lemma_idle_rows(
    some: Seq<Seq<u8>>,
    all: Seq<Seq<u8>>,
    from: Seq<int>,
    k: int,
    order: Seq<int>,
    u: Seq<usize>,
)
    requires
        some.len() == from.len(),
        forall|q: int|
            0 <= q < from.len() ==> 0 <= #[trigger] from[q] < all.len() && some[q] == all[from[q]],
        forall|i: int| 0 <= i < all.len() && !is_zero(#[trigger] all[i]) ==> from.contains(i),
        forall|i: int| 0 <= i < all.len() ==> (#[trigger] all[i]).len() == k,
        left_over(some, k, order, u),
    ensures
        left_over(all, k, order, u),
        same_kernel(restricted(some, u), restricted(all, u), u.len() as int),
{
    assert forall|known: Seq<int>, j: int| #[trigger]
        comes_out(some, known, j) <==> comes_out(all, known, j) by {
        if comes_out(some, known, j) {
            let q = choose|q: int| 0 <= q < some.len() && opens(#[trigger] some[q], known, j);
            assert(0 <= from[q] < all.len());
            assert(opens(all[from[q]], known, j));
        }
        if comes_out(all, known, j) {
            let i = choose|i: int| 0 <= i < all.len() && opens(#[trigger] all[i], known, j);
            assert(!is_zero(all[i]));
            let q = choose|q: int| 0 <= q < from.len() && from[q] == i;
            assert(some[q] == all[from[q]]);
            assert(opens(some[q], known, j));
        }
    }
    lemma_peels_too(some, all, order);
    assert forall|j: int| !#[trigger] comes_out(all, order, j) by {
        assert(!comes_out(some, order, j));
    }
    let r = u.len() as int;
    let a = restricted(some, u);
    let b = restricted(all, u);
    assert forall|v: Seq<u8>| v.len() == r implies (#[trigger] kernel(a, r, v) <==> kernel(b, r, v)) by {
        if kernel(b, r, v) {
            assert forall|q: int| 0 <= q < a.len() implies dot((#[trigger] a[q]).take(r), v) == 0 by {
                assert(0 <= from[q] < all.len());
                assert(dot(b[from[q]].take(r), v) == 0);
            }
        }
        if kernel(a, r, v) {
            assert forall|i: int| 0 <= i < b.len() implies dot((#[trigger] b[i]).take(r), v) == 0 by {
                assert(b[i].take(r) =~= b[i]);
                if is_zero(all[i]) {
                    assert forall|t: int| 0 <= t < r implies b[i][t] == 0 by {
                        assert(0 <= u[t] < k);
                        assert(all[i][u[t] as int] == 0);
                    }
                    lemma_dot_none(b[i], v);
                } else {
                    let q = choose|q: int| 0 <= q < from.len() && from[q] == i;
                    assert(some[q] == all[from[q]]);
                    assert(dot(a[q].take(r), v) == 0);
                }
            }
        }
    }
}

proof fn lemma_peels_too(some: Seq<Seq<u8>>, all: Seq<Seq<u8>>, order: Seq<int>)
    requires
        peels(some, order),
        forall|known: Seq<int>, j: int| #[trigger]
            comes_out(some, known, j) ==> comes_out(all, known, j),
    ensures
        peels(all, order),
    decreases order.len(),
{
    if order.len() > 0 {
        lemma_peels_too(some, all, order.drop_last());
        assert(comes_out(some, order.drop_last(), order.last()));
    }
}

/// The rank belongs to the vectors orthogonal to the rows.
proof fn lemma_same_rank(a: Seq<Seq<u8>>, b: Seq<Seq<u8>>, k: int, rank: int)
    requires
        same_kernel(a, b, k),
        has_rank(b, k, rank),
    ensures
        has_rank(a, k, rank),
{
    let echelon = choose|echelon: Seq<Seq<u8>>| #[trigger]
        same_kernel(b, echelon, k) && is_reduced(echelon, k, rank) && forall|i: int|
            0 <= i < echelon.len() ==> (#[trigger] echelon[i]).len() >= k;
    assert(same_kernel(a, echelon, k)) by {
        assert forall|v: Seq<u8>| v.len() == k implies (#[trigger] kernel(a, k, v) <==> kernel(
            echelon,
            k,
            v,
        )) by {
            assert(kernel(b, k, v) <==> kernel(echelon, k, v));
        }
    }
}

/// The symbol is the combination of the sources `x` that its coefficients say.
pub open spec fn satisfied(sym: CodedSymbol, x: Seq<Seq<u8>>, s: int) -> bool {
    forall|t: int| 0 <= t < s ==> #[trigger] sym.payload@[t] == dot(sym.coeffs@, column(x, t))
}

/// Every symbol is the combination of the sources `x` that its coefficients say.
pub open spec fn consistent(syms: Seq<CodedSymbol>, x: Seq<Seq<u8>>, s: int) -> bool {
    forall|i: int| 0 <= i < syms.len() ==> satisfied(#[trigger] syms[i], x, s)
}

/// The coefficients alone determine `k` sources.
pub open spec fn decodable(syms: Seq<CodedSymbol>, k: int) -> bool {
    forall|v: Seq<u8>| v.len() == k && #[trigger] orthogonal(syms, v) ==> is_zero(v)
}

/// `v` is orthogonal to the coefficients of every symbol.
pub open spec fn orthogonal(syms: Seq<CodedSymbol>, v: Seq<u8>) -> bool {
    forall|i: int| 0 <= i < syms.len() ==> dot((#[trigger] syms[i]).coeffs@, v) == 0
}

/// Every symbol has `k` coefficients and a payload of `s` bytes.
pub open spec fn well_shaped(syms: Seq<CodedSymbol>, k: int, s: int) -> bool {
    forall|i: int|
        0 <= i < syms.len() ==> (#[trigger] syms[i]).coeffs@.len() == k && syms[i].payload@.len() == s
}

/// Every symbol has `k` coefficients and a payload of `s` bytes, or none where it
/// has given it up.
spec fn loosely_shaped(syms: Seq<CodedSymbol>, k: int, s: int) -> bool {
    forall|i: int|
        0 <= i < syms.len() ==> (#[trigger] syms[i]).coeffs@.len() == k && (syms[i].payload@.len()
            == s || syms[i].payload@.len() == 0)
}

/// The number of nonzero entries.
pub open spec fn weight(v: Seq<u8>) -> nat
    decreases v.len(),
{
    if v.len() == 0 {
        0
    } else {
        weight(v.drop_last()) + (if v.last() != 0 {
            1nat
        } else {
            0nat
        })
    }
}

proof fn lemma_weight_zero(v: Seq<u8>)
    ensures
        weight(v) == 0 <==> is_zero(v),
        weight(v) <= v.len(),
    decreases v.len(),
{
    if v.len() > 0 {
        lemma_weight_zero(v.drop_last());
        if weight(v) == 0 {
            assert forall|j: int| 0 <= j < v.len() implies v[j] == 0 by {
                if j < v.len() - 1 {
                    assert(v.drop_last()[j] == 0);
                }
            }
        }
        if is_zero(v) {
            assert forall|j: int| 0 <= j < v.len() - 1 implies v.drop_last()[j] == 0 by {
                assert(v[j] == 0);
            }
            assert(v[v.len() - 1] == 0);
        }
    }
}

proof fn lemma_weight_clear(v: Seq<u8>, t: int)
    requires
        0 <= t < v.len(),
        v[t] != 0,
    ensures
        weight(v) == weight(v.update(t, 0)) + 1,
    decreases v.len(),
{
    let w = v.update(t, 0);
    if t == v.len() - 1 {
        assert(w.drop_last() =~= v.drop_last());
    } else {
        assert(w.drop_last() =~= v.drop_last().update(t, 0));
        lemma_weight_clear(v.drop_last(), t);
    }
}

/// A vector with one nonzero entry is zero everywhere else.
proof fn lemma_weight_one(v: Seq<u8>, t: int)
    requires
        0 <= t < v.len(),
        v[t] != 0,
        weight(v) == 1,
    ensures
        forall|j: int| 0 <= j < v.len() && j != t ==> v[j] == 0,
{
    lemma_weight_clear(v, t);
    lemma_weight_zero(v.update(t, 0));
    assert forall|j: int| 0 <= j < v.len() && j != t implies v[j] == 0 by {
        assert(v.update(t, 0)[j] == 0);
    }
}

/// The number of nonzero entries of `v`.
fn count_nonzero(v: &Vec<u8>) -> (n: usize)
    ensures
        n == weight(v@),
{
    let mut n: usize = 0;
    let mut i: usize = 0;
    while i < v.len()
        invariant
            i <= v@.len(),
            n <= i,
            n == weight(v@.take(i as int)),
        decreases v@.len() - i,
    {
        if v[i] != 0 {
            n += 1;
        }
        i += 1;
        assert(v@.take(i as int).drop_last() =~= v@.take(i - 1));
    }
    assert(v@.take(i as int) =~= v@);
    n
}

/// The first position at which `v` is not zero.
fn first_nonzero(v: &Vec<u8>) -> (p: usize)
    ensures
        p <= v@.len(),
        forall|j: int| 0 <= j < p ==> v@[j] == 0,
        p < v@.len() ==> v@[p as int] != 0,
{
    let mut p: usize = 0;
    while p < v.len() && v[p] == 0
        invariant
            p <= v@.len(),
            forall|j: int| 0 <= j < p ==> v@[j] == 0,
        decreases v@.len() - p,
    {
        p += 1;
    }
    p
}

/// What peeling has established about the symbols `first` it started from: the
/// sources revealed so far are right, what is left of the other symbols still
/// holds, and a vector is orthogonal to all of `first` exactly if it vanishes
/// on the revealed sources and is orthogonal to what is left.
spec fn peeled(
    first: Seq<CodedSymbol>,
    syms: Seq<CodedSymbol>,
    revealed: Seq<Option<Vec<u8>>>,
    degree: Seq<usize>,
    used: Seq<bool>,
    k: int,
    s: int,
) -> bool {
    &&& well_shaped(first, k, s)
    &&& syms.len() == first.len()
    &&& degree.len() == first.len()
    &&& used.len() == first.len()
    &&& revealed.len() == k
    &&& loosely_shaped(syms, k, s)
    &&& forall|i: int|
        0 <= i < syms.len() ==> #[trigger] degree[i] == (if used[i] {
            0
        } else {
            weight(syms[i].coeffs@)
        })
    &&& forall|i: int| 0 <= i < syms.len() && #[trigger] used[i] ==> syms[i].payload@.len() == 0
    &&& forall|i: int, j: int|
        0 <= i < syms.len() && !used[i] && 0 <= j < k && revealed[j] is Some
            ==> #[trigger] syms[i].coeffs@[j] == 0
    &&& forall|j: int| 0 <= j < k && revealed[j] is Some ==> ((#[trigger] revealed[j])->0)@.len() == s
        || (revealed[j]->0)@.len() == 0
    &&& forall|i: int|
        0 <= i < syms.len() && !used[i] ==> (#[trigger] syms[i]).payload@.len() == s
    &&& forall|j: int| 0 <= j < k && revealed[j] is Some ==> ((#[trigger] revealed[j])->0)@.len() == s
    &&& forall|x: Seq<Seq<u8>>|
        shaped(x, k, s) && #[trigger] consistent(first, x, s) ==> fits(syms, revealed, used, x, s)
    &&& forall|v: Seq<u8>|
        v.len() == k ==> (#[trigger] orthogonal(first, v) <==> left_orthogonal(
            syms,
            revealed,
            used,
            v,
        ))
}

/// The sources `x` agree with what is revealed and satisfy what is left.
spec fn fits(
    syms: Seq<CodedSymbol>,
    revealed: Seq<Option<Vec<u8>>>,
    used: Seq<bool>,
    x: Seq<Seq<u8>>,
    s: int,
) -> bool {
    &&& forall|j: int| 0 <= j < revealed.len() && revealed[j] is Some ==> ((#[trigger] revealed[j])->0)@ == x[j]
    &&& forall|i: int| 0 <= i < syms.len() && !used[i] ==> satisfied(#[trigger] syms[i], x, s)
}

/// `v` vanishes on the revealed sources and is orthogonal to what is left.
spec fn left_orthogonal(
    syms: Seq<CodedSymbol>,
    revealed: Seq<Option<Vec<u8>>>,
    used: Seq<bool>,
    v: Seq<u8>,
) -> bool {
    &&& forall|j: int| 0 <= j < revealed.len() && (#[trigger] revealed[j]) is Some ==> v[j] == 0
    &&& forall|i: int| 0 <= i < syms.len() && !used[i] ==> dot((#[trigger] syms[i]).coeffs@, v) == 0
}

/// What is left of the coefficients is what they were on the sources that are
/// not revealed, and those are revealed in the order that peeling gives.
spec fn followed(
    first: Seq<CodedSymbol>,
    syms: Seq<CodedSymbol>,
    revealed: Seq<Option<Vec<u8>>>,
    used: Seq<bool>,
    order: Seq<int>,
    k: int,
) -> bool {
    &&& peels(coeff_rows(first), order)
    &&& forall|j: int| 0 <= j < k ==> ((#[trigger] revealed[j]) is Some <==> order.contains(j))
    &&& forall|i: int| 0 <= i < first.len() ==> (#[trigger] first[i]).coeffs@.len() == k
    &&& forall|i: int, j: int|
        0 <= i < syms.len() && !used[i] && 0 <= j < k ==> #[trigger] syms[i].coeffs@[j] == (
        if revealed[j] is Some {
            0u8
        } else {
            first[i].coeffs@[j]
        })
    &&& forall|i: int, j: int|
        0 <= i < syms.len() && used[i] && 0 <= j < k && #[trigger] first[i].coeffs@[j] != 0
            ==> revealed[j] is Some
}

/// Revealing one source follows peeling.
proof fn lemma_follow(
    first: Seq<CodedSymbol>,
    syms: Seq<CodedSymbol>,
    revealed: Seq<Option<Vec<u8>>>,
    used: Seq<bool>,
    order: Seq<int>,
    k: int,
    si: int,
    target: int,
    value: Vec<u8>,
    syms2: Seq<CodedSymbol>,
)
    requires
        followed(first, syms, revealed, used, order, k),
        first.len() == syms.len(),
        used.len() == syms.len(),
        revealed.len() == k,
        0 <= si < syms.len(),
        0 <= target < k,
        !used[si],
        revealed[target] is None,
        syms[si].coeffs@.len() == k,
        syms[si].coeffs@[target] != 0,
        weight(syms[si].coeffs@) == 1,
        syms2.len() == syms.len(),
        forall|i: int|
            0 <= i < syms.len() && i != si && !used[i] ==> (#[trigger] syms2[i]).coeffs@
                == syms[i].coeffs@.update(target, 0) && syms[i].coeffs@.len() == k,
    ensures
        followed(
            first,
            syms2,
            revealed.update(target, Some(value)),
            used.update(si, true),
            order.push(target),
            k,
        ),
{
    let rows = coeff_rows(first);
    let order2 = order.push(target);
    let revealed2 = revealed.update(target, Some(value));
    lemma_weight_one(syms[si].coeffs@, target);
    assert(order2.drop_last() =~= order);
    assert(first[si].coeffs@.len() == k);
    assert(opens(rows[si], order, target)) by {
        assert(rows[si] == first[si].coeffs@);
        assert(syms[si].coeffs@[target] == first[si].coeffs@[target]);
        assert(!order.contains(target));
        assert forall|q: int| 0 <= q < k && #[trigger] rows[si][q] != 0 && q != target implies order.contains(
            q,
        ) by {
            assert(syms[si].coeffs@[q] == 0);
            assert(revealed[q] is Some);
        }
    }
    assert(comes_out(rows, order, target));
    assert forall|j: int| 0 <= j < k implies ((#[trigger] revealed2[j]) is Some <==> order2.contains(j)) by {
        if j == target {
            assert(order2[order.len() as int] == target);
        } else if revealed[j] is Some {
            let q = choose|q: int| 0 <= q < order.len() && order[q] == j;
            assert(order2[q] == j);
        } else if order2.contains(j) {
            let q = choose|q: int| 0 <= q < order2.len() && order2[q] == j;
            assert(order[q] == j);
        }
    }
    let used2 = used.update(si, true);
    assert forall|i: int, j: int| 0 <= i < syms2.len() && !used2[i] && 0 <= j < k implies #[trigger] syms2[i].coeffs@[j]
        == (if revealed2[j] is Some {
        0u8
    } else {
        first[i].coeffs@[j]
    }) by {
        assert(syms2[i].coeffs@ == syms[i].coeffs@.update(target, 0));
        if j != target {
            assert(syms[i].coeffs@[j] == syms2[i].coeffs@[j]);
        }
    }
    assert forall|i: int, j: int|
        0 <= i < syms2.len() && used2[i] && 0 <= j < k && #[trigger] first[i].coeffs@[j] != 0 implies revealed2[j] is Some by {
        if i == si && j != target {
            assert(syms[si].coeffs@[j] == 0);
        }
    }
}

/// The symbols as augmented rows: the coefficients, then the payload.
pub open spec fn sym_rows(syms: Seq<CodedSymbol>) -> Seq<Seq<u8>> {
    syms.map_values(|c: CodedSymbol| c.coeffs@ + c.payload@)
}

/// The symbols at the positions `at`.
spec fn syms_at(syms: Seq<CodedSymbol>, at: Seq<int>) -> Seq<CodedSymbol> {
    Seq::new(at.len(), |i: int| syms[at[i]])
}

/// The sources `x` agree with what is revealed.
spec fn agrees(revealed: Seq<Option<Vec<u8>>>, x: Seq<Seq<u8>>) -> bool {
    forall|j: int|
        0 <= j < revealed.len() && revealed[j] is Some ==> ((#[trigger] revealed[j])->0)@ == x[j]
}

/// The symbols at the positions `by`, as many as there are revealed sources, say
/// what those are, and what is left of the others says what they said.
spec fn vouched(
    first: Seq<CodedSymbol>,
    syms: Seq<CodedSymbol>,
    revealed: Seq<Option<Vec<u8>>>,
    used: Seq<bool>,
    by: Seq<int>,
    k: int,
    s: int,
) -> bool {
    &&& apart(by, first.len() as int)
    &&& by.len() + hidden(revealed) == k
    &&& forall|q: int| 0 <= q < by.len() ==> used[#[trigger] by[q]]
    &&& forall|v: Seq<u8>|
        v.len() == k && #[trigger] orthogonal(syms_at(first, by), v) ==> vanishes(revealed, v)
    &&& forall|x: Seq<Seq<u8>>|
        shaped(x, k, s) && #[trigger] agrees(revealed, x) ==> consistent(syms_at(first, by), x, s)
            && forall|i: int|
            0 <= i < first.len() && !used[i] ==> (satisfied(first[i], x, s) <==> satisfied(
                #[trigger] syms[i],
                x,
                s,
            ))
}

/// `v` is zero where a source is revealed.
spec fn vanishes(revealed: Seq<Option<Vec<u8>>>, v: Seq<u8>) -> bool {
    forall|j: int| 0 <= j < revealed.len() && (#[trigger] revealed[j]) is Some ==> v[j] == 0
}

proof fn lemma_hidden_all(revealed: Seq<Option<Vec<u8>>>)
    requires
        forall|j: int| 0 <= j < revealed.len() ==> (#[trigger] revealed[j]) is None,
    ensures
        hidden(revealed) == revealed.len(),
    decreases revealed.len(),
{
    if revealed.len() > 0 {
        let d = revealed.drop_last();
        assert forall|j: int| 0 <= j < d.len() implies (#[trigger] d[j]) is None by {
            assert(revealed[j] is None);
        }
        lemma_hidden_all(d);
        assert(revealed[revealed.len() - 1] is None);
    }
}

/// As many sources are hidden as are listed.
proof fn lemma_hidden_listed(revealed: Seq<Option<Vec<u8>>>, u: Seq<usize>)
    requires
        revealed.len() <= usize::MAX,
        ascending(u, revealed.len() as int),
        forall|j: int|
            0 <= j < revealed.len() ==> (u.contains(j as usize) <==> (#[trigger] revealed[j]) is None),
    ensures
        hidden(revealed) == u.len(),
    decreases revealed.len(),
{
    if revealed.len() == 0 {
        if u.len() > 0 {
            assert(u[0] < 0);
        }
    } else {
        let n = revealed.len() - 1;
        let d = revealed.drop_last();
        if revealed[n] is None {
            assert(u.contains(n as usize));
            let at = choose|at: int| 0 <= at < u.len() && u[at] == n as usize;
            assert(at == u.len() - 1) by {
                if at < u.len() - 1 {
                    assert(u[at] < u[u.len() - 1]);
                    assert(u[u.len() - 1] <= n);
                }
            }
            let w = u.drop_last();
            assert forall|i: int| 0 <= i < w.len() implies 0 <= #[trigger] w[i] < n by {
                assert(u[i] < u[u.len() - 1]);
            }
            assert forall|j: int| 0 <= j < d.len() implies (w.contains(j as usize) <==> (#[trigger] d[j]) is None) by {
                assert(revealed[j] == d[j]);
                if w.contains(j as usize) {
                    let i = choose|i: int| 0 <= i < w.len() && w[i] == j as usize;
                    assert(u[i] == j as usize);
                    assert(u.contains(j as usize));
                }
                if d[j] is None {
                    assert(u.contains(j as usize));
                    let i = choose|i: int| 0 <= i < u.len() && u[i] == j as usize;
                    assert(w[i] == j as usize);
                }
            }
            lemma_hidden_listed(d, w);
        } else {
            assert forall|i: int| 0 <= i < u.len() implies 0 <= #[trigger] u[i] < n by {
                if u[i] == n {
                    assert(u.contains(n as usize));
                    assert(revealed[n] is Some);
                }
            }
            assert forall|j: int| 0 <= j < d.len() implies (u.contains(j as usize) <==> (#[trigger] d[j]) is None) by {
                assert(revealed[j] == d[j]);
            }
            lemma_hidden_listed(d, u);
        }
    }
}

/// An inner product does not depend on the left factor where the right is zero.
proof fn lemma_dot_where(a: Seq<u8>, b: Seq<u8>, v: Seq<u8>)
    requires
        a.len() == b.len(),
        forall|j: int| 0 <= j < a.len() ==> a[j] == b[j] || v[j] == 0,
    ensures
        dot(a, v) == dot(b, v),
    decreases a.len(),
{
    if a.len() > 0 {
        lemma_dot_where(a.drop_last(), b.drop_last(), v);
        let n = a.len() - 1;
        if a[n] != b[n] {
            product_units(a[n]);
            product_units(b[n]);
        }
    }
}

/// Revealing one source keeps the revealed sources vouched for.
proof fn lemma_vouched_step(
    first: Seq<CodedSymbol>,
    syms: Seq<CodedSymbol>,
    revealed: Seq<Option<Vec<u8>>>,
    used: Seq<bool>,
    order: Seq<int>,
    by: Seq<int>,
    k: int,
    s: int,
    si: int,
    target: int,
    value: Vec<u8>,
    syms2: Seq<CodedSymbol>,
)
    requires
        vouched(first, syms, revealed, used, by, k, s),
        followed(first, syms, revealed, used, order, k),
        first.len() == syms.len(),
        used.len() == syms.len(),
        revealed.len() == k,
        loosely_shaped(syms, k, s),
        well_shaped(first, k, s),
        forall|i: int| 0 <= i < syms.len() && !used[i] ==> (#[trigger] syms[i]).payload@.len() == s,
        0 <= si < syms.len(),
        0 <= target < k,
        !used[si],
        revealed[target] is None,
        syms[si].coeffs@[target] != 0,
        weight(syms[si].coeffs@) == 1,
        value@ == gf256::scal_at(
            gf256::inverse(syms[si].coeffs@[target]),
            syms[si].payload@,
            0,
            syms[si].payload@.len() as int,
        ),
        syms2.len() == syms.len(),
        forall|i: int|
            0 <= i < syms.len() && i != si && !used[i] ==> substituted(
                syms[i],
                #[trigger] syms2[i],
                target,
                value@,
            ),
    ensures
        vouched(
            first,
            syms2,
            revealed.update(target, Some(value)),
            used.update(si, true),
            by.push(si),
            k,
            s,
        ),
{
    let revealed2 = revealed.update(target, Some(value));
    let used2 = used.update(si, true);
    let by2 = by.push(si);
    let c = syms[si].coeffs@;
    assert(c.len() == k);
    assert(syms[si].payload@.len() == s);
    lemma_weight_one(c, target);
    lemma_hidden_reveal(revealed, target, value);
    let told = syms_at(first, by);
    let told2 = syms_at(first, by2);
    assert forall|q: int| 0 <= q < by2.len() implies used2[#[trigger] by2[q]] && 0 <= by2[q]
        < first.len() by {
        if q < by.len() {
            assert(used[by[q]]);
            assert(0 <= by[q] < first.len());
        }
    }
    assert(apart(by2, first.len() as int)) by {
        assert forall|i: int, j: int| 0 <= i < j < by2.len() implies by2[i] != by2[j] by {
            if j == by.len() {
                assert(used[by[i]]);
            }
        }
    }
    assert forall|v: Seq<u8>| v.len() == k && #[trigger] orthogonal(told2, v) implies vanishes(
        revealed2,
        v,
    ) by {
        assert forall|q: int| 0 <= q < told.len() implies dot((#[trigger] told[q]).coeffs@, v) == 0 by {
            assert(told2[q] == told[q]);
            assert(dot(told2[q].coeffs@, v) == 0);
        }
        assert(orthogonal(told, v));
        assert(vanishes(revealed, v));
        assert(told2[by.len() as int] == first[si]);
        assert(dot(first[si].coeffs@, v) == 0);
        let f = first[si].coeffs@;
        assert(f.len() == k);
        assert forall|j: int| 0 <= j < c.len() implies c[j] == f[j] || v[j] == 0 by {
            assert(syms[si].coeffs@[j] == (if revealed[j] is Some {
                0u8
            } else {
                first[si].coeffs@[j]
            }));
        }
        lemma_dot_where(c, f, v);
        lemma_dot_single(c, v, target);
        gf256::product_zero(c[target], v[target]);
        assert forall|j: int| 0 <= j < revealed2.len() && (#[trigger] revealed2[j]) is Some implies v[j]
            == 0 by {
            if j != target {
                assert(revealed[j] is Some);
            }
        }
    }
    assert forall|x: Seq<Seq<u8>>| shaped(x, k, s) && #[trigger] agrees(revealed2, x) implies consistent(
        told2,
        x,
        s,
    ) && (forall|i: int|
        0 <= i < first.len() && !used2[i] ==> (satisfied(first[i], x, s) <==> satisfied(
            #[trigger] syms2[i],
            x,
            s,
        ))) by {
        assert(agrees(revealed, x)) by {
            assert forall|j: int| 0 <= j < revealed.len() && revealed[j] is Some implies ((
            #[trigger] revealed[j])->0)@ == x[j] by {
                assert(revealed2[j] == revealed[j]);
            }
        }
        assert(revealed2[target] is Some);
        assert(value@ == x[target]);
        assert(satisfied(syms[si], x, s)) by {
            assert forall|t: int| 0 <= t < s implies #[trigger] syms[si].payload@[t] == dot(
                c,
                column(x, t),
            ) by {
                let col = column(x, t);
                let a = c[target];
                let b = syms[si].payload@[t];
                lemma_dot_single(c, col, target);
                assert(col[target] == value@[t]);
                gf256::inverse_law(a);
                product_associates(a, gf256::inverse(a), b);
                product_units(b);
            }
        }
        assert(satisfied(first[si], x, s) <==> satisfied(syms[si], x, s));
        assert forall|q: int| 0 <= q < told2.len() implies satisfied(#[trigger] told2[q], x, s) by {
            if q < by.len() {
                assert(told2[q] == told[q]);
                assert(satisfied(told[q], x, s));
            } else {
                assert(told2[q] == first[si]);
            }
        }
        assert forall|i: int| 0 <= i < first.len() && !used2[i] implies (satisfied(first[i], x, s)
            <==> satisfied(#[trigger] syms2[i], x, s)) by {
            assert(substituted(syms[i], syms2[i], target, value@));
            assert(satisfied(first[i], x, s) <==> satisfied(syms[i], x, s));
            assert(syms[i].payload@.len() == s);
            assert(syms[i].coeffs@.len() == k);
            assert forall|t: int| 0 <= t < s implies (#[trigger] syms2[i].payload@[t] == dot(
                syms2[i].coeffs@,
                column(x, t),
            ) <==> syms[i].payload@[t] == dot(syms[i].coeffs@, column(x, t))) by {
                let col = column(x, t);
                lemma_dot_clear(syms[i].coeffs@, col, target);
                assert(col[target] == value@[t]);
                let d = product(syms[i].coeffs@[target], value@[t]);
                let a = syms[i].payload@[t];
                let b = dot(syms[i].coeffs@, col);
                assert(syms2[i].payload@[t] == a ^ d);
                sum_laws(a, d, d);
                sum_laws(b, d, d);
                sum_laws(d, 0, 0);
            }
            if satisfied(syms[i], x, s) {
                assert forall|t: int| 0 <= t < s implies #[trigger] syms2[i].payload@[t] == dot(
                    syms2[i].coeffs@,
                    column(x, t),
                ) by {
                    assert(syms[i].payload@[t] == dot(syms[i].coeffs@, column(x, t)));
                }
            }
            if satisfied(syms2[i], x, s) {
                assert forall|t: int| 0 <= t < s implies #[trigger] syms[i].payload@[t] == dot(
                    syms[i].coeffs@,
                    column(x, t),
                ) by {
                    assert(syms2[i].payload@[t] == dot(syms2[i].coeffs@, column(x, t)));
                }
            }
        }
    }
}

/// What peeling reveals and what solves the rest is backed by as many symbols as
/// there are sources.
proof fn lemma_vouched_end(
    first: Seq<CodedSymbol>,
    syms: Seq<CodedSymbol>,
    revealed: Seq<Option<Vec<u8>>>,
    used: Seq<bool>,
    order: Seq<int>,
    by: Seq<int>,
    k: int,
    s: int,
    u: Seq<usize>,
    picked: Seq<int>,
    rows: Seq<Seq<u8>>,
    x: Seq<Seq<u8>>,
)
    requires
        vouched(first, syms, revealed, used, by, k, s),
        followed(first, syms, revealed, used, order, k),
        first.len() == syms.len(),
        revealed.len() == k <= usize::MAX,
        0 <= s,
        loosely_shaped(syms, k, s),
        well_shaped(first, k, s),
        forall|i: int| 0 <= i < syms.len() && !used[i] ==> (#[trigger] syms[i]).payload@.len() == s,
        forall|i: int| 0 <= i < syms.len() && #[trigger] used[i] ==> syms[i].payload@.len() == 0,
        ascending(u, k),
        forall|j: int| 0 <= j < k ==> (u.contains(j as usize) <==> (#[trigger] revealed[j]) is None),
        rows.len() == picked.len(),
        forall|q: int|
            0 <= q < picked.len() ==> 0 <= #[trigger] picked[q] < syms.len() && syms[picked[q]].payload@.len()
                > 0 && rows[q] == residual_row(syms[picked[q]], u),
        forall|i: int, j: int| 0 <= i < j < picked.len() ==> picked[i] < picked[j],
        shaped(x, k, s),
        agrees(revealed, x),
        backed(rows, u.len() as int, s, gather(x, u)),
    ensures
        backed(sym_rows(first), k, s, x),
{
    let r = u.len() as int;
    let at = choose|at: Seq<int>| #[trigger] settled(rows, at, r, s, gather(x, u));
    let rest = Seq::new(at.len(), |i: int| picked[at[i]]);
    let all = by + rest;
    let some = rows_at(rows, at);
    let told = syms_at(first, by);
    let given = rows_at(sym_rows(first), all);
    lemma_hidden_listed(revealed, u);
    assert forall|q: int| 0 <= q < rest.len() implies 0 <= #[trigger] rest[q] < first.len()
        && !used[rest[q]] && some[q] == residual_row(syms[rest[q]], u) by {
        assert(0 <= at[q] < rows.len());
        assert(0 <= picked[at[q]] < syms.len());
        if used[rest[q]] {
            assert(syms[rest[q]].payload@.len() == 0);
        }
    }
    assert forall|i: int| 0 <= i < all.len() implies 0 <= #[trigger] all[i] < first.len()
        && given[i] == first[all[i]].coeffs@ + first[all[i]].payload@ && given[i].take(k)
        == first[all[i]].coeffs@ by {
        if i < by.len() {
            assert(0 <= by[i] < first.len());
        } else {
            assert(0 <= rest[i - by.len()] < first.len());
        }
        assert(first[all[i]].coeffs@.len() == k);
        assert(given[i].take(k) =~= first[all[i]].coeffs@);
    }
    assert forall|i: int, j: int| 0 <= i < j < all.len() implies all[i] != all[j] by {
        if j < by.len() {
            assert(by[i] != by[j]);
        } else if i < by.len() {
            assert(used[by[i]]);
            assert(!used[rest[j - by.len()]]);
        } else {
            let a = at[i - by.len()];
            let b = at[j - by.len()];
            assert(a != b);
            assert(0 <= a < rows.len() && 0 <= b < rows.len());
            if a < b {
                assert(picked[a] < picked[b]);
            } else {
                assert(picked[b] < picked[a]);
            }
            assert(rest[i - by.len()] != rest[j - by.len()]);
        }
    }
    assert forall|i: int, v: Seq<u8>| 0 <= i < syms.len() && !used[i] && v.len() == k implies #[trigger] dot(
        syms[i].coeffs@,
        v,
    ) == dot(gather(syms[i].coeffs@, u), gather(v, u)) by {
        let c = syms[i].coeffs@;
        assert(c.len() == k);
        assert forall|j: int| 0 <= j < c.len() && c[j] != 0 implies u.contains(j as usize) by {
            if revealed[j] is Some {
                assert(syms[i].coeffs@[j] == 0);
            }
        }
        lemma_gather(c, v, u);
    }
    assert(full_rank(given, k)) by {
        assert forall|v: Seq<u8>| v.len() == k && #[trigger] kernel(given, k, v) implies is_zero(v) by {
            assert forall|q: int| 0 <= q < told.len() implies dot((#[trigger] told[q]).coeffs@, v) == 0 by {
                assert(all[q] == by[q]);
                assert(dot(given[q].take(k), v) == 0);
            }
            assert(orthogonal(told, v));
            assert(vanishes(revealed, v));
            let w = gather(v, u);
            assert forall|q: int| 0 <= q < some.len() implies dot((#[trigger] some[q]).take(r), w) == 0 by {
                let i = rest[q];
                assert(0 <= rest[q] < first.len());
                assert(all[by.len() + q] == i);
                assert(dot(given[by.len() + q].take(k), v) == 0);
                let c = syms[i].coeffs@;
                let f = first[i].coeffs@;
                assert(c.len() == k);
                assert(f.len() == k);
                assert forall|j: int| 0 <= j < c.len() implies c[j] == f[j] || v[j] == 0 by {
                    assert(syms[i].coeffs@[j] == (if revealed[j] is Some {
                        0u8
                    } else {
                        first[i].coeffs@[j]
                    }));
                }
                lemma_dot_where(c, f, v);
                assert(some[q].take(r) =~= gather(c, u));
                assert(dot(syms[i].coeffs@, v) == 0);
            }
            assert(kernel(some, r, w));
            assert(is_zero(w));
            assert forall|j: int| 0 <= j < v.len() implies v[j] == 0 by {
                if revealed[j] is None {
                    assert(u.contains(j as usize));
                    let q = choose|q: int| 0 <= q < u.len() && u[q] == j as usize;
                    assert(w[q] == 0);
                }
            }
        }
    }
    assert(solves(given, k, s, x)) by {
        assert(consistent(told, x, s));
        assert forall|i: int, t: int| 0 <= i < given.len() && 0 <= t < s implies dot(
            (#[trigger] given[i]).take(k),
            #[trigger] column(x, t),
        ) == given[i][k + t] by {
            let f = first[all[i]];
            assert(0 <= all[i] < first.len());
            assert(f.payload@.len() == s);
            assert(given[i][k + t] == f.payload@[t]);
            if i < by.len() {
                assert(told[i] == f);
                assert(satisfied(told[i], x, s));
                assert(f.payload@[t] == dot(f.coeffs@, column(x, t)));
            } else {
                let q = i - by.len();
                let sym = syms[all[i]];
                assert(all[i] == rest[q]);
                assert(!used[rest[q]]);
                assert(sym.payload@.len() == s);
                assert(satisfied(sym, x, s)) by {
                    assert forall|w: int| 0 <= w < s implies #[trigger] sym.payload@[w] == dot(
                        sym.coeffs@,
                        column(x, w),
                    ) by {
                        assert(some[q][r + w] == sym.payload@[w]);
                        assert(dot(some[q].take(r), column(gather(x, u), w)) == some[q][r + w]);
                        assert(some[q].take(r) =~= gather(sym.coeffs@, u));
                        assert(column(gather(x, u), w) =~= gather(column(x, w), u)) by {
                            assert forall|j: int| 0 <= j < r implies column(gather(x, u), w)[j]
                                == gather(column(x, w), u)[j] by {
                                assert(0 <= u[j] < k);
                            }
                        }
                        assert(dot(syms[all[i]].coeffs@, column(x, w)) == dot(
                            gather(sym.coeffs@, u),
                            gather(column(x, w), u),
                        ));
                    }
                }
                assert(satisfied(first[all[i]], x, s) <==> satisfied(syms[all[i]], x, s));
                assert(f.payload@[t] == dot(f.coeffs@, column(x, t)));
            }
        }
    }
    assert(settled(sym_rows(first), all, k, s, x));
}

/// Where no symbol has just one source left, peeling is at its end.
proof fn lemma_stuck(
    first: Seq<CodedSymbol>,
    syms: Seq<CodedSymbol>,
    revealed: Seq<Option<Vec<u8>>>,
    used: Seq<bool>,
    order: Seq<int>,
    k: int,
)
    requires
        followed(first, syms, revealed, used, order, k),
        first.len() == syms.len(),
        revealed.len() == k,
        forall|i: int|
            0 <= i < syms.len() && !used[i] ==> weight((#[trigger] syms[i]).coeffs@) != 1
                && syms[i].coeffs@.len() == k,
    ensures
        forall|j: int| !#[trigger] comes_out(coeff_rows(first), order, j),
{
    let rows = coeff_rows(first);
    assert forall|j: int| !#[trigger] comes_out(rows, order, j) by {
        if comes_out(rows, order, j) {
            let i = choose|i: int| 0 <= i < rows.len() && opens(#[trigger] rows[i], order, j);
            assert(first[i].coeffs@.len() == k);
            assert(rows[i] == first[i].coeffs@);
            assert(revealed[j] is None);
            assert(first[i].coeffs@[j] != 0);
            assert(!used[i]);
            let c = syms[i].coeffs@;
            assert(c.len() == k);
            assert(syms[i].coeffs@[j] != 0);
            assert forall|q: int| 0 <= q < k && q != j implies c[q] == 0 by {
                assert(syms[i].coeffs@[q] == (if revealed[q] is Some {
                    0u8
                } else {
                    first[i].coeffs@[q]
                }));
                if rows[i][q] != 0 {
                    assert(order.contains(q));
                    assert(revealed[q] is Some);
                }
            }
            lemma_weight_clear(c, j);
            assert(is_zero(c.update(j, 0)));
            lemma_weight_zero(c.update(j, 0));
        }
    }
}

/// The number of sources that are not revealed.
spec fn hidden(revealed: Seq<Option<Vec<u8>>>) -> nat
    decreases revealed.len(),
{
    if revealed.len() == 0 {
        0
    } else {
        hidden(revealed.drop_last()) + (if revealed.last() is None {
            1nat
        } else {
            0nat
        })
    }
}

proof fn lemma_hidden_reveal(revealed: Seq<Option<Vec<u8>>>, t: int, v: Vec<u8>)
    requires
        0 <= t < revealed.len(),
        revealed[t] is None,
    ensures
        hidden(revealed.update(t, Some(v))) + 1 == hidden(revealed),
    decreases revealed.len(),
{
    let w = revealed.update(t, Some(v));
    if t == revealed.len() - 1 {
        assert(w.drop_last() =~= revealed.drop_last());
    } else {
        assert(w.drop_last() =~= revealed.drop_last().update(t, Some(v)));
        lemma_hidden_reveal(revealed.drop_last(), t, v);
    }
}

/// What becomes of a symbol when source `target` is known to be `x`.
spec fn substituted(before: CodedSymbol, after: CodedSymbol, target: int, x: Seq<u8>) -> bool {
    &&& after.coeffs@ == before.coeffs@.update(target, 0)
    &&& after.payload@ == gf256::axpy_at(before.coeffs@[target], x, before.payload@, 0)
}

/// Take the known value `x` of source `target` out of a symbol.
fn substitute(sym: &mut CodedSymbol, target: usize, x: &Vec<u8>)
    requires
        target < old(sym).coeffs@.len(),
    ensures
        substituted(*old(sym), *final(sym), target as int, x@),
{
    let c: u8 = sym.coeffs[target];
    gf256::axpy(sym.payload.as_mut_slice(), c, x.as_slice());
    sym.coeffs[target] = 0;
}

/// Every symbol with one source left is in the queue.
spec fn queued(degree: Seq<usize>, queue: Seq<usize>) -> bool {
    forall|i: int| 0 <= i < degree.len() && #[trigger] degree[i] == 1 ==> queue.contains(i as usize)
}

/// A symbol whose degree changes is queued where that leaves it with one source.
proof fn lemma_queued(degree: Seq<usize>, queue: Seq<usize>, si: usize, d: usize)
    requires
        queued(degree, queue),
        si < degree.len() <= usize::MAX,
    ensures
        queued(
            degree.update(si as int, d),
            if d == 1 {
                queue.push(si)
            } else {
                queue
            },
        ),
{
    let after = degree.update(si as int, d);
    let more = if d == 1 {
        queue.push(si)
    } else {
        queue
    };
    assert forall|i: int| 0 <= i < after.len() && #[trigger] after[i] == 1 implies more.contains(
        i as usize,
    ) by {
        if i == si {
            assert(more[queue.len() as int] == si);
        } else {
            assert(degree[i] == 1);
            let q = choose|q: int| 0 <= q < queue.len() && queue[q] == i as usize;
            assert(more[q] == i as usize);
        }
    }
}

/// Take source `target`, revealed as `x` by symbol `si`, out of every other
/// symbol, and queue the symbols that are left with one source.
fn ripple(
    syms: &mut Vec<CodedSymbol>,
    degree: &mut Vec<usize>,
    queue: &mut VecDeque<usize>,
    si: usize,
    target: usize,
    x: &Vec<u8>,
    Ghost(used): Ghost<Seq<bool>>,
    Ghost(k): Ghost<int>,
)
    requires
        si < old(syms)@.len(),
        target < k,
        old(degree)@.len() == old(syms)@.len(),
        used.len() == old(syms)@.len(),
        used[si as int],
        forall|i: int| 0 <= i < old(syms)@.len() ==> (#[trigger] old(syms)@[i]).coeffs@.len() == k,
        forall|i: int|
            0 <= i < old(syms)@.len() ==> #[trigger] old(degree)@[i] == (if used[i] {
                0
            } else {
                weight(old(syms)@[i].coeffs@)
            }),
        forall|q: int| 0 <= q < old(queue)@.len() ==> (#[trigger] old(queue)@[q]) < old(syms)@.len(),
        queued(old(degree)@, old(queue)@),
    ensures
        final(syms)@.len() == old(syms)@.len(),
        final(degree)@.len() == old(syms)@.len(),
        forall|i: int|
            0 <= i < old(syms)@.len() ==> (if used[i] {
                final(syms)@[i] == old(syms)@[i]
            } else {
                substituted(old(syms)@[i], #[trigger] final(syms)@[i], target as int, x@)
            }),
        forall|i: int|
            0 <= i < old(syms)@.len() ==> #[trigger] final(degree)@[i] == (if used[i] {
                0
            } else {
                weight(final(syms)@[i].coeffs@)
            }),
        forall|q: int| 0 <= q < final(queue)@.len() ==> (#[trigger] final(queue)@[q]) < old(syms)@.len(),
        queued(final(degree)@, final(queue)@),
{
    let ghost before = syms@;
    let n: usize = syms.len();
    let mut sj: usize = 0;
    while sj < n
        invariant
            sj <= n,
            n == before.len(),
            syms@.len() == n,
            degree@.len() == n,
            used.len() == n,
            target < k,
            forall|i: int| 0 <= i < n ==> (#[trigger] before[i]).coeffs@.len() == k,
            forall|i: int|
                0 <= i < n ==> (if used[i] || i >= sj {
                    #[trigger] syms@[i] == before[i]
                } else {
                    substituted(before[i], syms@[i], target as int, x@)
                }),
            forall|i: int|
                0 <= i < n ==> #[trigger] degree@[i] == (if used[i] {
                    0
                } else {
                    weight(syms@[i].coeffs@)
                }),
            forall|q: int| 0 <= q < queue@.len() ==> (#[trigger] queue@[q]) < n,
            queued(degree@, queue@),
        decreases n - sj,
    {
        assert(syms@[sj as int] == before[sj as int]);
        let live: bool = degree[sj] != 0 && syms[sj].coeffs[target] != 0;
        proof {
            let c = before[sj as int].coeffs@;
            lemma_weight_zero(c);
            if c[target as int] == 0 {
                assert(c =~= c.update(target as int, 0));
                assert(gf256::axpy_at(0, x@, before[sj as int].payload@, 0)
                    =~= before[sj as int].payload@) by {
                    lemma_axpy_zero(x@, before[sj as int].payload@);
                }
            } else {
                lemma_weight_clear(c, target as int);
            }
        }
        if live {
            substitute(&mut syms[sj], target, x);
            let ghost degree0 = degree@;
            let ghost queue0 = queue@;
            let d: usize = degree[sj] - 1;
            degree[sj] = d;
            if d == 1 {
                queue.push_back(sj);
            }
            proof {
                lemma_queued(degree0, queue0, sj, d);
                assert(queue@ == if d == 1 {
                    queue0.push(sj)
                } else {
                    queue0
                });
            }
        }
        sj += 1;
    }
}

/// Adding zero times a vector changes nothing.
proof fn lemma_axpy_zero(x: Seq<u8>, dst: Seq<u8>)
    ensures
        gf256::axpy_at(0, x, dst, 0) == dst,
{
    assert forall|i: int| 0 <= i < dst.len() implies gf256::axpy_at(0, x, dst, 0)[i] == dst[i] by {
        if i < x.len() {
            product_units(x[i]);
            sum_laws(dst[i], 0, 0);
        }
    }
    assert(gf256::axpy_at(0, x, dst, 0) =~= dst);
}

/// Revealing one source keeps what peeling has established.
proof fn lemma_reveal(
    first: Seq<CodedSymbol>,
    syms: Seq<CodedSymbol>,
    revealed: Seq<Option<Vec<u8>>>,
    degree: Seq<usize>,
    used: Seq<bool>,
    k: int,
    s: int,
    si: int,
    target: int,
    value: Vec<u8>,
    syms2: Seq<CodedSymbol>,
    degree2: Seq<usize>,
)
    requires
        peeled(first, syms, revealed, degree, used, k, s),
        0 <= si < syms.len(),
        0 <= target < k,
        !used[si],
        revealed[target] is None,
        syms[si].coeffs@[target] != 0,
        weight(syms[si].coeffs@) == 1,
        value@ == gf256::scal_at(
            gf256::inverse(syms[si].coeffs@[target]),
            syms[si].payload@,
            0,
            syms[si].payload@.len() as int,
        ),
        syms2.len() == syms.len(),
        degree2.len() == syms.len(),
        syms2[si].coeffs@ == syms[si].coeffs@,
        syms2[si].payload@.len() == 0,
        forall|i: int|
            0 <= i < syms.len() && i != si ==> (if used[i] {
                #[trigger] syms2[i] == syms[i]
            } else {
                substituted(syms[i], syms2[i], target, value@)
            }),
        forall|i: int|
            0 <= i < syms.len() ==> #[trigger] degree2[i] == (if used[i] || i == si {
                0
            } else {
                weight(syms2[i].coeffs@)
            }),
    ensures
        peeled(
            first,
            syms2,
            revealed.update(target, Some(value)),
            degree2,
            used.update(si, true),
            k,
            s,
        ),
{
    let revealed2 = revealed.update(target, Some(value));
    let used2 = used.update(si, true);
    let c = syms[si].coeffs@;
    lemma_weight_one(c, target);
    assert forall|i: int| 0 <= i < syms2.len() implies (#[trigger] syms2[i]).coeffs@.len() == k && (
    syms2[i].payload@.len() == s || syms2[i].payload@.len() == 0) by {
        assert(syms[i].coeffs@.len() == k);
        if i != si && !used[i] {
            assert(substituted(syms[i], syms2[i], target, value@));
        }
    }
    assert forall|i: int, j: int|
        0 <= i < syms2.len() && !used2[i] && 0 <= j < k && revealed2[j] is Some implies #[trigger] syms2[i].coeffs@[j]
        == 0 by {
        assert(substituted(syms[i], syms2[i], target, value@));
        assert(syms[i].coeffs@.len() == k);
        if j != target {
            assert(syms[i].coeffs@[j] == 0);
        }
    }
    assert(syms[si].payload@.len() == s || syms[si].payload@.len() == 0);
    assert forall|i: int| 0 <= i < syms2.len() && !used2[i] implies (#[trigger] syms2[i]).payload@.len()
        == s by {
        assert(substituted(syms[i], syms2[i], target, value@));
        assert(syms[i].payload@.len() == s);
    }
    assert(syms[si].payload@.len() == s);
    assert forall|x: Seq<Seq<u8>>| shaped(x, k, s) && #[trigger] consistent(first, x, s) implies fits(
        syms2,
        revealed2,
        used2,
        x,
        s,
    ) by {
        assert(fits(syms, revealed, used, x, s));
        assert(satisfied(syms[si], x, s));
        assert(value@ =~= x[target]) by {
            assert(x[target].len() == s);
            assert forall|t: int| 0 <= t < s implies value@[t] == x[target][t] by {
                let col = column(x, t);
                assert(syms[si].payload@[t] == dot(c, col));
                lemma_dot_single(c, col, target);
                let a = c[target];
                gf256::inverse_law(a);
                product_associates(gf256::inverse(a), a, col[target]);
                product_commutes(a, gf256::inverse(a));
                product_units(col[target]);
            }
        }
        assert forall|i: int| 0 <= i < syms2.len() && !used2[i] implies satisfied(
            #[trigger] syms2[i],
            x,
            s,
        ) by {
            assert(substituted(syms[i], syms2[i], target, value@));
            assert(satisfied(syms[i], x, s));
            assert(syms[i].payload@.len() == s);
            assert forall|t: int| 0 <= t < s implies #[trigger] syms2[i].payload@[t] == dot(
                syms2[i].coeffs@,
                column(x, t),
            ) by {
                let col = column(x, t);
                assert(syms[i].payload@[t] == dot(syms[i].coeffs@, col));
                assert(syms[i].coeffs@.len() == k);
                lemma_dot_clear(syms[i].coeffs@, col, target);
            }
        }
    }
    assert forall|v: Seq<u8>| v.len() == k implies (#[trigger] orthogonal(first, v) <==> left_orthogonal(
        syms2,
        revealed2,
        used2,
        v,
    )) by {
        lemma_dot_single(c, v, target);
        gf256::product_zero(c[target], v[target]);
        assert(dot(c, v) == 0 <==> v[target] == 0);
        assert forall|i: int| 0 <= i < syms2.len() && !used2[i] && v[target] == 0 implies dot(
            (#[trigger] syms2[i]).coeffs@,
            v,
        ) == dot(syms[i].coeffs@, v) by {
            assert(substituted(syms[i], syms2[i], target, value@));
            assert(syms[i].coeffs@.len() == k);
            lemma_dot_clear(syms[i].coeffs@, v, target);
            product_units(syms[i].coeffs@[target]);
            sum_laws(dot(syms[i].coeffs@, v), 0, 0);
        }
        if left_orthogonal(syms, revealed, used, v) {
            assert(dot(syms[si].coeffs@, v) == 0);
            assert forall|i: int| 0 <= i < syms2.len() && !used2[i] implies dot(
                (#[trigger] syms2[i]).coeffs@,
                v,
            ) == 0 by {
                assert(dot(syms[i].coeffs@, v) == 0);
            }
            assert forall|j: int| 0 <= j < revealed2.len() && (#[trigger] revealed2[j]) is Some implies v[j]
                == 0 by {
                if j != target {
                    assert(revealed[j] is Some);
                }
            }
        }
        if left_orthogonal(syms2, revealed2, used2, v) {
            assert(revealed2[target] is Some);
            assert forall|i: int| 0 <= i < syms.len() && !used[i] implies dot(
                (#[trigger] syms[i]).coeffs@,
                v,
            ) == 0 by {
                if i != si {
                    assert(dot(syms2[i].coeffs@, v) == 0);
                }
            }
            assert forall|j: int| 0 <= j < revealed.len() && (#[trigger] revealed[j]) is Some implies v[j]
                == 0 by {
                assert(revealed2[j] is Some);
            }
        }
    }
}

/// The entries of `c` at the positions `u`.
pub open spec fn gather<T>(c: Seq<T>, u: Seq<usize>) -> Seq<T> {
    Seq::new(u.len(), |i: int| c[u[i] as int])
}

/// `u` lists positions below `n` in ascending order.
pub open spec fn ascending(u: Seq<usize>, n: int) -> bool {
    &&& forall|i: int| 0 <= i < u.len() ==> 0 <= #[trigger] u[i] < n
    &&& forall|i: int, j: int| 0 <= i < j < u.len() ==> u[i] < u[j]
}

/// An inner product depends only on the positions where the left factor is not zero.
proof fn lemma_gather(c: Seq<u8>, v: Seq<u8>, u: Seq<usize>)
    requires
        ascending(u, c.len() as int),
        forall|j: int| 0 <= j < c.len() && c[j] != 0 ==> u.contains(j as usize),
        c.len() <= usize::MAX,
    ensures
        dot(c, v) == dot(gather(c, u), gather(v, u)),
    decreases c.len(),
{
    if c.len() == 0 {
        if u.len() > 0 {
            assert(u[0] < 0);
        }
        assert(gather(c, u) =~= Seq::<u8>::empty());
    } else {
        let n = c.len() - 1;
        let d = c.drop_last();
        if u.len() > 0 && u.last() == n {
            let w = u.drop_last();
            assert forall|i: int| 0 <= i < w.len() implies 0 <= #[trigger] w[i] < n by {
                assert(u[i] < u[u.len() - 1]);
            }
            assert forall|j: int| 0 <= j < d.len() && d[j] != 0 implies w.contains(j as usize) by {
                assert(c[j] != 0);
                assert(u.contains(j as usize));
                let i = choose|i: int| 0 <= i < u.len() && u[i] == j as usize;
                assert(w[i] == j as usize);
            }
            lemma_gather(d, v, w);
            assert(gather(c, u).drop_last() =~= gather(d, w));
            lemma_dot_agree(gather(d, w), gather(v, w), gather(v, u));
        } else {
            assert forall|i: int| 0 <= i < u.len() implies 0 <= #[trigger] u[i] < n by {
                if i < u.len() - 1 {
                    assert(u[i] < u[u.len() - 1]);
                }
            }
            assert(c[n] == 0) by {
                if c[n] != 0 {
                    assert(u.contains(n as usize));
                    let i = choose|i: int| 0 <= i < u.len() && u[i] == n as usize;
                    assert(u[i] < n);
                }
            }
            assert forall|j: int| 0 <= j < d.len() && d[j] != 0 implies u.contains(j as usize) by {
                assert(c[j] != 0);
            }
            lemma_gather(d, v, u);
            assert(gather(c, u) =~= gather(d, u));
            product_units(v[n]);
            sum_laws(dot(d, v), 0, 0);
        }
    }
}

/// The positions not revealed yet, in ascending order.
fn hidden_sources(revealed: &Vec<Option<Vec<u8>>>) -> (u: Vec<usize>)
    ensures
        ascending(u@, revealed@.len() as int),
        forall|j: int|
            0 <= j < revealed@.len() ==> (u@.contains(j as usize) <==> revealed@[j] is None),
{
    let mut u: Vec<usize> = Vec::new();
    let mut j: usize = 0;
    while j < revealed.len()
        invariant
            j <= revealed@.len(),
            ascending(u@, j as int),
            forall|i: int| 0 <= i < j ==> (u@.contains(i as usize) <==> revealed@[i] is None),
        decreases revealed@.len() - j,
    {
        let ghost before = u@;
        if revealed[j].is_none() {
            u.push(j);
        }
        proof {
            assert forall|i: int| 0 <= i < j + 1 implies (u@.contains(i as usize) <==> revealed@[i] is None) by {
                if u@.contains(i as usize) {
                    let q = choose|q: int| 0 <= q < u@.len() && u@[q] == i as usize;
                    if i < j {
                        assert(before[q] == i as usize);
                        assert(before.contains(i as usize));
                    }
                }
                if revealed@[i] is None {
                    if i < j {
                        assert(before.contains(i as usize));
                        let q = choose|q: int| 0 <= q < before.len() && before[q] == i as usize;
                        assert(u@[q] == i as usize);
                    } else {
                        assert(u@[u@.len() - 1] == i as usize);
                    }
                }
            }
        }
        j += 1;
    }
    u
}

/// The augmented row of a symbol over the sources `u`.
spec fn residual_row(sym: CodedSymbol, u: Seq<usize>) -> Seq<u8> {
    gather(sym.coeffs@, u) + sym.payload@
}

/// The rows of the symbols that still say something about the sources `u`,
/// one after another, and how many there are.
fn residual_system(syms: &Vec<CodedSymbol>, u: &Vec<usize>, k: usize, s: usize) -> (r: (
    Vec<u8>,
    usize,
    Ghost<Seq<int>>,
))
    requires
        loosely_shaped(syms@, k as int, s as int),
        ascending(u@, k as int),
        u@.len() + s <= usize::MAX,
    ensures
        r.0@.len() == r.1 * (u@.len() + s),
        r.2@.len() == r.1,
        forall|q: int|
            0 <= q < r.1 ==> 0 <= #[trigger] r.2@[q] < syms@.len() && syms@[r.2@[q]].payload@.len() > 0
                && rows_of(r.0@, u@.len() + s, r.1 as int)[q] == residual_row(syms@[r.2@[q]], u@),
        forall|i: int, j: int| 0 <= i < j < r.1 ==> r.2@[i] < r.2@[j],
        forall|i: int|
            0 <= i < syms@.len() && (#[trigger] syms@[i]).payload@.len() > 0 && !is_zero(
                gather(syms@[i].coeffs@, u@),
            ) ==> r.2@.contains(i),
{
    let mut mat: Vec<u8> = Vec::new();
    let mut m: usize = 0;
    let ghost mut picked: Seq<int> = Seq::empty();
    let ghost l: int = u@.len() + s;
    let mut i: usize = 0;
    while i < syms.len()
        invariant
            i <= syms@.len(),
            loosely_shaped(syms@, k as int, s as int),
            ascending(u@, k as int),
            l == u@.len() + s,
            m <= i,
            mat@.len() == m * l,
            picked.len() == m,
            forall|q: int|
                0 <= q < m ==> 0 <= #[trigger] picked[q] < i && syms@[picked[q]].payload@.len() > 0
                    && rows_of(mat@, l, m as int)[q] == residual_row(syms@[picked[q]], u@),
            forall|a: int, b: int| 0 <= a < b < m ==> picked[a] < picked[b],
            forall|j: int|
                0 <= j < i && (#[trigger] syms@[j]).payload@.len() > 0 && !is_zero(
                    gather(syms@[j].coeffs@, u@),
                ) ==> picked.contains(j),
        decreases syms@.len() - i,
    {
        assert(syms@[i as int].coeffs@.len() == k);
        let ghost before_picked = picked;
        if syms[i].payload.len() > 0 {
            let mut row: Vec<u8> = Vec::new();
            let mut has: bool = false;
            let mut c: usize = 0;
            while c < u.len()
                invariant
                    c <= u@.len(),
                    i < syms@.len(),
                    syms@[i as int].coeffs@.len() == k,
                    ascending(u@, k as int),
                    row@.len() == c,
                    forall|q: int| 0 <= q < c ==> row@[q] == gather(syms@[i as int].coeffs@, u@)[q],
                    has <==> exists|q: int| 0 <= q < c && row@[q] != 0,
                decreases u@.len() - c,
            {
                let ghost before_row = row@;
                let b: u8 = syms[i].coeffs[u[c]];
                row.push(b);
                proof {
                    if has {
                        let q = choose|q: int| 0 <= q < c && before_row[q] != 0;
                        assert(row@[q] != 0);
                    }
                    if b != 0 {
                        assert(row@[c as int] != 0);
                    }
                }
                if b != 0 {
                    has = true;
                }
                c += 1;
            }
            assert(row@ =~= gather(syms@[i as int].coeffs@, u@));
            if has {
                let ghost row0 = row@;
                let ghost mat0 = mat@;
                row.extend_from_slice(syms[i].payload.as_slice());
                assert(row@ =~= residual_row(syms@[i as int], u@));
                mat.extend_from_slice(row.as_slice());
                proof {
                    assert(mat@ =~= mat0 + row@);
                    lemma_rows_push(mat0, l, m as int, row@);
                    picked = picked.push(i as int);
                    assert(picked[m as int] == i);
                }
                m += 1;
            } else {
                assert(is_zero(gather(syms@[i as int].coeffs@, u@))) by {
                    assert forall|q: int| 0 <= q < row@.len() implies row@[q] == 0 by {}
                }
            }
        }
        proof {
            assert forall|j: int|
                0 <= j < i + 1 && (#[trigger] syms@[j]).payload@.len() > 0 && !is_zero(
                    gather(syms@[j].coeffs@, u@),
                ) implies picked.contains(j) by {
                if j < i {
                    let q = choose|q: int| 0 <= q < before_picked.len() && before_picked[q] == j;
                    assert(picked[q] == j);
                }
            }
        }
        i += 1;
    }
    (mat, m, Ghost(picked))
}

/// The residual system determines its unknowns exactly if the symbols that
/// peeling started from determine the sources, and sources that explain those
/// symbols solve it.
proof fn lemma_residual(
    first: Seq<CodedSymbol>,
    syms: Seq<CodedSymbol>,
    revealed: Seq<Option<Vec<u8>>>,
    degree: Seq<usize>,
    used: Seq<bool>,
    k: int,
    s: int,
    u: Seq<usize>,
    picked: Seq<int>,
    rows: Seq<Seq<u8>>,
)
    requires
        peeled(first, syms, revealed, degree, used, k, s),
        well_shaped(first, k, s),
        0 < s,
        0 <= k <= usize::MAX,
        ascending(u, k),
        forall|j: int| 0 <= j < k ==> (u.contains(j as usize) <==> revealed[j] is None),
        rows.len() == picked.len(),
        forall|q: int|
            0 <= q < picked.len() ==> 0 <= #[trigger] picked[q] < syms.len() && syms[picked[q]].payload@.len()
                > 0 && rows[q] == residual_row(syms[picked[q]], u),
        forall|i: int|
            0 <= i < syms.len() && (#[trigger] syms[i]).payload@.len() > 0 && !is_zero(
                gather(syms[i].coeffs@, u),
            ) ==> picked.contains(i),
    ensures
        full_rank(rows, u.len() as int) <==> decodable(first, k),
        forall|x: Seq<Seq<u8>>|
            shaped(x, k, s) && #[trigger] consistent(first, x, s) ==> solves(
                rows,
                u.len() as int,
                s,
                gather(x, u),
            ),
{
    let r = u.len() as int;
    assert forall|i: int, v: Seq<u8>| 0 <= i < syms.len() && !used[i] && v.len() == k implies #[trigger] dot(
        syms[i].coeffs@,
        v,
    ) == dot(gather(syms[i].coeffs@, u), gather(v, u)) by {
        let c = syms[i].coeffs@;
        assert(c.len() == k);
        assert forall|j: int| 0 <= j < c.len() && c[j] != 0 implies u.contains(j as usize) by {
            if revealed[j] is Some {
                assert(syms[i].coeffs@[j] == 0);
            }
        }
        lemma_gather(c, v, u);
    }
    assert forall|q: int| 0 <= q < picked.len() implies !used[picked[q]] && (#[trigger] rows[q]).take(r)
        == gather(syms[picked[q]].coeffs@, u) by {
        assert(0 <= picked[q] < syms.len());
        if used[picked[q]] {
            assert(syms[picked[q]].payload@.len() == 0);
        }
        assert(rows[q].take(r) =~= gather(syms[picked[q]].coeffs@, u));
    }
    if full_rank(rows, r) {
        assert forall|v: Seq<u8>| v.len() == k && #[trigger] orthogonal(first, v) implies is_zero(v) by {
            assert(left_orthogonal(syms, revealed, used, v));
            let w = gather(v, u);
            assert forall|q: int| 0 <= q < rows.len() implies dot((#[trigger] rows[q]).take(r), w) == 0 by {
                let i = picked[q];
                assert(0 <= i < syms.len());
                assert(dot(syms[i].coeffs@, v) == 0);
            }
            assert(kernel(rows, r, w));
            assert forall|j: int| 0 <= j < v.len() implies v[j] == 0 by {
                if revealed[j] is None {
                    assert(u.contains(j as usize));
                    let q = choose|q: int| 0 <= q < u.len() && u[q] == j as usize;
                    assert(w[q] == 0);
                }
            }
        }
    }
    if decodable(first, k) {
        assert forall|w: Seq<u8>| w.len() == r && #[trigger] kernel(rows, r, w) implies is_zero(w) by {
            let v = Seq::new(
                k as nat,
                |j: int|
                    if u.contains(j as usize) {
                        w[choose|q: int| 0 <= q < u.len() && u[q] == j as usize]
                    } else {
                        0u8
                    },
            );
            assert(gather(v, u) =~= w) by {
                assert forall|i: int| 0 <= i < r implies gather(v, u)[i] == w[i] by {
                    let j = u[i] as int;
                    assert(0 <= u[i] < k);
                    assert(u.contains(j as usize));
                    let q = choose|q: int| 0 <= q < u.len() && u[q] == j as usize;
                    if q < i {
                        assert(u[q] < u[i]);
                    } else if i < q {
                        assert(u[i] < u[q]);
                    }
                }
            }
            assert forall|i: int| 0 <= i < syms.len() && !used[i] implies dot(
                (#[trigger] syms[i]).coeffs@,
                v,
            ) == 0 by {
                if is_zero(gather(syms[i].coeffs@, u)) {
                    lemma_dot_none(gather(syms[i].coeffs@, u), w);
                } else {
                    assert(syms[i].payload@.len() == s);
                    assert(picked.contains(i));
                    let q = choose|q: int| 0 <= q < picked.len() && picked[q] == i;
                    assert(dot(rows[q].take(r), w) == 0);
                }
            }
            assert(left_orthogonal(syms, revealed, used, v)) by {
                assert forall|j: int| 0 <= j < revealed.len() && (#[trigger] revealed[j]) is Some implies v[j]
                    == 0 by {}
            }
            assert(orthogonal(first, v));
            assert(is_zero(v));
            assert forall|i: int| 0 <= i < w.len() implies w[i] == 0 by {
                assert(0 <= u[i] < k);
                assert(v[u[i] as int] == 0);
                assert(gather(v, u)[i] == w[i]);
            }
        }
    }
    assert forall|x: Seq<Seq<u8>>| shaped(x, k, s) && #[trigger] consistent(first, x, s) implies solves(
        rows,
        r,
        s,
        gather(x, u),
    ) by {
        assert(fits(syms, revealed, used, x, s));
        assert forall|q: int, t: int| 0 <= q < rows.len() && 0 <= t < s implies dot(
            (#[trigger] rows[q]).take(r),
            #[trigger] column(gather(x, u), t),
        ) == rows[q][r + t] by {
            let i = picked[q];
            assert(0 <= i < syms.len());
            assert(satisfied(syms[i], x, s));
            assert(syms[i].payload@.len() == s);
            assert(rows[q][r + t] == syms[i].payload@[t]);
            assert(syms[i].payload@[t] == dot(syms[i].coeffs@, column(x, t)));
            assert(column(gather(x, u), t) =~= gather(column(x, t), u)) by {
                assert forall|j: int| 0 <= j < r implies column(gather(x, u), t)[j] == gather(
                    column(x, t),
                    u,
                )[j] by {
                    assert(0 <= u[j] < k);
                }
            }
        }
    }
}

/// What is left of the coefficients has the same vectors orthogonal to it as
/// the residual system.
proof fn lemma_left_over(
    first: Seq<CodedSymbol>,
    syms: Seq<CodedSymbol>,
    revealed: Seq<Option<Vec<u8>>>,
    used: Seq<bool>,
    order: Seq<int>,
    k: int,
    u: Seq<usize>,
    picked: Seq<int>,
    rows: Seq<Seq<u8>>,
    s: int,
)
    requires
        followed(first, syms, revealed, used, order, k),
        first.len() == syms.len(),
        revealed.len() == k <= usize::MAX,
        0 < s,
        loosely_shaped(syms, k, s),
        ascending(u, k),
        forall|j: int| 0 <= j < k ==> (u.contains(j as usize) <==> revealed[j] is None),
        forall|i: int| 0 <= i < syms.len() && #[trigger] used[i] ==> syms[i].payload@.len() == 0,
        forall|i: int| 0 <= i < syms.len() && !used[i] ==> (#[trigger] syms[i]).payload@.len() == s,
        rows.len() == picked.len(),
        forall|q: int|
            0 <= q < picked.len() ==> 0 <= #[trigger] picked[q] < syms.len() && syms[picked[q]].payload@.len()
                > 0 && rows[q] == residual_row(syms[picked[q]], u),
        forall|i: int|
            0 <= i < syms.len() && (#[trigger] syms[i]).payload@.len() > 0 && !is_zero(
                gather(syms[i].coeffs@, u),
            ) ==> picked.contains(i),
    ensures
        same_kernel(restricted(coeff_rows(first), u), rows, u.len() as int),
{
    let r = u.len() as int;
    let cut = restricted(coeff_rows(first), u);
    assert forall|i: int| 0 <= i < first.len() implies (if used[i] {
        is_zero(#[trigger] cut[i])
    } else {
        cut[i] == gather(syms[i].coeffs@, u)
    }) && cut[i].take(r) == cut[i] && cut[i].len() == r by {
        let g = gather(first[i].coeffs@, u);
        assert(cut[i] == g);
        assert(g.take(r) =~= g);
        assert(first[i].coeffs@.len() == k);
        assert(syms[i].coeffs@.len() == k);
        assert forall|q: int| 0 <= q < r implies (if used[i] {
            g[q] == 0
        } else {
            g[q] == gather(syms[i].coeffs@, u)[q]
        }) by {
            let j = u[q] as int;
            assert(0 <= u[q] < k);
            assert(u.contains(j as usize));
            assert(revealed[j] is None);
            if used[i] {
                if first[i].coeffs@[j] != 0 {
                    assert(revealed[j] is Some);
                }
            } else {
                assert(syms[i].coeffs@[j] == first[i].coeffs@[j]);
            }
        }
        if !used[i] {
            assert(g =~= gather(syms[i].coeffs@, u));
        }
    }
    assert forall|q: int| 0 <= q < rows.len() implies (#[trigger] rows[q]).take(r)
        == cut[picked[q]].take(r) && 0 <= picked[q] < first.len() by {
        let i = picked[q];
        assert(0 <= i < syms.len());
        if used[i] {
            assert(syms[i].payload@.len() == 0);
        }
        assert(cut[i] == gather(syms[i].coeffs@, u));
        assert(rows[q].take(r) =~= gather(syms[i].coeffs@, u));
    }
    assert forall|v: Seq<u8>| v.len() == r implies (#[trigger] kernel(cut, r, v) <==> kernel(
        rows,
        r,
        v,
    )) by {
        if kernel(cut, r, v) {
            assert forall|q: int| 0 <= q < rows.len() implies dot((#[trigger] rows[q]).take(r), v) == 0 by {
                assert(dot(cut[picked[q]].take(r), v) == 0);
            }
        }
        if kernel(rows, r, v) {
            assert forall|i: int| 0 <= i < cut.len() implies dot((#[trigger] cut[i]).take(r), v) == 0 by {
                if is_zero(cut[i]) {
                    lemma_dot_none(cut[i], v);
                } else {
                    assert(!used[i]);
                    assert(syms[i].payload@.len() == s);
                    assert(picked.contains(i));
                    let q = choose|q: int| 0 <= q < picked.len() && picked[q] == i;
                    assert(dot(rows[q].take(r), v) == 0);
                }
            }
        }
    }
}

/// The values out of their options, an empty vector where there is none.
fn take_all(revealed: &mut Vec<Option<Vec<u8>>>) -> (out: Vec<Vec<u8>>)
    ensures
        out@.len() == old(revealed)@.len(),
        forall|j: int|
            0 <= j < out@.len() && old(revealed)@[j] is Some ==> #[trigger] out@[j] == old(
                revealed,
            )@[j]->0,
{
    let mut out: Vec<Vec<u8>> = Vec::new();
    let ghost before = revealed@;
    let n: usize = revealed.len();
    let mut j: usize = 0;
    while j < n
        invariant
            j <= n,
            n == before.len(),
            revealed@.len() == n,
            out@.len() == j,
            forall|i: int| j <= i < n ==> revealed@[i] == before[i],
            forall|i: int| 0 <= i < j && before[i] is Some ==> #[trigger] out@[i] == before[i]->0,
        decreases n - j,
    {
        let o: Option<Vec<u8>> = revealed[j].take();
        match o {
            Some(v) => {
                out.push(v);
            },
            None => {
                out.push(Vec::new());
            },
        }
        j += 1;
    }
    out
}

/// The symbols again.
fn copied(syms: &Vec<CodedSymbol>) -> (out: Vec<CodedSymbol>)
    ensures
        out@.len() == syms@.len(),
        forall|i: int|
            0 <= i < syms@.len() ==> (#[trigger] out@[i]).coeffs@ == syms@[i].coeffs@
                && out@[i].payload@ == syms@[i].payload@,
{
    let mut out: Vec<CodedSymbol> = Vec::new();
    let mut i: usize = 0;
    while i < syms.len()
        invariant
            i <= syms@.len(),
            out@.len() == i,
            forall|q: int|
                0 <= q < i ==> (#[trigger] out@[q]).coeffs@ == syms@[q].coeffs@ && out@[q].payload@
                    == syms@[q].payload@,
        decreases syms@.len() - i,
    {
        let coeffs: Vec<u8> = copy_range(syms[i].coeffs.as_slice(), 0, syms[i].coeffs.len());
        let payload: Vec<u8> = copy_range(syms[i].payload.as_slice(), 0, syms[i].payload.len());
        assert(coeffs@ =~= syms@[i as int].coeffs@);
        assert(payload@ =~= syms@[i as int].payload@);
        out.push(CodedSymbol { coeffs, payload });
        i += 1;
    }
    out
}

/// Symbols with the same contents say the same.
proof fn lemma_same_contents(a: Seq<CodedSymbol>, b: Seq<CodedSymbol>)
    requires
        a.len() == b.len(),
        forall|i: int|
            0 <= i < a.len() ==> (#[trigger] b[i]).coeffs@ == a[i].coeffs@ && b[i].payload@
                == a[i].payload@,
    ensures
        coeff_rows(a) == coeff_rows(b),
        sym_rows(a) == sym_rows(b),
        forall|k: int| #[trigger] decodable(a, k) <==> decodable(b, k),
        forall|x: Seq<Seq<u8>>, s: int| #[trigger] consistent(a, x, s) <==> consistent(b, x, s),
{
    assert(coeff_rows(a) =~= coeff_rows(b)) by {
        assert forall|i: int| 0 <= i < a.len() implies coeff_rows(a)[i] == coeff_rows(b)[i] by {
            assert(b[i].coeffs@ == a[i].coeffs@);
        }
    }
    assert(sym_rows(a) =~= sym_rows(b)) by {
        assert forall|i: int| 0 <= i < a.len() implies sym_rows(a)[i] == sym_rows(b)[i] by {
            assert(b[i].coeffs@ == a[i].coeffs@);
        }
    }
    assert forall|v: Seq<u8>| #[trigger] orthogonal(a, v) <==> orthogonal(b, v) by {
        if orthogonal(a, v) {
            assert forall|i: int| 0 <= i < b.len() implies dot((#[trigger] b[i]).coeffs@, v) == 0 by {
                assert(dot(a[i].coeffs@, v) == 0);
            }
        }
        if orthogonal(b, v) {
            assert forall|i: int| 0 <= i < a.len() implies dot((#[trigger] a[i]).coeffs@, v) == 0 by {
                assert(dot(b[i].coeffs@, v) == 0);
            }
        }
    }
    assert forall|k: int| #[trigger] decodable(a, k) <==> decodable(b, k) by {
        if decodable(a, k) {
            assert forall|v: Seq<u8>| v.len() == k && #[trigger] orthogonal(b, v) implies is_zero(v) by {
                assert(orthogonal(a, v) <==> orthogonal(b, v));
            }
        }
        if decodable(b, k) {
            assert forall|v: Seq<u8>| v.len() == k && #[trigger] orthogonal(a, v) implies is_zero(v) by {}
        }
    }
    assert forall|x: Seq<Seq<u8>>, s: int| #[trigger] consistent(a, x, s) <==> consistent(b, x, s) by {
        assert forall|i: int| 0 <= i < a.len() implies (satisfied(#[trigger] a[i], x, s) <==> satisfied(
            b[i],
            x,
            s,
        )) by {
            assert(b[i].payload@ == a[i].payload@);
            assert(b[i].coeffs@ == a[i].coeffs@);
            if satisfied(a[i], x, s) {
                assert forall|t: int| 0 <= t < s implies #[trigger] b[i].payload@[t] == dot(
                    b[i].coeffs@,
                    column(x, t),
                ) by {
                    assert(a[i].payload@[t] == dot(a[i].coeffs@, column(x, t)));
                }
            }
            if satisfied(b[i], x, s) {
                assert forall|t: int| 0 <= t < s implies #[trigger] a[i].payload@[t] == dot(
                    a[i].coeffs@,
                    column(x, t),
                ) by {
                    assert(b[i].payload@[t] == dot(b[i].coeffs@, column(x, t)));
                }
            }
        }
        if consistent(a, x, s) {
            assert forall|i: int| 0 <= i < b.len() implies satisfied(#[trigger] b[i], x, s) by {
                assert(satisfied(a[i], x, s));
            }
        }
        if consistent(b, x, s) {
            assert forall|i: int| 0 <= i < a.len() implies satisfied(#[trigger] a[i], x, s) by {
                assert(satisfied(b[i], x, s));
            }
        }
    }
}

/// Decode `k` sources of `s` bytes from the symbols: peel, then solve what is
/// left by Gaussian elimination.
fn peel_symbols(given: Vec<CodedSymbol>, k: usize, s: usize) -> (r: Result<
    Vec<Vec<u8>>,
    FountainError,
>)
    requires
        well_shaped(given@, k as int, s as int),
        k + s <= usize::MAX,
    ensures
        s > 0 ==> (r is Ok <==> decodable(given@, k as int)),
        s == 0 ==> (r is Ok <==> peels_out(coeff_rows(given@), k as int)),
        r matches Ok(out) ==> decodable(given@, k as int) && shaped(
            views(out@),
            k as int,
            s as int,
        ) && backed(sym_rows(given@), k as int, s as int, views(out@)) && forall|x: Seq<Seq<u8>>|
            shaped(x, k as int, s as int) && #[trigger] consistent(given@, x, s as int) ==> views(out@)
                == x,
        r matches Err(e) ==> e is Underdetermined && e->have < e->need && e->need <= k && short_by(
            coeff_rows(given@),
            k as int,
            s as int,
            e->have as int,
            e->need as int,
        ),
{
    let mut syms: Vec<CodedSymbol> = given;
    let ghost first = syms@;
    let n: usize = syms.len();
    let mut revealed: Vec<Option<Vec<u8>>> = Vec::new();
    let mut j: usize = 0;
    while j < k
        invariant
            j <= k,
            revealed@.len() == j,
            forall|i: int| 0 <= i < j ==> (#[trigger] revealed@[i]) is None,
        decreases k - j,
    {
        revealed.push(None);
        j += 1;
    }
    let mut degree: Vec<usize> = Vec::new();
    let mut queue: VecDeque<usize> = VecDeque::new();
    let mut i: usize = 0;
    while i < n
        invariant
            i <= n,
            n == syms@.len(),
            degree@.len() == i,
            forall|q: int| 0 <= q < i ==> #[trigger] degree@[q] == weight(syms@[q].coeffs@),
            forall|q: int| 0 <= q < queue@.len() ==> (#[trigger] queue@[q]) < n,
            queued(degree@, queue@),
        decreases n - i,
    {
        let d: usize = count_nonzero(&syms[i].coeffs);
        let ghost degree0 = degree@;
        let ghost queue0 = queue@;
        degree.push(d);
        if d == 1 {
            queue.push_back(i);
        }
        proof {
            assert(queued(degree0.push(0), queue0)) by {
                assert forall|q: int| 0 <= q < degree0.len() + 1 && #[trigger] degree0.push(0)[q] == 1 implies queue0.contains(
                    q as usize,
                ) by {
                    assert(degree0[q] == 1);
                }
            }
            lemma_queued(degree0.push(0), queue0, i, d);
            assert(degree@ =~= degree0.push(0).update(i as int, d));
            assert(queue@ == if d == 1 {
                queue0.push(i)
            } else {
                queue0
            });
        }
        i += 1;
    }
    let ghost mut used: Seq<bool> = Seq::new(n as nat, |q: int| false);
    let ghost mut order: Seq<int> = Seq::empty();
    let ghost mut by: Seq<int> = Seq::empty();
    proof {
        lemma_hidden_all(revealed@);
        assert(vouched(first, syms@, revealed@, used, by, k as int, s as int));
        assert(followed(first, syms@, revealed@, used, order, k as int));
        assert forall|x: Seq<Seq<u8>>| consistent(first, x, s as int) implies fits(
            syms@,
            revealed@,
            used,
            x,
            s as int,
        ) by {}
        assert forall|v: Seq<u8>| v.len() == k implies (#[trigger] orthogonal(first, v)
            <==> left_orthogonal(syms@, revealed@, used, v)) by {}
    }
    while queue.len() > 0
        invariant
            n == syms@.len(),
            peeled(first, syms@, revealed@, degree@, used, k as int, s as int),
            followed(first, syms@, revealed@, used, order, k as int),
            vouched(first, syms@, revealed@, used, by, k as int, s as int),
            queued(degree@, queue@),
            forall|q: int| 0 <= q < queue@.len() ==> (#[trigger] queue@[q]) < n,
        decreases hidden(revealed@), queue@.len(),
    {
        let ghost queue0 = queue@;
        let si: usize = match queue.pop_front() {
            Some(si) => si,
            None => 0,
        };
        assert(si == queue0[0]);
        assert forall|i: int| 0 <= i < degree@.len() && #[trigger] degree@[i] == 1 && i != si implies queue@.contains(
            i as usize,
        ) by {
            let q = choose|q: int| 0 <= q < queue0.len() && queue0[q] == i as usize;
            assert(queue@[q - 1] == i as usize);
        }
        if degree[si] == 1 {
            let target: usize = first_nonzero(&syms[si].coeffs);
            let ghost syms0 = syms@;
            proof {
                assert(!used[si as int]);
                lemma_weight_zero(syms@[si as int].coeffs@);
                assert(syms@[si as int].coeffs@.len() == k);
                assert(target < k);
                if revealed@[target as int] is Some {
                    assert(syms@[si as int].coeffs@[target as int] == 0);
                }
            }
            let coeff: u8 = syms[si].coeffs[target];
            let inv_c: u8 = gf256::inv(coeff);
            let mut x: Vec<u8> = Vec::new();
            std::mem::swap(&mut x, &mut syms[si].payload);
            gf256::scal_inplace(x.as_mut_slice(), inv_c);
            let ghost degree0 = degree@;
            degree[si] = 0;
            let ghost used1 = used.update(si as int, true);
            let ghost syms1 = syms@;
            ripple(&mut syms, &mut degree, &mut queue, si, target, &x, Ghost(used1), Ghost(k as int));
            proof {
                lemma_reveal(
                    first,
                    syms0,
                    revealed@,
                    degree0,
                    used,
                    k as int,
                    s as int,
                    si as int,
                    target as int,
                    x,
                    syms@,
                    degree@,
                );
                lemma_hidden_reveal(revealed@, target as int, x);
                lemma_follow(
                    first,
                    syms0,
                    revealed@,
                    used,
                    order,
                    k as int,
                    si as int,
                    target as int,
                    x,
                    syms@,
                );
                lemma_vouched_step(
                    first,
                    syms0,
                    revealed@,
                    used,
                    order,
                    by,
                    k as int,
                    s as int,
                    si as int,
                    target as int,
                    x,
                    syms@,
                );
                by = by.push(si as int);
                order = order.push(target as int);
                used = used1;
            }
            revealed[target] = Some(x);
        }
    }
    let unknowns: Vec<usize> = hidden_sources(&revealed);
    let r: usize = unknowns.len();
    proof {
        assert forall|i: int| 0 <= i < syms@.len() && !used[i] implies weight(
            (#[trigger] syms@[i]).coeffs@,
        ) != 1 by {
            assert(degree@[i] != 1) by {
                if degree@[i] == 1 {
                    assert(queue@.contains(i as usize));
                }
            }
        }
        lemma_stuck(first, syms@, revealed@, used, order, k as int);
        assert forall|j: int| 0 <= j < k implies (#[trigger] unknowns@.contains(j as usize)
            <==> !order.contains(j)) by {
            assert(revealed@[j] is Some <==> order.contains(j));
        }
        assert(left_over(coeff_rows(first), k as int, order, unknowns@));
        lemma_ascending_len(unknowns@, k as int);
    }
    if r == 0 {
        proof {
            assert(unknowns@ =~= Seq::empty());
            assert(peels_out(coeff_rows(first), k as int));
            assert forall|j: int| 0 <= j < k implies revealed@[j] is Some by {
                if revealed@[j] is None {
                    assert(unknowns@.contains(j as usize));
                }
            }
            assert(decodable(first, k as int)) by {
                assert forall|v: Seq<u8>| v.len() == k && #[trigger] orthogonal(first, v) implies is_zero(v) by {
                    assert(left_orthogonal(syms@, revealed@, used, v));
                    assert forall|j: int| 0 <= j < v.len() implies v[j] == 0 by {
                        assert(revealed@[j] is Some);
                    }
                }
            }
        }
        let ghost shown = revealed@;
        let out: Vec<Vec<u8>> = take_all(&mut revealed);
        proof {
            assert forall|j: int| 0 <= j < k implies (#[trigger] views(out@)[j]).len() == s by {
                assert(shown[j] is Some);
                assert(out@[j] == shown[j]->0);
            }
            assert(agrees(shown, views(out@))) by {
                assert forall|j: int| 0 <= j < shown.len() && shown[j] is Some implies ((
                #[trigger] shown[j])->0)@ == views(out@)[j] by {
                    assert(out@[j] == shown[j]->0);
                }
            }
            let none = Seq::<Seq<u8>>::empty();
            assert(settled(none, Seq::empty(), 0, s as int, gather(views(out@), unknowns@)));
            lemma_vouched_end(
                first,
                syms@,
                shown,
                used,
                order,
                by,
                k as int,
                s as int,
                unknowns@,
                Seq::empty(),
                none,
                views(out@),
            );
            assert forall|x: Seq<Seq<u8>>|
                shaped(x, k as int, s as int) && #[trigger] consistent(first, x, s as int) implies views(
                out@,
            ) == x by {
                assert(fits(syms@, shown, used, x, s as int));
                assert forall|j: int| 0 <= j < k implies views(out@)[j] == x[j] by {
                    assert(shown[j] is Some);
                    assert(out@[j] == shown[j]->0);
                }
                assert(views(out@) =~= x);
            }
        }
        return Ok(out);
    }
    let (mut residual, m, picked) = residual_system(&syms, &unknowns, k, s);
    let ghost rows = rows_of(residual@, r + s, m as int);
    proof {
        if s > 0 {
            lemma_residual(
                first,
                syms@,
                revealed@,
                degree@,
                used,
                k as int,
                s as int,
                unknowns@,
                picked@,
                rows,
            );
        }
        if s == 0 {
            assert(m == 0) by {
                if m > 0 {
                    let p = picked@[0];
                    assert(syms@[p].payload@.len() > 0);
                }
            }
            assert(!full_rank(rows, r as int)) by {
                let v = crate::linear::unit(r as nat, 0);
                assert(kernel(rows, r as int, v));
                assert(v[0] == 1);
            }
        }
    }
    let mut solution: Vec<Vec<u8>> = match solve_system(&mut residual, m, r, s) {
        Ok(solution) => solution,
        Err(rank) => {
            proof {
                if s > 0 {
                    let cut = restricted(coeff_rows(first), unknowns@);
                    lemma_left_over(
                        first,
                        syms@,
                        revealed@,
                        used,
                        order,
                        k as int,
                        unknowns@,
                        picked@,
                        rows,
                        s as int,
                    );
                    lemma_same_rank(cut, rows, r as int, rank as int);
                }
                if s == 0 && peels_out(coeff_rows(first), k as int) {
                    let other = choose|other: Seq<int>| #[trigger]
                        left_over(coeff_rows(first), k as int, other, Seq::empty());
                    peeling_has_one_end(
                        coeff_rows(first),
                        k as int,
                        order,
                        unknowns@,
                        other,
                        Seq::empty(),
                    );
                }
            }
            return Err(FountainError::Underdetermined { have: rank, need: r });
        },
    };
    let ghost solved = views(solution@);
    let ghost shown = revealed@;
    let ghost solution0 = solution@;
    let mut c: usize = r;
    while c > 0
        invariant
            c <= r,
            r == unknowns@.len(),
            revealed@.len() == k,
            ascending(unknowns@, k as int),
            solution@ == solution0.take(c as int),
            solution0.len() == r,
            forall|q: int| c <= q < r ==> #[trigger] revealed@[unknowns@[q] as int] == Some(solution0[q]),
            forall|j: int|
                0 <= j < k && !unknowns@.contains(j as usize) ==> #[trigger] revealed@[j] == shown[j],
            shown.len() == k,
        decreases c,
    {
        let v: Vec<u8> = match solution.pop() {
            Some(v) => v,
            None => Vec::new(),
        };
        c -= 1;
        let ghost before = revealed@;
        assert(unknowns@[c as int] < k);
        revealed[unknowns[c]] = Some(v);
        proof {
            assert(v == solution0[c as int]);
            assert forall|q: int| c <= q < r implies #[trigger] revealed@[unknowns@[q] as int] == Some(
                solution0[q],
            ) by {
                if q > c {
                    assert(unknowns@[c as int] < unknowns@[q]);
                    assert(unknowns@[q] < k);
                    assert(before[unknowns@[q] as int] == Some(solution0[q]));
                }
            }
            assert forall|j: int| 0 <= j < k && !unknowns@.contains(j as usize) implies #[trigger] revealed@[j]
                == shown[j] by {
                assert(unknowns@.contains(unknowns@[c as int]));
                assert(before[j] == shown[j]);
            }
        }
    }
    let ghost complete = revealed@;
    let out: Vec<Vec<u8>> = take_all(&mut revealed);
    proof {
        assert forall|j: int| 0 <= j < k implies complete[j] is Some && out@[j]@ == (
        if shown[j] is Some {
            (shown[j]->0)@
        } else {
            solved[choose|q: int| 0 <= q < unknowns@.len() && unknowns@[q] == j as usize]
        }) by {
            if shown[j] is None {
                assert(unknowns@.contains(j as usize));
                let q = choose|q: int| 0 <= q < unknowns@.len() && unknowns@[q] == j as usize;
                assert(complete[unknowns@[q] as int] == Some(solution0[q]));
                assert(out@[j] == complete[j]->0);
            } else {
                assert(!unknowns@.contains(j as usize));
                assert(complete[j] == shown[j]);
                assert(out@[j] == complete[j]->0);
            }
        }
        assert forall|j: int| 0 <= j < k implies (#[trigger] views(out@)[j]).len() == s by {
            assert(complete[j] is Some);
            if shown[j] is None {
                assert(unknowns@.contains(j as usize));
                let q = choose|q: int| 0 <= q < unknowns@.len() && unknowns@[q] == j as usize;
                assert(solved[q].len() == s);
            }
        }
        let y = views(out@);
        assert(agrees(shown, y)) by {
            assert forall|j: int| 0 <= j < shown.len() && shown[j] is Some implies ((
            #[trigger] shown[j])->0)@ == y[j] by {
                assert(complete[j] is Some);
            }
        }
        assert(gather(y, unknowns@) =~= solved) by {
            assert forall|q: int| 0 <= q < r implies gather(y, unknowns@)[q] == solved[q] by {
                assert(unknowns@[q] < k);
                assert(complete[unknowns@[q] as int] == Some(solution0[q]));
                assert(out@[unknowns@[q] as int] == complete[unknowns@[q] as int]->0);
            }
        }
        lemma_vouched_end(
            first,
            syms@,
            shown,
            used,
            order,
            by,
            k as int,
            s as int,
            unknowns@,
            picked@,
            rows,
            y,
        );
        assert forall|x: Seq<Seq<u8>>|
            shaped(x, k as int, s as int) && #[trigger] consistent(first, x, s as int) implies views(
            out@,
        ) == x by {
            assert(fits(syms@, shown, used, x, s as int));
            let g = gather(x, unknowns@);
            assert(solves(rows, r as int, s as int, g));
            assert(shaped(g, r as int, s as int)) by {
                assert forall|q: int| 0 <= q < r implies (#[trigger] g[q]).len() == s by {
                    assert(unknowns@[q] < k);
                }
            }
            assert(solved == g);
            assert forall|j: int| 0 <= j < k implies views(out@)[j] == x[j] by {
                assert(complete[j] is Some);
                if shown[j] is None {
                    assert(unknowns@.contains(j as usize));
                    let q = choose|q: int|
                        0 <= q < unknowns@.len() && unknowns@[q] == j as usize;
                    assert(g[q] == x[j]);
                }
            }
            assert(views(out@) =~= x);
        }
    }
    Ok(out)
}

/// An ascending list of positions below `n` has at most `n` entries.
proof fn lemma_ascending_len(u: Seq<usize>, n: int)
    requires
        ascending(u, n),
        0 <= n,
    ensures
        u.len() <= n,
    decreases u.len(),
{
    if u.len() > 0 {
        let w = u.drop_last();
        let top = u[u.len() - 1] as int;
        assert forall|i: int| 0 <= i < w.len() implies 0 <= #[trigger] w[i] < top by {
            assert(u[i] < u[u.len() - 1]);
        }
        lemma_ascending_len(w, top);
    }
}

/// What some of the rows back, all of them do.
proof fn lemma_backed_from(
    some: Seq<Seq<u8>>,
    all: Seq<Seq<u8>>,
    from: Seq<int>,
    k: int,
    s: int,
    x: Seq<Seq<u8>>,
)
    requires
        0 <= k,
        0 <= s,
        backed(some, k, s, x),
        some.len() == from.len(),
        apart(from, all.len() as int),
        forall|q: int|
            0 <= q < from.len() ==> all[#[trigger] from[q]].len() >= k + s && some[q]
                == all[from[q]].take(k) + all[from[q]].subrange(k, k + s),
    ensures
        backed(all, k, s, x),
{
    let at = choose|at: Seq<int>| #[trigger] settled(some, at, k, s, x);
    let to = Seq::new(at.len(), |i: int| from[at[i]]);
    let a = rows_at(some, at);
    let b = rows_at(all, to);
    assert forall|i: int| 0 <= i < to.len() implies 0 <= #[trigger] to[i] < all.len() && a[i].take(k)
        == b[i].take(k) && (forall|t: int| 0 <= t < s ==> a[i][k + t] == #[trigger] b[i][k + t]) by {
        assert(0 <= at[i] < some.len());
        assert(0 <= from[at[i]] < all.len());
        assert(a[i].take(k) =~= b[i].take(k));
    }
    assert forall|i: int, j: int| 0 <= i < j < to.len() implies to[i] != to[j] by {
        let p = at[i];
        let q = at[j];
        assert(p != q);
        assert(0 <= p < from.len() && 0 <= q < from.len());
        if p < q {
            assert(from[p] != from[q]);
        } else {
            assert(from[q] != from[p]);
        }
    }
    assert forall|v: Seq<u8>| v.len() == k && #[trigger] kernel(b, k, v) implies is_zero(v) by {
        assert forall|i: int| 0 <= i < a.len() implies dot((#[trigger] a[i]).take(k), v) == 0 by {
            assert(0 <= to[i] < all.len());
            assert(dot(b[i].take(k), v) == 0);
        }
        assert(kernel(a, k, v));
    }
    assert forall|i: int, t: int| 0 <= i < b.len() && 0 <= t < s implies dot(
        (#[trigger] b[i]).take(k),
        #[trigger] column(x, t),
    ) == b[i][k + t] by {
        assert(0 <= to[i] < all.len());
        assert(dot(a[i].take(k), column(x, t)) == a[i][k + t]);
    }
    assert(settled(all, to, k, s, x));
}

/// The first `k` entries of each row.
pub open spec fn first_columns(rows: Seq<Seq<u8>>, k: int) -> Seq<Seq<u8>> {
    rows.map_values(|r: Seq<u8>| r.take(k))
}

/// The symbols `x` solve every augmented row that has a nonzero coefficient.
pub open spec fn explains(rows: Seq<Seq<u8>>, k: int, s: int, x: Seq<Seq<u8>>) -> bool {
    forall|i: int, t: int|
        0 <= i < rows.len() && 0 <= t < s && !is_zero((#[trigger] rows[i]).take(k)) ==> dot(
            rows[i].take(k),
            #[trigger] column(x, t),
        ) == rows[i][k + t]
}

/// A row has its coefficients, and its payload if one of them is not zero.
pub open spec fn complete_row(row: Seq<u8>, k: int, s: int) -> bool {
    row.len() >= k && (is_zero(row.take(k)) || row.len() >= k + s)
}

/// Decode from dense rows `[coefficients (k bytes) | payload (s bytes)]`.
///
/// Rows without a nonzero coefficient carry no information and are left out.
pub fn peel_decode(rows: &[Vec<u8>], k: usize, s: usize) -> (r: Result<Vec<Vec<u8>>, FountainError>)
    requires
        k + s <= usize::MAX,
        forall|i: int|
            0 <= i < rows@.len() ==> complete_row((#[trigger] rows@[i])@, k as int, s as int),
    ensures
        s > 0 ==> (r is Ok <==> full_rank(views(rows@), k as int)),
        r is Ok ==> full_rank(views(rows@), k as int) && shaped(views(r->Ok_0@), k as int, s as int)
            && forall|x: Seq<Seq<u8>>|
            shaped(x, k as int, s as int) && #[trigger] explains(views(rows@), k as int, s as int, x)
                ==> views(r->Ok_0@) == x,
        r is Ok ==> backed(views(rows@), k as int, s as int, views(r->Ok_0@)),
        s == 0 ==> (r is Ok <==> peels_out(first_columns(views(rows@), k as int), k as int)),
        r matches Err(e) ==> e is Underdetermined && e->have < e->need && e->need <= k && short_by(
            first_columns(views(rows@), k as int),
            k as int,
            s as int,
            e->have as int,
            e->need as int,
        ),
{
    let mut syms: Vec<CodedSymbol> = Vec::new();
    let ghost mut from: Seq<int> = Seq::empty();
    let mut i: usize = 0;
    while i < rows.len()
        invariant
            i <= rows@.len(),
            k + s <= usize::MAX,
            forall|q: int|
                0 <= q < rows@.len() ==> complete_row((#[trigger] rows@[q])@, k as int, s as int),
            from.len() == syms@.len(),
            forall|q: int|
                0 <= q < syms@.len() ==> 0 <= #[trigger] from[q] < i && !is_zero(syms@[q].coeffs@)
                    && rows@[from[q]]@.len() >= k + s && syms@[q].coeffs@
                    == rows@[from[q]]@.take(k as int) && syms@[q].payload@
                    == rows@[from[q]]@.subrange(k as int, k + s),
            forall|a: int, b: int| 0 <= a < b < from.len() ==> from[a] < from[b],
            forall|q: int|
                0 <= q < i && !is_zero((#[trigger] rows@[q])@.take(k as int)) ==> from.contains(q),
        decreases rows@.len() - i,
    {
        let coeffs: Vec<u8> = copy_range(rows[i].as_slice(), 0, k);
        assert(coeffs@ =~= rows@[i as int]@.take(k as int));
        let ghost before = from;
        let weight_here: usize = count_nonzero(&coeffs);
        proof {
            lemma_weight_zero(coeffs@);
        }
        if weight_here > 0 {
            let payload: Vec<u8> = copy_range(rows[i].as_slice(), k, k + s);
            syms.push(CodedSymbol { coeffs, payload });
            proof {
                from = from.push(i as int);
                assert(from[from.len() - 1] == i);
            }
        }
        proof {
            assert forall|q: int| 0 <= q < i + 1 && !is_zero((#[trigger] rows@[q])@.take(k as int)) implies from.contains(
                q,
            ) by {
                if q < i {
                    let w = choose|w: int| 0 <= w < before.len() && before[w] == q;
                    assert(from[w] == q);
                }
            }
        }
        i += 1;
    }
    proof {
        let all = views(rows@);
        assert forall|q: int| 0 <= q < syms@.len() implies (#[trigger] syms@[q]).coeffs@.len() == k
            && syms@[q].payload@.len() == s by {
            assert(0 <= from[q] < rows@.len());
        }
        assert forall|v: Seq<u8>| v.len() == k implies (#[trigger] orthogonal(syms@, v) <==> kernel(
            all,
            k as int,
            v,
        )) by {
            if kernel(all, k as int, v) {
                assert forall|q: int| 0 <= q < syms@.len() implies dot((#[trigger] syms@[q]).coeffs@, v)
                    == 0 by {
                    assert(0 <= from[q] < rows@.len());
                    assert(dot(all[from[q]].take(k as int), v) == 0);
                }
            }
            if orthogonal(syms@, v) {
                assert forall|q: int| 0 <= q < all.len() implies dot((#[trigger] all[q]).take(k as int), v)
                    == 0 by {
                    assert(complete_row(rows@[q]@, k as int, s as int));
                    if is_zero(rows@[q]@.take(k as int)) {
                        lemma_dot_none(rows@[q]@.take(k as int), v);
                    } else {
                        assert(from.contains(q));
                        let w = choose|w: int| 0 <= w < from.len() && from[w] == q;
                        assert(dot(syms@[w].coeffs@, v) == 0);
                    }
                }
            }
        }
        assert(decodable(syms@, k as int) <==> full_rank(all, k as int)) by {
            if decodable(syms@, k as int) {
                assert forall|v: Seq<u8>| v.len() == k && #[trigger] kernel(all, k as int, v) implies is_zero(v) by {
                    assert(orthogonal(syms@, v));
                }
            }
            if full_rank(all, k as int) {
                assert forall|v: Seq<u8>| v.len() == k && #[trigger] orthogonal(syms@, v) implies is_zero(v) by {
                    assert(kernel(all, k as int, v));
                }
            }
        }
        assert forall|x: Seq<Seq<u8>>|
            shaped(x, k as int, s as int) && #[trigger] explains(all, k as int, s as int, x) implies consistent(
            syms@,
            x,
            s as int,
        ) by {
            assert forall|q: int| 0 <= q < syms@.len() implies satisfied(#[trigger] syms@[q], x, s as int) by {
                let w = from[q];
                assert(0 <= w < rows@.len());
                assert(!is_zero(all[w].take(k as int)));
                assert forall|t: int| 0 <= t < s implies #[trigger] syms@[q].payload@[t] == dot(
                    syms@[q].coeffs@,
                    column(x, t),
                ) by {
                    assert(dot(all[w].take(k as int), column(x, t)) == all[w][k + t]);
                }
            }
        }
    }
    let ghost kept = syms@;
    let ghost some = coeff_rows(syms@);
    let ghost whole = first_columns(views(rows@), k as int);
    proof {
        assert forall|q: int| 0 <= q < from.len() implies 0 <= #[trigger] from[q] < whole.len()
            && some[q] == whole[from[q]] by {
            assert(syms@[q].coeffs@ == rows@[from[q]]@.take(k as int));
        }
        assert forall|i: int| 0 <= i < whole.len() && !is_zero(#[trigger] whole[i]) implies from.contains(
            i,
        ) by {
            assert(whole[i] == rows@[i]@.take(k as int));
        }
        assert forall|i: int| 0 <= i < whole.len() implies (#[trigger] whole[i]).len() == k by {
            assert(complete_row(rows@[i]@, k as int, s as int));
        }
    }
    let r: Result<Vec<Vec<u8>>, FountainError> = peel_symbols(syms, k, s);
    proof {
        if r is Ok {
            lemma_backed_from(sym_rows(kept), views(rows@), from, k as int, s as int, views(r->Ok_0@));
        }
        if s == 0 && r is Ok {
            let order = choose|order: Seq<int>| #[trigger]
                left_over(some, k as int, order, Seq::empty());
            lemma_idle_rows(some, whole, from, k as int, order, Seq::empty());
        }
        if r is Err {
            let have = r->Err_0->have as int;
            let need = r->Err_0->need as int;
            let (order, u) = choose|order: Seq<int>, u: Seq<usize>| #[trigger]
                left_over(some, k as int, order, u) && need == u.len() && if s > 0 {
                    has_rank(restricted(some, u), need, have)
                } else {
                    have == 0
                };
            lemma_idle_rows(some, whole, from, k as int, order, u);
            if s > 0 {
                assert(same_kernel(restricted(whole, u), restricted(some, u), need)) by {
                    assert forall|v: Seq<u8>| v.len() == need implies (#[trigger] kernel(
                        restricted(whole, u),
                        need,
                        v,
                    ) <==> kernel(restricted(some, u), need, v)) by {
                        assert(kernel(restricted(some, u), need, v) <==> kernel(
                            restricted(whole, u),
                            need,
                            v,
                        ));
                    }
                }
                lemma_same_rank(restricted(whole, u), restricted(some, u), need, have);
            }
            if peels_out(whole, k as int) {
                let other = choose|other: Seq<int>| #[trigger]
                    left_over(whole, k as int, other, Seq::empty());
                peeling_has_one_end(whole, k as int, order, u, other, Seq::empty());
            }
        }
    }
    r
}

/// Two little-endian bytes of `n` modulo 2^16.
pub open spec fn le16(n: int) -> Seq<u8> {
    seq![(n % 256) as u8, ((n / 256) % 256) as u8]
}

/// The number that two little-endian bytes stand for.
pub open spec fn from_le16(a: u8, b: u8) -> int {
    a as int + 256 * (b as int)
}

/// The coefficients that the first `n` (index, coefficient) pairs of a coded
/// symbol give to `k` sources. Indices past the last source and zero
/// coefficients are passed over; the last pair for an index counts.
pub open spec fn wire_coeffs(wire: Seq<u8>, n: nat, k: int) -> Seq<u8>
    decreases n,
{
    if n == 0 {
        Seq::new(k as nat, |j: int| 0u8)
    } else {
        let prev = wire_coeffs(wire, (n - 1) as nat, k);
        let at = 2 + 3 * (n - 1);
        let idx = from_le16(wire[at], wire[at + 1]);
        let c = wire[at + 2];
        if idx < k && c != 0 {
            prev.update(idx, c)
        } else {
            prev
        }
    }
}

proof fn lemma_wire_coeffs_len(wire: Seq<u8>, n: nat, k: int)
    requires
        0 <= k,
    ensures
        wire_coeffs(wire, n, k).len() == k,
    decreases n,
{
    if n > 0 {
        lemma_wire_coeffs_len(wire, (n - 1) as nat, k);
    }
}

/// The number of pairs that a coded symbol says it has.
pub open spec fn wire_pairs(wire: Seq<u8>) -> nat {
    from_le16(wire[0], wire[1]) as nat
}

/// The bytes of a coded symbol before its payload.
pub open spec fn wire_header(wire: Seq<u8>) -> int {
    2 + 3 * (wire_pairs(wire) as int)
}

/// Decoder for one generation. It gathers coded symbols, and decodes once they
/// determine the sources.
pub struct FountainDecoder {
    k: usize,
    symbol_size: usize,
    syms: Vec<CodedSymbol>,
}

impl FountainDecoder {
    /// The number of sources.
    pub closed spec fn sources(&self) -> nat {
        self.k as nat
    }

    /// The length of a source.
    pub closed spec fn size(&self) -> nat {
        self.symbol_size as nat
    }

    /// The symbols taken in so far.
    pub closed spec fn symbols(&self) -> Seq<CodedSymbol> {
        self.syms@
    }

    /// The symbols have the shape that the generation asks for.
    #[verifier::type_invariant]
    spec fn wf(&self) -> bool {
        &&& well_shaped(self.syms@, self.k as int, self.symbol_size as int)
        &&& self.k + self.symbol_size + 0x40000 <= usize::MAX
    }

    /// A decoder for `k` sources of `symbol_size` bytes.
    pub fn new(k: usize, symbol_size: usize) -> (d: Self)
        requires
            k + symbol_size + 0x40000 <= usize::MAX,
        ensures
            d.sources() == k,
            d.size() == symbol_size,
            d.symbols().len() == 0,
    {
        FountainDecoder { k, symbol_size, syms: Vec::new() }
    }

    /// The number of sources.
    pub fn k(&self) -> (k: usize)
        ensures
            k == self.sources(),
    {
        self.k
    }

    /// The number of symbols taken in.
    pub fn rank(&self) -> (n: usize)
        ensures
            n == self.symbols().len(),
    {
        self.syms.len()
    }

    /// Take in one coded symbol: the number of pairs, the pairs, the payload.
    /// `Ok(false)` means that it carried no usable coefficient.
    pub fn add(&mut self, wire: &[u8]) -> (r: Result<bool, FountainError>)
        ensures
            final(self).sources() == old(self).sources(),
            final(self).size() == old(self).size(),
            wire@.len() < 2 ==> r == Err::<bool, _>(
                (FountainError::SizeMismatch { a: wire@.len() as usize, b: 2 }),
            ),
            wire@.len() >= 2 && wire@.len() < wire_header(wire@) + old(self).size() ==> r == Err::<
                bool,
                _,
            >(
                (FountainError::SizeMismatch {
                    a: wire@.len() as usize,
                    b: (wire_header(wire@) + old(self).size()) as usize,
                }),
            ),
            wire@.len() >= 2 && wire@.len() >= wire_header(wire@) + old(self).size() ==> r == Ok::<
                _,
                FountainError,
            >(
                !is_zero(wire_coeffs(wire@, wire_pairs(wire@), old(self).sources() as int)),
            ),
            r != Ok::<_, FountainError>(true) ==> final(self).symbols() == old(self).symbols(),
            r == Ok::<_, FountainError>(true) ==> {
                &&& final(self).symbols().len() == old(self).symbols().len() + 1
                &&& final(self).symbols().drop_last() == old(self).symbols()
                &&& final(self).symbols().last().coeffs@ == wire_coeffs(
                    wire@,
                    wire_pairs(wire@),
                    old(self).sources() as int,
                )
                &&& final(self).symbols().last().payload@ == wire@.subrange(
                    wire_header(wire@),
                    wire_header(wire@) + old(self).size(),
                )
            },
    {
        proof {
            use_type_invariant(&*self);
        }
        if wire.len() < 2 {
            return Err(FountainError::SizeMismatch { a: wire.len(), b: 2 });
        }
        let ncoeffs: usize = wire[0] as usize + 256 * (wire[1] as usize);
        let header_len: usize = 2 + ncoeffs * 3;
        if wire.len() < header_len + self.symbol_size {
            return Err(
                FountainError::SizeMismatch { a: wire.len(), b: header_len + self.symbol_size },
            );
        }
        let mut coeffs: Vec<u8> = vec![0u8; self.k];
        let mut i: usize = 0;
        assert(coeffs@ =~= wire_coeffs(wire@, 0, self.k as int));
        while i < ncoeffs
            invariant
                i <= ncoeffs,
                ncoeffs <= 65535,
                wire@.len() >= 2 + 3 * ncoeffs,
                coeffs@.len() == self.k,
                coeffs@ == wire_coeffs(wire@, i as nat, self.k as int),
            decreases ncoeffs - i,
        {
            let p: usize = 2 + 3 * i;
            let idx: usize = wire[p] as usize + 256 * (wire[p + 1] as usize);
            let c: u8 = wire[p + 2];
            if idx < self.k && c != 0 {
                coeffs[idx] = c;
            }
            i += 1;
        }
        let found: usize = count_nonzero(&coeffs);
        proof {
            lemma_weight_zero(coeffs@);
        }
        if found == 0 {
            return Ok(false);
        }
        let payload: Vec<u8> = copy_range(wire, header_len, header_len + self.symbol_size);
        let ghost before = self.syms@;
        let mut syms: Vec<CodedSymbol> = Vec::new();
        std::mem::swap(&mut syms, &mut self.syms);
        syms.push(CodedSymbol { coeffs, payload });
        self.syms = syms;
        assert(self.syms@.drop_last() =~= before);
        Ok(true)
    }

    /// Decode the sources. With too few symbols the answer is at once that they
    /// do not suffice; otherwise they suffice exactly if their coefficients
    /// determine the sources, and then the sources that explain the symbols
    /// come back. Where the symbols contradict one another, the answer is what as
    /// many independent ones as there are sources say. The symbols stay, so that
    /// more of them can be taken in and decoding tried again.
    pub fn decode(&mut self) -> (r: Result<Vec<Vec<u8>>, FountainError>)
        ensures
            *final(self) == *old(self),
            well_shaped(
                old(self).symbols(),
                old(self).sources() as int,
                old(self).size() as int,
            ),
            old(self).symbols().len() < old(self).sources() ==> r == Err::<Vec<Vec<u8>>, _>(
                (FountainError::Underdetermined {
                    have: old(self).symbols().len() as usize,
                    need: old(self).sources() as usize,
                }),
            ),
            r is Ok <==> old(self).symbols().len() >= old(self).sources() && (if old(self).size()
                > 0 {
                decodable(old(self).symbols(), old(self).sources() as int)
            } else {
                peels_out(coeff_rows(old(self).symbols()), old(self).sources() as int)
            }),
            r matches Ok(out) ==> decodable(old(self).symbols(), old(self).sources() as int)
                && shaped(views(out@), old(self).sources() as int, old(self).size() as int) && backed(
                sym_rows(old(self).symbols()),
                old(self).sources() as int,
                old(self).size() as int,
                views(out@),
            ) && forall|x: Seq<Seq<u8>>|
                shaped(x, old(self).sources() as int, old(self).size() as int)
                    && #[trigger] consistent(old(self).symbols(), x, old(self).size() as int)
                    ==> views(out@) == x,
            r matches Err(e) ==> e is Underdetermined && e->have < e->need && e->need
                <= old(self).sources(),
            old(self).symbols().len() >= old(self).sources() ==> (r matches Err(e) ==> short_by(
                coeff_rows(old(self).symbols()),
                old(self).sources() as int,
                old(self).size() as int,
                e->have as int,
                e->need as int,
            )),
    {
        proof {
            use_type_invariant(&*self);
        }
        if self.syms.len() < self.k {
            return Err(FountainError::Underdetermined { have: self.syms.len(), need: self.k });
        }
        let syms: Vec<CodedSymbol> = copied(&self.syms);
        proof {
            lemma_same_contents(self.syms@, syms@);
        }
        peel_symbols(syms, self.k, self.symbol_size)
    }
}

/// The odd constant closest to 2^64 divided by the golden ratio.
pub const GOLDEN_GAMMA: u64 = 0x9E37_79B9_7F4A_7C15;

/// The finalizer of splitmix64.
pub open spec fn diffuse(z: u64) -> u64 {
    let a = (z ^ (z >> 30u64)).wrapping_mul(0xBF58_476D_1CE4_E5B9);
    let b = (a ^ (a >> 27u64)).wrapping_mul(0x94D0_49BB_1331_11EB);
    b ^ (b >> 31u64)
}

/// The state that a seed gives.
pub open spec fn seed_state(seed: u64) -> u64 {
    diffuse(seed.wrapping_mul(GOLDEN_GAMMA).wrapping_add(0xA5A5_A5A5))
}

/// The state `n` draws after `state`.
pub open spec fn state_after(state: u64, n: nat) -> u64
    decreases n,
{
    if n == 0 {
        state
    } else {
        state_after(state, (n - 1) as nat).wrapping_add(GOLDEN_GAMMA)
    }
}

/// The number drawn when the state becomes `state`.
pub open spec fn drawn(state: u64) -> u64 {
    diffuse(state)
}

/// Deterministic generator seeded by generation and repair index, so that a
/// repair symbol can be rebuilt from its index.
struct ImplRng {
    state: u64,
}

impl ImplRng {
    fn mix(z: u64) -> (r: u64)
        ensures
            r == diffuse(z),
    {
        let a: u64 = (z ^ (z >> 30u64)).wrapping_mul(0xBF58_476D_1CE4_E5B9);
        let b: u64 = (a ^ (a >> 27u64)).wrapping_mul(0x94D0_49BB_1331_11EB);
        b ^ (b >> 31u64)
    }

    /// Seed with a full diffusion, so that neighbouring seeds share no structure.
    fn new(seed: u64) -> (g: Self)
        ensures
            g.state == seed_state(seed),
    {
        ImplRng { state: Self::mix(seed.wrapping_mul(GOLDEN_GAMMA).wrapping_add(0xA5A5_A5A5)) }
    }

    fn next_u64(&mut self) -> (r: u64)
        ensures
            final(self).state == state_after(old(self).state, 1),
            r == drawn(final(self).state),
    {
        proof {
            reveal_with_fuel(state_after, 2);
        }
        self.state = self.state.wrapping_add(GOLDEN_GAMMA);
        Self::mix(self.state)
    }

    /// A number below `n` from the high bits of the stream; zero if `n` is.
    fn next_below(&mut self, n: usize) -> (r: usize)
        ensures
            final(self).state == state_after(old(self).state, 1),
            r == below(final(self).state, n as int),
            n > 0 ==> r < n,
    {
        let x: u64 = self.next_u64();
        if n == 0 {
            0
        } else {
            let high: u64 = x >> 40u64;
            assert(x >> 40u64 < 0x100_0000) by (bit_vector);
            high as usize % n
        }
    }
}

/// The number below `n` that the state gives.
pub open spec fn below(state: u64, n: int) -> int {
    if n == 0 {
        0
    } else {
        (drawn(state) >> 40u64) as int % n
    }
}

/// The first of the thresholds that is at least `r`, counted from one and kept
/// between one and `k`.
pub open spec fn degree_for(thresholds: Seq<u64>, r: u64, i: nat, k: nat) -> nat
    decreases thresholds.len() - i,
{
    if i < thresholds.len() && thresholds[i as int] < r {
        degree_for(thresholds, r, i + 1, k)
    } else if i + 1 > k {
        if k == 0 { 1 } else { k }
    } else {
        i + 1
    }
}

/// The sources picked from `state` on: draws below `k`, repeats passed over,
/// until there are `degree` or ten times `k` draws are made. Also the state
/// after the last draw.
pub open spec fn picked_sources(
    state: u64,
    k: nat,
    degree: nat,
    chosen: Seq<int>,
    guard: nat,
) -> (Seq<int>, u64)
    decreases 10 * k - guard,
{
    if chosen.len() < degree && guard < 10 * k {
        let next = state_after(state, 1);
        let idx = below(next, k as int);
        picked_sources(
            next,
            k,
            degree,
            if chosen.contains(idx) {
                chosen
            } else {
                chosen.push(idx)
            },
            guard + 1,
        )
    } else {
        (chosen, state)
    }
}

/// The `n` coefficients drawn from `state` on, each made odd and so not zero.
pub open spec fn drawn_coeffs(state: u64, n: nat) -> Seq<u8> {
    Seq::new(n, |i: int| (drawn(state_after(state, (i + 1) as nat)) as u8) | 1u8)
}

/// The combination of the first `n` chosen sources, each of `s` bytes.
pub open spec fn blended(
    source: Seq<Seq<u8>>,
    chosen: Seq<int>,
    coeffs: Seq<u8>,
    s: int,
    n: nat,
) -> Seq<u8>
    decreases n,
{
    if n == 0 {
        Seq::new(s as nat, |i: int| 0u8)
    } else {
        gf256::axpy_at(
            coeffs[n - 1],
            source[chosen[n - 1]],
            blended(source, chosen, coeffs, s, (n - 1) as nat),
            0,
        )
    }
}

/// The first `n` (index, coefficient) pairs as they are sent.
pub open spec fn pair_bytes(chosen: Seq<int>, coeffs: Seq<u8>, n: nat) -> Seq<u8>
    decreases n,
{
    if n == 0 {
        Seq::empty()
    } else {
        pair_bytes(chosen, coeffs, (n - 1) as nat) + le16(chosen[n - 1]) + seq![coeffs[n - 1]]
    }
}

/// A coded symbol as it is sent.
pub open spec fn wire_format(chosen: Seq<int>, coeffs: Seq<u8>, payload: Seq<u8>) -> Seq<u8> {
    le16(chosen.len() as int) + pair_bytes(chosen, coeffs, chosen.len()) + payload
}

/// Source `i` sent as it is.
pub open spec fn systematic_wire(source: Seq<Seq<u8>>, i: int) -> Seq<u8> {
    wire_format(seq![i], seq![1u8], source[i])
}

/// The seed of repair symbol `index`.
pub open spec fn repair_seed(generation: u32, index: u64) -> u64 {
    ((generation as u64) << 40u64) | index
}

/// The degree of repair symbol `index`, from the high 53 bits of its first draw.
pub open spec fn repair_degree(thresholds: Seq<u64>, k: nat, generation: u32, index: u64) -> nat {
    let first = state_after(seed_state(repair_seed(generation, index)), 1);
    degree_for(thresholds, drawn(first) >> 11u64, 0, k)
}

/// The sources of repair symbol `index`, and the state after they are picked.
pub open spec fn repair_sources(thresholds: Seq<u64>, k: nat, generation: u32, index: u64) -> (
    Seq<int>,
    u64,
) {
    let first = state_after(seed_state(repair_seed(generation, index)), 1);
    picked_sources(
        first,
        k,
        repair_degree(thresholds, k, generation, index),
        Seq::empty(),
        0,
    )
}

/// Repair symbol `index` of a generation as it is sent.
pub open spec fn repair_wire(
    source: Seq<Seq<u8>>,
    s: int,
    thresholds: Seq<u64>,
    generation: u32,
    index: u64,
) -> Seq<u8> {
    let (chosen, state) = repair_sources(thresholds, source.len(), generation, index);
    let coeffs = drawn_coeffs(state, chosen.len());
    wire_format(chosen, coeffs, blended(source, chosen, coeffs, s, chosen.len()))
}

/// The sources of an encoder: vectors of its own, or equal slices of a buffer
/// that several generations share.
enum Source {
    Owned(Vec<Vec<u8>>),
    Shared { buf: Arc<Vec<u8>>, offset: usize, stride: usize, k: usize },
}

impl Source {
    /// The symbols.
    spec fn symbols(&self) -> Seq<Seq<u8>> {
        match self {
            Source::Owned(v) => views(v@),
            Source::Shared { buf, offset, stride, k } => Seq::new(
                *k as nat,
                |i: int| buf@.subrange(*offset + i * *stride, *offset + i * *stride + *stride),
            ),
        }
    }

    /// The length of a symbol.
    spec fn size(&self) -> int {
        match self {
            Source::Owned(v) => v@[0]@.len() as int,
            Source::Shared { stride, .. } => *stride as int,
        }
    }

    /// There is a symbol, all have the same length, and they lie in the buffer.
    spec fn wf(&self) -> bool {
        match self {
            Source::Owned(v) => v@.len() > 0 && forall|i: int|
                0 <= i < v@.len() ==> (#[trigger] v@[i])@.len() == v@[0]@.len(),
            Source::Shared { buf, offset, stride, k } => *k > 0 && *stride > 0 && *offset + *k * *stride
                <= buf@.len(),
        }
    }

    fn k(&self) -> (k: usize)
        ensures
            k == self.symbols().len(),
    {
        match self {
            Source::Owned(v) => v.len(),
            Source::Shared { k, .. } => *k,
        }
    }

    fn symbol_size(&self) -> (s: usize)
        requires
            self.wf(),
        ensures
            s == self.size(),
    {
        match self {
            Source::Owned(v) => v[0].len(),
            Source::Shared { stride, .. } => *stride,
        }
    }

    fn src(&self, i: usize) -> (r: &[u8])
        requires
            self.wf(),
            i < self.symbols().len(),
        ensures
            r@ == self.symbols()[i as int],
            r@.len() == self.size(),
    {
        match self {
            Source::Owned(v) => v[i].as_slice(),
            Source::Shared { buf, offset, stride, k } => {
                proof {
                    lemma_row_bounds(i as int, *stride as int, *k as int);
                }
                let len: usize = buf.len();
                let at: usize = i * *stride;
                let start: usize = *offset + at;
                vstd::slice::slice_subrange(buf.as_slice(), start, start + *stride)
            },
        }
    }
}

/// Encoder for one generation: the sources as they are, and repair symbols
/// without end.
///
/// The degrees of the repair symbols follow a distribution over 1..=k that the
/// caller gives as thresholds in units of 2^-53: entry `d - 1` is the
/// probability of a degree of at most `d`, rounded down.
pub struct FountainEncoder {
    source: Source,
    generation: u32,
    repair_index: u64,
    thresholds: Vec<u64>,
}

impl FountainEncoder {
    /// The source symbols.
    pub closed spec fn sources(&self) -> Seq<Seq<u8>> {
        self.source.symbols()
    }

    /// The length of a source symbol.
    pub closed spec fn size(&self) -> int {
        self.source.size()
    }

    /// The generation number.
    pub closed spec fn generation(&self) -> u32 {
        self.generation
    }

    /// The number of repair symbols produced.
    pub closed spec fn repairs(&self) -> u64 {
        self.repair_index
    }

    /// The degree distribution.
    pub closed spec fn degrees(&self) -> Seq<u64> {
        self.thresholds@
    }

    /// There is a source and all have the same length.
    pub closed spec fn wf(&self) -> bool {
        self.source.wf()
    }

    /// What well-formedness says about the sources.
    pub proof fn lemma_wf(&self)
        requires
            self.wf(),
        ensures
            self.sources().len() > 0,
            shaped(self.sources(), self.sources().len() as int, self.size()),
    {
        assert forall|j: int| 0 <= j < self.sources().len() implies (#[trigger] self.sources()[j]).len()
            == self.size() by {
            match &self.source {
                Source::Owned(v) => {
                    assert(v@[j]@.len() == v@[0]@.len());
                },
                Source::Shared { buf, offset, stride, k } => {
                    lemma_row_bounds(j, *stride as int, *k as int);
                },
            }
        }
    }

    /// An encoder over source symbols of its own.
    pub fn new(source: Vec<Vec<u8>>, generation: u32, thresholds: Vec<u64>) -> (r: Result<
        Self,
        FountainError,
    >)
        ensures
            r == Err::<Self, _>(FountainError::Empty) <==> source@.len() == 0,
            r is Ok <==> source@.len() > 0 && shaped(
                views(source@),
                source@.len() as int,
                source@[0]@.len() as int,
            ),
            r matches Ok(e) ==> e.wf() && e.sources() == views(source@) && e.size()
                == source@[0]@.len() && e.generation() == generation && e.repairs() == 0
                && e.degrees() == thresholds@,
            r matches Err(FountainError::SizeMismatch { a, b }) ==> a == source@[0]@.len() && exists|
                i: int,
            |
                0 <= i < source@.len() && b == (#[trigger] source@[i])@.len() && b != a && forall|
                    j: int,
                |
                    0 <= j < i ==> (#[trigger] source@[j])@.len() == a,
            r matches Err(e) ==> e !is Underdetermined,
    {
        if source.len() == 0 {
            return Err(FountainError::Empty);
        }
        let sz: usize = source[0].len();
        let mut i: usize = 0;
        while i < source.len()
            invariant
                i <= source@.len(),
                source@.len() > 0,
                sz == source@[0]@.len(),
                forall|j: int| 0 <= j < i ==> (#[trigger] source@[j])@.len() == sz,
            decreases source@.len() - i,
        {
            let b: usize = source[i].len();
            if b != sz {
                proof {
                    assert(views(source@)[i as int].len() != sz);
                }
                return Err(FountainError::SizeMismatch { a: sz, b });
            }
            i += 1;
        }
        Ok(FountainEncoder { source: Source::Owned(source), generation, repair_index: 0, thresholds })
    }

    /// An encoder whose `k` symbols are the `stride`-byte slices of a shared
    /// buffer from `offset` on.
    pub fn new_shared(
        buf: Arc<Vec<u8>>,
        offset: usize,
        stride: usize,
        k: usize,
        generation: u32,
        thresholds: Vec<u64>,
    ) -> (r: Result<Self, FountainError>)
        ensures
            k == 0 || stride == 0 <==> r == Err::<Self, _>(FountainError::Empty),
            k > 0 && stride > 0 && offset + k * stride > usize::MAX ==> r == Err::<Self, _>(
                (FountainError::SizeMismatch { a: offset, b: stride }),
            ),
            k > 0 && stride > 0 && usize::MAX >= offset + k * stride && offset + k * stride
                > buf@.len() ==> r == Err::<Self, _>(
                (FountainError::SizeMismatch {
                    a: buf@.len() as usize,
                    b: (offset + k * stride) as usize,
                }),
            ),
            k > 0 && stride > 0 && offset + k * stride <= buf@.len() ==> r is Ok,
            r matches Ok(e) ==> e.wf() && e.size() == stride && e.generation() == generation
                && e.repairs() == 0 && e.degrees() == thresholds@ && e.sources() == Seq::new(
                k as nat,
                |i: int| buf@.subrange(offset + i * stride, offset + i * stride + stride),
            ),
    {
        let len: usize = buf.len();
        if k == 0 || stride == 0 {
            return Err(FountainError::Empty);
        }
        proof {
            assert(0 <= k * stride) by (nonlinear_arith);
        }
        let span: usize = match k.checked_mul(stride) {
            Some(span) => span,
            None => {
                return Err(FountainError::SizeMismatch { a: offset, b: stride });
            },
        };
        let end: usize = match offset.checked_add(span) {
            Some(end) => end,
            None => {
                return Err(FountainError::SizeMismatch { a: offset, b: stride });
            },
        };
        if end > len {
            return Err(FountainError::SizeMismatch { a: len, b: end });
        }
        let e = FountainEncoder {
            source: Source::Shared { buf, offset, stride, k },
            generation,
            repair_index: 0,
            thresholds,
        };
        assert(e.sources() =~= Seq::new(
            k as nat,
            |i: int| buf@.subrange(offset + i * stride, offset + i * stride + stride),
        ));
        Ok(e)
    }

    /// The number of sources.
    pub fn k(&self) -> (k: usize)
        ensures
            k == self.sources().len(),
    {
        self.source.k()
    }

    /// The length of a source.
    pub fn symbol_size(&self) -> (s: usize)
        requires
            self.wf(),
        ensures
            s == self.size(),
    {
        self.source.symbol_size()
    }

    /// The degree that the 53-bit number `r` selects.
    fn soliton_degree(&self, r: u64) -> (d: usize)
        requires
            self.wf(),
        ensures
            d == degree_for(self.degrees(), r, 0, self.sources().len()),
            1 <= d <= self.sources().len(),
    {
        proof {
            self.lemma_wf();
        }
        let k: usize = self.source.k();
        let mut i: usize = 0;
        while i < self.thresholds.len() && self.thresholds[i] < r
            invariant
                i <= self.thresholds@.len(),
                degree_for(self.thresholds@, r, 0, k as nat) == degree_for(
                    self.thresholds@,
                    r,
                    i as nat,
                    k as nat,
                ),
            decreases self.thresholds@.len() - i,
        {
            i += 1;
        }
        if i >= k {
            k
        } else {
            i + 1
        }
    }

    /// The next repair symbol as it is sent.
    fn repair_symbol(&mut self) -> (wire: Vec<u8>)
        requires
            old(self).wf(),
            old(self).repairs() < u64::MAX,
        ensures
            final(self).wf(),
            final(self).sources() == old(self).sources(),
            final(self).size() == old(self).size(),
            final(self).generation() == old(self).generation(),
            final(self).degrees() == old(self).degrees(),
            final(self).repairs() == old(self).repairs() + 1,
            wire@ == repair_wire(
                old(self).sources(),
                old(self).size(),
                old(self).degrees(),
                old(self).generation(),
                (old(self).repairs() + 1) as u64,
            ),
    {
        proof {
            self.lemma_wf();
        }
        let k: usize = self.source.k();
        let sym: usize = self.source.symbol_size();
        self.repair_index = self.repair_index + 1;
        let seed: u64 = ((self.generation as u64) << 40u64) | self.repair_index;
        let mut drng: ImplRng = ImplRng::new(seed);
        let high: u64 = drng.next_u64() >> 11u64;
        let degree: usize = self.soliton_degree(high);
        let mut chosen: Vec<usize> = Vec::new();
        let mut guard: u128 = 0;
        let limit: u128 = 10u128 * (k as u128);
        let ghost source = self.sources();
        let ghost plan = repair_sources(self.degrees(), k as nat, self.generation, self.repair_index);
        assert(indices(chosen@) =~= Seq::<int>::empty());
        while chosen.len() < degree && guard < limit
            invariant
                k > 0,
                limit == 10 * k,
                guard <= limit,
                forall|q: int| 0 <= q < chosen@.len() ==> (#[trigger] chosen@[q]) < k,
                plan == picked_sources(
                    drng.state,
                    k as nat,
                    degree as nat,
                    indices(chosen@),
                    guard as nat,
                ),
            decreases limit - guard,
        {
            let idx: usize = drng.next_below(k);
            let mut seen: bool = false;
            let mut q: usize = 0;
            while q < chosen.len()
                invariant
                    q <= chosen@.len(),
                    seen <==> exists|w: int| 0 <= w < q && chosen@[w] == idx,
                decreases chosen@.len() - q,
            {
                if chosen[q] == idx {
                    seen = true;
                }
                q += 1;
            }
            proof {
                let before = indices(chosen@);
                if seen {
                    let w = choose|w: int| 0 <= w < q && chosen@[w] == idx;
                    assert(before[w] == idx as int);
                }
                if before.contains(idx as int) {
                    let w = choose|w: int| 0 <= w < before.len() && before[w] == idx as int;
                    assert(chosen@[w] == idx);
                }
                assert(indices(chosen@.push(idx)) =~= before.push(idx as int));
            }
            if !seen {
                chosen.push(idx);
            }
            guard = guard + 1;
        }
        assert(plan == (indices(chosen@), drng.state));
        let ghost state0 = drng.state;
        let mut coeffs: Vec<u8> = Vec::new();
        let mut i: usize = 0;
        while i < chosen.len()
            invariant
                i <= chosen@.len(),
                coeffs@ == drawn_coeffs(state0, i as nat),
                drng.state == state_after(state0, i as nat),
            decreases chosen@.len() - i,
        {
            let x: u64 = drng.next_u64();
            proof {
                reveal_with_fuel(state_after, 2);
            }
            let b: u8 = (x as u8) | 1;
            coeffs.push(b);
            i += 1;
            assert(coeffs@ =~= drawn_coeffs(state0, i as nat));
        }
        let mut payload: Vec<u8> = vec![0u8; sym];
        let mut i: usize = 0;
        assert(payload@ =~= blended(source, indices(chosen@), coeffs@, sym as int, 0));
        while i < chosen.len()
            invariant
                i <= chosen@.len(),
                coeffs@.len() == chosen@.len(),
                self.wf(),
                self.source.symbols() == source,
                self.source.wf(),
                source.len() == k,
                forall|q: int| 0 <= q < chosen@.len() ==> (#[trigger] chosen@[q]) < k,
                payload@ == blended(source, indices(chosen@), coeffs@, sym as int, i as nat),
            decreases chosen@.len() - i,
        {
            let at: usize = chosen[i];
            gf256::axpy(payload.as_mut_slice(), coeffs[i], self.source.src(at));
            i += 1;
        }
        frame(&chosen, &coeffs, &payload)
    }

    /// `count` symbols as they are sent: first the sources, then repair symbols.
    pub fn produce(&mut self, count: usize) -> (r: Result<Vec<Vec<u8>>, FountainError>)
        requires
            old(self).wf(),
            old(self).repairs() + count <= u64::MAX,
        ensures
            final(self).wf(),
            final(self).sources() == old(self).sources(),
            final(self).size() == old(self).size(),
            final(self).generation() == old(self).generation(),
            final(self).degrees() == old(self).degrees(),
            final(self).repairs() == old(self).repairs() + (if count > old(self).sources().len() {
                count - old(self).sources().len()
            } else {
                0
            }),
            r is Ok,
            r->Ok_0@.len() == count,
            forall|i: int|
                0 <= i < count ==> (#[trigger] r->Ok_0@[i])@ == produced_wire(
                    old(self).sources(),
                    old(self).size(),
                    old(self).degrees(),
                    old(self).generation(),
                    old(self).repairs(),
                    i,
                ),
    {
        let k: usize = self.source.k();
        let mut out: Vec<Vec<u8>> = Vec::new();
        let direct: usize = if count < k {
            count
        } else {
            k
        };
        let ghost source = self.sources();
        let ghost size = self.size();
        let ghost degrees = self.degrees();
        let ghost generation = self.generation();
        let ghost repairs = self.repairs();
        let mut i: usize = 0;
        while i < direct
            invariant
                i <= direct,
                direct <= k,
                k == source.len(),
                self.wf(),
                self.source.wf(),
                self.source.symbols() == source,
                self.sources() == source,
                self.size() == size,
                self.degrees() == degrees,
                self.generation() == generation,
                self.repairs() == repairs,
                out@.len() == i,
                forall|q: int|
                    0 <= q < i ==> (#[trigger] out@[q])@ == produced_wire(
                        source,
                        size,
                        degrees,
                        generation,
                        repairs,
                        q,
                    ),
            decreases direct - i,
        {
            let mut chosen: Vec<usize> = Vec::new();
            chosen.push(i);
            let mut coeffs: Vec<u8> = Vec::new();
            coeffs.push(1);
            let mut payload: Vec<u8> = Vec::new();
            payload.extend_from_slice(self.source.src(i));
            assert(payload@ =~= source[i as int]);
            assert(indices(chosen@) =~= seq![i as int]);
            assert(coeffs@ =~= seq![1u8]);
            out.push(frame(&chosen, &coeffs, &payload));
            i += 1;
        }
        while i < count
            invariant
                direct <= i,
                i <= count || i == direct,
                direct == k || count <= direct,
                direct <= count,
                k == source.len(),
                self.wf(),
                self.sources() == source,
                self.size() == size,
                self.degrees() == degrees,
                self.generation() == generation,
                self.repairs() == repairs + (i - direct),
                repairs + count <= u64::MAX,
                out@.len() == i,
                forall|q: int|
                    0 <= q < i ==> (#[trigger] out@[q])@ == produced_wire(
                        source,
                        size,
                        degrees,
                        generation,
                        repairs,
                        q,
                    ),
            decreases count - i,
        {
            let wire: Vec<u8> = self.repair_symbol();
            out.push(wire);
            i += 1;
        }
        Ok(out)
    }
}

/// Symbol `i` of a batch: source `i`, or after the sources the next repair symbol.
pub open spec fn produced_wire(
    source: Seq<Seq<u8>>,
    s: int,
    thresholds: Seq<u64>,
    generation: u32,
    repairs: u64,
    i: int,
) -> Seq<u8> {
    if i < source.len() {
        systematic_wire(source, i)
    } else {
        repair_wire(
            source,
            s,
            thresholds,
            generation,
            (repairs + (i - source.len()) + 1) as u64,
        )
    }
}

/// The positions as integers.
pub open spec fn indices(v: Seq<usize>) -> Seq<int> {
    Seq::new(v.len(), |i: int| v[i] as int)
}

/// Append the two little-endian bytes of `n`.
fn push_le16(buf: &mut Vec<u8>, n: usize)
    ensures
        final(buf)@ == old(buf)@ + le16(n as int),
{
    let ghost before = buf@;
    buf.push((n % 256) as u8);
    buf.push(((n / 256) % 256) as u8);
    assert(buf@ =~= before + le16(n as int));
}

/// A coded symbol as it is sent.
fn frame(chosen: &Vec<usize>, coeffs: &Vec<u8>, payload: &Vec<u8>) -> (buf: Vec<u8>)
    requires
        coeffs@.len() == chosen@.len(),
    ensures
        buf@ == wire_format(indices(chosen@), coeffs@, payload@),
{
    let mut buf: Vec<u8> = Vec::new();
    push_le16(&mut buf, chosen.len());
    assert(buf@ =~= le16(chosen@.len() as int) + pair_bytes(indices(chosen@), coeffs@, 0));
    let mut i: usize = 0;
    while i < chosen.len()
        invariant
            i <= chosen@.len(),
            coeffs@.len() == chosen@.len(),
            buf@ == le16(chosen@.len() as int) + pair_bytes(indices(chosen@), coeffs@, i as nat),
        decreases chosen@.len() - i,
    {
        push_le16(&mut buf, chosen[i]);
        buf.push(coeffs[i]);
        i += 1;
        assert(buf@ =~= le16(chosen@.len() as int) + pair_bytes(
            indices(chosen@),
            coeffs@,
            i as nat,
        ));
    }
    buf.extend_from_slice(payload.as_slice());
    assert(buf@ =~= wire_format(indices(chosen@), coeffs@, payload@));
    buf
}

/// Where each pair lies among the pairs.
#[verifier::spinoff_prover]
proof fn lemma_pair_bytes(chosen: Seq<int>, coeffs: Seq<u8>, n: nat)
    ensures
        pair_bytes(chosen, coeffs, n).len() == 3 * n,
        forall|i: int|
            0 <= i < n ==> pair_bytes(chosen, coeffs, n)[3 * i] == le16(#[trigger] chosen[i])[0]
                && pair_bytes(chosen, coeffs, n)[3 * i + 1] == le16(chosen[i])[1] && pair_bytes(
                chosen,
                coeffs,
                n,
            )[3 * i + 2] == coeffs[i],
    decreases n,
{
    if n > 0 {
        let m = n - 1;
        let front = pair_bytes(chosen, coeffs, m as nat);
        let all = pair_bytes(chosen, coeffs, n);
        lemma_pair_bytes(chosen, coeffs, m as nat);
        assert(all == front + le16(chosen[m]) + seq![coeffs[m]]);
        assert forall|i: int| 0 <= i < n implies all[3 * i] == le16(#[trigger] chosen[i])[0] && all[3 * i
            + 1] == le16(chosen[i])[1] && all[3 * i + 2] == coeffs[i] by {
            if i < m {
                assert(all[3 * i] == front[3 * i]);
                assert(all[3 * i + 1] == front[3 * i + 1]);
                assert(all[3 * i + 2] == front[3 * i + 2]);
            }
        }
    }
}

/// Two bytes give back a number below 2^16.
proof fn lemma_le16(n: int)
    requires
        0 <= n < 65536,
    ensures
        from_le16(le16(n)[0], le16(n)[1]) == n,
{
}

/// Setting a coefficient that was zero adds its term to the inner product.
proof fn lemma_dot_set(r: Seq<u8>, y: Seq<u8>, t: int, c: u8)
    requires
        0 <= t < r.len(),
        r[t] == 0,
    ensures
        dot(r.update(t, c), y) == dot(r, y) ^ product(c, y[t]),
{
    let w = r.update(t, c);
    assert(w.update(t, 0) =~= r);
    lemma_dot_clear(w, y, t);
    let a = dot(w, y);
    let p = product(c, y[t]);
    sum_laws(a, p, p);
    sum_laws(p, 0, 0);
    sum_laws(a, 0, 0);
}

/// The coefficients read from a sent symbol combine the sources to its payload.
proof fn lemma_wire_combines(
    source: Seq<Seq<u8>>,
    chosen: Seq<int>,
    coeffs: Seq<u8>,
    s: int,
    wire: Seq<u8>,
    n: nat,
)
    requires
        shaped(source, source.len() as int, s),
        source.len() <= 65535,
        0 <= s,
        n <= chosen.len(),
        coeffs.len() == chosen.len(),
        forall|i: int| 0 <= i < chosen.len() ==> 0 <= #[trigger] chosen[i] < source.len(),
        forall|i: int, j: int| 0 <= i < j < chosen.len() ==> chosen[i] != chosen[j],
        forall|i: int| 0 <= i < coeffs.len() ==> #[trigger] coeffs[i] != 0,
        forall|i: int|
            0 <= i < chosen.len() ==> from_le16(wire[2 + 3 * i], wire[2 + 3 * i + 1])
                == #[trigger] chosen[i] && wire[2 + 3 * i + 2] == coeffs[i],
    ensures
        wire_coeffs(wire, n, source.len() as int).len() == source.len(),
        forall|j: int|
            0 <= j < source.len() && (forall|i: int| 0 <= i < n ==> chosen[i] != j)
                ==> #[trigger] wire_coeffs(wire, n, source.len() as int)[j] == 0,
        blended(source, chosen, coeffs, s, n).len() == s,
        forall|t: int|
            0 <= t < s ==> #[trigger] blended(source, chosen, coeffs, s, n)[t] == dot(
                wire_coeffs(wire, n, source.len() as int),
                column(source, t),
            ),
    decreases n,
{
    let k = source.len() as int;
    if n == 0 {
        assert forall|t: int| 0 <= t < s implies #[trigger] blended(source, chosen, coeffs, s, n)[t]
            == dot(wire_coeffs(wire, n, k), column(source, t)) by {
            lemma_dot_none(wire_coeffs(wire, n, k), column(source, t));
        }
    } else {
        let m = (n - 1) as nat;
        lemma_wire_combines(source, chosen, coeffs, s, wire, m);
        let prev = wire_coeffs(wire, m, k);
        let idx = chosen[m as int];
        let c = coeffs[m as int];
        assert(prev[idx] == 0);
        assert(wire_coeffs(wire, n, k) == prev.update(idx, c));
        assert(source[idx].len() == s);
        assert forall|t: int| 0 <= t < s implies #[trigger] blended(source, chosen, coeffs, s, n)[t]
            == dot(wire_coeffs(wire, n, k), column(source, t)) by {
            assert(blended(source, chosen, coeffs, s, m)[t] == dot(prev, column(source, t)));
            lemma_dot_set(prev, column(source, t), idx, c);
        }
    }
}

/// The sources picked for a repair symbol are distinct sources.
proof fn lemma_picked(state: u64, k: nat, degree: nat, chosen: Seq<int>, guard: nat)
    requires
        k > 0,
        chosen.len() <= degree <= k,
        forall|i: int| 0 <= i < chosen.len() ==> 0 <= #[trigger] chosen[i] < k,
        forall|i: int, j: int| 0 <= i < j < chosen.len() ==> chosen[i] != chosen[j],
    ensures
        ({
            let out = picked_sources(state, k, degree, chosen, guard).0;
            &&& out.len() <= k
            &&& forall|i: int| 0 <= i < out.len() ==> 0 <= #[trigger] out[i] < k
            &&& forall|i: int, j: int| 0 <= i < j < out.len() ==> out[i] != out[j]
        }),
    decreases 10 * k - guard,
{
    if chosen.len() < degree && guard < 10 * k {
        let next = state_after(state, 1);
        let idx = below(next, k as int);
        assert(0 <= idx < k);
        let grown = if chosen.contains(idx) {
            chosen
        } else {
            chosen.push(idx)
        };
        assert forall|i: int, j: int| 0 <= i < j < grown.len() implies grown[i] != grown[j] by {
            if j == chosen.len() && grown.len() > chosen.len() {
                assert(!chosen.contains(idx));
                assert(chosen[i] != idx);
            }
        }
        lemma_picked(next, k, degree, grown, guard + 1);
    }
}

proof fn lemma_degree_range(thresholds: Seq<u64>, r: u64, i: nat, k: nat)
    requires
        k > 0,
    ensures
        1 <= degree_for(thresholds, r, i, k) <= k,
    decreases thresholds.len() - i,
{
    if i < thresholds.len() && thresholds[i as int] < r {
        lemma_degree_range(thresholds, r, i + 1, k);
    }
}

/// Where the parts of a sent symbol lie.
#[verifier::spinoff_prover]
#[verifier::rlimit(40)]
proof fn lemma_layout(chosen: Seq<int>, coeffs: Seq<u8>, payload: Seq<u8>, i: int)
    requires
        chosen.len() <= 65535,
        coeffs.len() == chosen.len(),
        0 <= i < chosen.len() ==> 0 <= chosen[i] < 65536,
    ensures
        ({
            let wire = wire_format(chosen, coeffs, payload);
            &&& wire_pairs(wire) == chosen.len()
            &&& wire.len() == wire_header(wire) + payload.len()
            &&& wire.subrange(wire_header(wire), wire_header(wire) + payload.len()) == payload
            &&& 0 <= i < chosen.len() ==> from_le16(wire[2 + 3 * i], wire[2 + 3 * i + 1])
                == chosen[i] && wire[2 + 3 * i + 2] == coeffs[i]
        }),
{
    let wire = wire_format(chosen, coeffs, payload);
    let n = chosen.len();
    let pairs = pair_bytes(chosen, coeffs, n);
    lemma_pair_bytes(chosen, coeffs, n);
    lemma_le16(n as int);
    assert(wire[0] == le16(n as int)[0] && wire[1] == le16(n as int)[1]);
    assert(wire.subrange(wire_header(wire), wire_header(wire) + payload.len()) =~= payload);
    if 0 <= i < n {
        lemma_le16(chosen[i]);
        assert(wire[2 + 3 * i] == pairs[3 * i]);
        assert(wire[2 + 3 * i + 1] == pairs[3 * i + 1]);
        assert(wire[2 + 3 * i + 2] == pairs[3 * i + 2]);
    }
}

/// The combination of the sources `x` that a coded symbol speaks of is what it
/// carries.
pub open spec fn wire_true(wire: Seq<u8>, x: Seq<Seq<u8>>, s: int) -> bool {
    forall|t: int|
        0 <= t < s ==> #[trigger] wire.subrange(wire_header(wire), wire_header(wire) + s)[t] == dot(
            wire_coeffs(wire, wire_pairs(wire), x.len() as int),
            column(x, t),
        )
}

/// A sent symbol read back: the sources satisfy it.
proof fn lemma_read_back(source: Seq<Seq<u8>>, chosen: Seq<int>, coeffs: Seq<u8>, s: int)
    requires
        shaped(source, source.len() as int, s),
        0 < source.len() <= 65535,
        0 <= s,
        chosen.len() <= source.len(),
        coeffs.len() == chosen.len(),
        forall|i: int| 0 <= i < chosen.len() ==> 0 <= #[trigger] chosen[i] < source.len(),
        forall|i: int, j: int| 0 <= i < j < chosen.len() ==> chosen[i] != chosen[j],
        forall|i: int| 0 <= i < coeffs.len() ==> #[trigger] coeffs[i] != 0,
    ensures
        ({
            let wire = wire_format(
                chosen,
                coeffs,
                blended(source, chosen, coeffs, s, chosen.len()),
            );
            &&& wire.len() == wire_header(wire) + s
            &&& wire_true(wire, source, s)
        }),
{
    let payload = blended(source, chosen, coeffs, s, chosen.len());
    let wire = wire_format(chosen, coeffs, payload);
    let n = chosen.len();
    assert forall|i: int| 0 <= i < n implies from_le16(wire[2 + 3 * i], wire[2 + 3 * i + 1])
        == #[trigger] chosen[i] && wire[2 + 3 * i + 2] == coeffs[i] by {
        lemma_layout(chosen, coeffs, payload, i);
    }
    lemma_layout(chosen, coeffs, payload, -1);
    lemma_wire_combines(source, chosen, coeffs, s, wire, n);
    assert(payload.len() == s);
    assert(wire.subrange(wire_header(wire), wire_header(wire) + s) == payload);
    assert forall|t: int| 0 <= t < s implies #[trigger] wire.subrange(
        wire_header(wire),
        wire_header(wire) + s,
    )[t] == dot(wire_coeffs(wire, wire_pairs(wire), source.len() as int), column(source, t)) by {
        assert(payload[t] == dot(wire_coeffs(wire, n, source.len() as int), column(source, t)));
    }
}

/// A source sent as it is says what that source is.
pub proof fn lemma_systematic(source: Seq<Seq<u8>>, i: int, s: int)
    requires
        shaped(source, source.len() as int, s),
        0 <= i < source.len() <= 65535,
        0 <= s,
    ensures
        ({
            let wire = systematic_wire(source, i);
            &&& wire.len() == wire_header(wire) + s
            &&& wire_true(wire, source, s)
            &&& wire_coeffs(wire, wire_pairs(wire), source.len() as int) == unit(source.len(), i)
        }),
{
    let chosen = seq![i];
    let coeffs = seq![1u8];
    assert(source[i].len() == s);
    assert(blended(source, chosen, coeffs, s, 1) =~= source[i]) by {
        reveal_with_fuel(blended, 2);
        assert forall|t: int| 0 <= t < s implies blended(source, chosen, coeffs, s, 1)[t]
            == source[i][t] by {
            product_units(source[i][t]);
            sum_laws(source[i][t], 0, 0);
        }
    }
    lemma_read_back(source, chosen, coeffs, s);
    lemma_layout(chosen, coeffs, source[i], 0);
    let wire = systematic_wire(source, i);
    reveal_with_fuel(wire_coeffs, 2);
    assert(wire_coeffs(wire, 1, source.len() as int) =~= unit(source.len(), i));
}

/// Every symbol an encoder produces is as long as a decoder asks for and says
/// something true about the sources.
pub proof fn lemma_produced_wire(
    source: Seq<Seq<u8>>,
    s: int,
    thresholds: Seq<u64>,
    generation: u32,
    repairs: u64,
    i: int,
)
    requires
        shaped(source, source.len() as int, s),
        0 < source.len() <= 65535,
        0 <= s,
        0 <= i,
    ensures
        ({
            let wire = produced_wire(source, s, thresholds, generation, repairs, i);
            &&& wire.len() == wire_header(wire) + s
            &&& wire_true(wire, source, s)
        }),
{
    let k = source.len();
    if i < k {
        lemma_systematic(source, i, s);
    } else {
        let index = (repairs + (i - k) + 1) as u64;
        let first = state_after(seed_state(repair_seed(generation, index)), 1);
        let degree = repair_degree(thresholds, k, generation, index);
        lemma_degree_range(thresholds, drawn(first) >> 11u64, 0, k);
        lemma_picked(first, k, degree, Seq::empty(), 0);
        let (chosen, state) = repair_sources(thresholds, k, generation, index);
        let coeffs = drawn_coeffs(state, chosen.len());
        assert forall|q: int| 0 <= q < coeffs.len() implies #[trigger] coeffs[q] != 0 by {
            let b = drawn(state_after(state, (q + 1) as nat)) as u8;
            assert(b | 1u8 != 0) by (bit_vector);
        }
        lemma_read_back(source, chosen, coeffs, s);
    }
}

/// `sym` is what a decoder for the generation keeps of `wire`.
pub open spec fn parsed_from(sym: CodedSymbol, wire: Seq<u8>, k: int, s: int) -> bool {
    &&& sym.coeffs@ == wire_coeffs(wire, wire_pairs(wire), k)
    &&& sym.payload@ == wire.subrange(wire_header(wire), wire_header(wire) + s)
}

/// Every symbol an encoder produces says something true about its sources: read
/// back by a decoder, it is satisfied by them. It is also as long as a decoder
/// asks for.
pub proof fn produced_symbols_are_true(
    source: Seq<Seq<u8>>,
    s: int,
    thresholds: Seq<u64>,
    generation: u32,
    repairs: u64,
    i: int,
    sym: CodedSymbol,
)
    requires
        shaped(source, source.len() as int, s),
        0 < source.len() <= 65535,
        0 <= s,
        0 <= i,
        parsed_from(
            sym,
            produced_wire(source, s, thresholds, generation, repairs, i),
            source.len() as int,
            s,
        ),
    ensures
        satisfied(sym, source, s),
        ({
            let wire = produced_wire(source, s, thresholds, generation, repairs, i);
            wire.len() == wire_header(wire) + s
        }),
{
    lemma_produced_wire(source, s, thresholds, generation, repairs, i);
}

/// As many independent symbols as there are sources are needed, and they suffice:
/// symbols determine the sources just when the rank of their coefficients is the
/// number of the sources. No fewer symbols have that rank.
pub proof fn rank_alone_decides(syms: Seq<CodedSymbol>, k: int, s: int)
    requires
        0 <= k,
        well_shaped(syms, k, s),
    ensures
        decodable(syms, k) <==> has_rank(coeff_rows(syms), k, k),
        decodable(syms, k) ==> k <= syms.len(),
{
    let rows = coeff_rows(syms);
    assert forall|i: int| 0 <= i < rows.len() implies (#[trigger] rows[i]).len() == k by {
        assert(syms[i].coeffs@.len() == k);
    }
    independence_is_a_matter_of_rank(rows, k);
    assert forall|v: Seq<u8>| v.len() == k implies (#[trigger] orthogonal(syms, v) <==> kernel(
        rows,
        k,
        v,
    )) by {
        assert forall|i: int| 0 <= i < rows.len() implies (#[trigger] rows[i]).take(k)
            == syms[i].coeffs@ by {
            assert(syms[i].coeffs@.len() == k);
            assert(rows[i].take(k) =~= syms[i].coeffs@);
        }
        if orthogonal(syms, v) {
            assert forall|i: int| 0 <= i < rows.len() implies dot((#[trigger] rows[i]).take(k), v) == 0 by {
                assert(dot(syms[i].coeffs@, v) == 0);
            }
        }
        if kernel(rows, k, v) {
            assert forall|i: int| 0 <= i < syms.len() implies dot((#[trigger] syms[i]).coeffs@, v) == 0 by {
                assert(dot(rows[i].take(k), v) == 0);
            }
        }
    }
    assert(decodable(syms, k) <==> full_rank(rows, k)) by {
        if decodable(syms, k) {
            assert forall|v: Seq<u8>| v.len() == k && #[trigger] kernel(rows, k, v) implies is_zero(v) by {
                assert(orthogonal(syms, v));
            }
        }
        if full_rank(rows, k) {
            assert forall|v: Seq<u8>| v.len() == k && #[trigger] orthogonal(syms, v) implies is_zero(v) by {
                assert(kernel(rows, k, v));
            }
        }
    }
}

/// Symbols that determine the sources still do when more of them come in.
pub proof fn more_symbols_never_hurt(syms: Seq<CodedSymbol>, more: Seq<CodedSymbol>, k: int)
    requires
        decodable(syms, k),
    ensures
        decodable(syms + more, k),
{
    let all = syms + more;
    assert forall|v: Seq<u8>| v.len() == k && #[trigger] orthogonal(all, v) implies is_zero(v) by {
        assert forall|i: int| 0 <= i < syms.len() implies dot((#[trigger] syms[i]).coeffs@, v) == 0 by {
            assert(all[i] == syms[i]);
            assert(dot(all[i].coeffs@, v) == 0);
        }
        assert(orthogonal(syms, v));
    }
}

/// What a decoder gives back of what an encoder sent: whichever produced
/// symbols arrived, in whichever order and however often, the sources explain
/// them, and whatever as many independent ones as there are sources back is the
/// sources.
pub proof fn decoding_returns_the_sources(
    source: Seq<Seq<u8>>,
    s: int,
    thresholds: Seq<u64>,
    generation: u32,
    repairs: u64,
    arrived: Seq<int>,
    syms: Seq<CodedSymbol>,
)
    requires
        shaped(source, source.len() as int, s),
        0 < source.len() <= 65535,
        0 <= s,
        syms.len() == arrived.len(),
        forall|q: int|
            0 <= q < syms.len() ==> 0 <= #[trigger] arrived[q] && parsed_from(
                syms[q],
                produced_wire(source, s, thresholds, generation, repairs, arrived[q]),
                source.len() as int,
                s,
            ),
    ensures
        consistent(syms, source, s),
        forall|x: Seq<Seq<u8>>|
            shaped(x, source.len() as int, s) && #[trigger] backed(
                sym_rows(syms),
                source.len() as int,
                s,
                x,
            ) ==> x == source,
{
    assert forall|q: int| 0 <= q < syms.len() implies satisfied(#[trigger] syms[q], source, s) by {
        produced_symbols_are_true(
            source,
            s,
            thresholds,
            generation,
            repairs,
            arrived[q],
            syms[q],
        );
    }
    let k = source.len() as int;
    let rows = sym_rows(syms);
    assert forall|x: Seq<Seq<u8>>| shaped(x, k, s) && #[trigger] backed(rows, k, s, x) implies x
        == source by {
        let at = choose|at: Seq<int>| #[trigger] settled(rows, at, k, s, x);
        let some = rows_at(rows, at);
        assert forall|i: int| 0 <= i < some.len() implies (#[trigger] some[i]).take(k)
            == syms[at[i]].coeffs@ && some[i].len() == k + syms[at[i]].payload@.len()
            && syms[at[i]].payload@.len() == s by {
            assert(0 <= at[i] < rows.len());
            let q = at[i];
            assert(0 <= arrived[q]);
            produced_symbols_are_true(
                source,
                s,
                thresholds,
                generation,
                repairs,
                arrived[q],
                syms[q],
            );
            lemma_wire_coeffs_len(
                produced_wire(source, s, thresholds, generation, repairs, arrived[q]),
                wire_pairs(
                    produced_wire(source, s, thresholds, generation, repairs, arrived[q]),
                ),
                k,
            );
            assert(some[i].take(k) =~= syms[q].coeffs@);
        }
        assert forall|i: int, t: int| 0 <= i < some.len() && 0 <= t < s implies dot(
            (#[trigger] some[i]).take(k),
            #[trigger] column(source, t),
        ) == some[i][k + t] by {
            assert(0 <= at[i] < rows.len());
            assert(some[i].take(k) == syms[at[i]].coeffs@);
            assert(satisfied(syms[at[i]], source, s));
            assert(syms[at[i]].payload@[t] == dot(syms[at[i]].coeffs@, column(source, t)));
            assert(some[i][k + t] == syms[at[i]].payload@[t]);
        }
        one_solution_at_most(some, k, s, x, source);
    }
}

} // verus!
