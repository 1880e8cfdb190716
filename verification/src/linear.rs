//! Linear algebra over GF(2^8): vectors, rows and echelon forms.
use crate::gf256::{
    product,
    product_associates,
    product_distributes,
    product_units,
    sum_laws,
};
use crate::gf256::{gf_gauss_eliminate, product_zero};
use vstd::prelude::*;

verus! {

/// The inner product of `r` with the first entries of `y`.
pub open spec fn dot(r: Seq<u8>, y: Seq<u8>) -> u8
    decreases r.len(),
{
    if r.len() == 0 {
        0
    } else {
        dot(r.drop_last(), y) ^ product(r.last(), y[r.len() - 1])
    }
}

/// `y` is orthogonal to every row.
pub open spec fn cancels(rows: Seq<Seq<u8>>, y: Seq<u8>) -> bool {
    forall|i: int| 0 <= i < rows.len() ==> dot(#[trigger] rows[i], y) == 0
}

/// `a * r`.
pub open spec fn vec_scale(a: u8, r: Seq<u8>) -> Seq<u8> {
    Seq::new(r.len(), |i: int| product(a, r[i]))
}

/// `r + a * s`.
pub open spec fn vec_combine(a: u8, s: Seq<u8>, r: Seq<u8>) -> Seq<u8> {
    Seq::new(r.len(), |i: int| r[i] ^ product(a, s[i]))
}

/// The first `n` rows of `l` bytes of a flat matrix.
pub open spec fn rows_of(mat: Seq<u8>, l: int, n: int) -> Seq<Seq<u8>> {
    Seq::new(n as nat, |i: int| mat.subrange(i * l, i * l + l))
}

/// The columns before `col` are in reduced row echelon form, with the leading
/// ones of the first rows at `pivots`.
pub open spec fn reduced(rows: Seq<Seq<u8>>, pivots: Seq<int>, col: int) -> bool {
    &&& pivots.len() <= rows.len()
    &&& forall|r: int|
        0 <= r < pivots.len() ==> 0 <= #[trigger] pivots[r] < col && rows[r][pivots[r]] == 1
    &&& forall|r: int, i: int|
        0 <= r < pivots.len() && 0 <= i < rows.len() && i != r
            ==> #[trigger] rows[i][pivots[r]] == 0
    &&& forall|r: int, c: int|
        0 <= r < pivots.len() && 0 <= c < pivots[r] ==> #[trigger] rows[r][c] == 0
    &&& forall|r: int, t: int| 0 <= r < t < pivots.len() ==> pivots[r] < pivots[t]
    &&& forall|i: int, c: int|
        pivots.len() <= i < rows.len() && 0 <= c < col ==> #[trigger] rows[i][c] == 0
}

/// The first `k` columns are in reduced row echelon form with `rank` pivots.
pub open spec fn is_reduced(rows: Seq<Seq<u8>>, k: int, rank: int) -> bool {
    exists|pivots: Seq<int>| #[trigger] reduced(rows, pivots, k) && pivots.len() == rank
}

/// The rows at the positions `at`.
pub open spec fn rows_at(rows: Seq<Seq<u8>>, at: Seq<int>) -> Seq<Seq<u8>> {
    Seq::new(at.len(), |i: int| rows[at[i]])
}

/// Positions below `n`, no two of them the same.
pub open spec fn apart(at: Seq<int>, n: int) -> bool {
    &&& forall|i: int| 0 <= i < at.len() ==> 0 <= #[trigger] at[i] < n
    &&& forall|i: int, j: int| 0 <= i < j < at.len() ==> at[i] != at[j]
}

/// The first rows of `after` say what the rows of `before` at the positions `at`
/// say: the same vectors of length `l` are orthogonal to them.
pub open spec fn led_by(before: Seq<Seq<u8>>, at: Seq<int>, after: Seq<Seq<u8>>, l: int) -> bool {
    &&& at.len() <= after.len()
    &&& apart(at, before.len() as int)
    &&& forall|y: Seq<u8>|
        y.len() == l ==> (cancels(rows_at(before, at), y) <==> #[trigger] cancels(
            after.take(at.len() as int),
            y,
        ))
}

/// Where row `r` of `n` rows of length `l` lies.
pub proof fn lemma_row_bounds(r: int, l: int, n: int)
    requires
        0 <= r < n,
        0 <= l,
    ensures
        0 <= r * l,
        r * l + l <= n * l,
        forall|i: int|
            0 <= i && i != r ==> #[trigger] (i * l) + l <= r * l || r * l + l <= i * l,
{
    assert(0 <= r * l && r * l + l <= n * l) by (nonlinear_arith)
        requires
            0 <= r < n,
            0 <= l,
    ;
    assert forall|i: int| 0 <= i && i != r implies #[trigger] (i * l) + l <= r * l || r * l + l <= i
        * l by {
        if i < r {
            assert((i * l) + l <= r * l) by (nonlinear_arith)
                requires
                    i < r,
                    0 <= l,
            ;
        } else {
            assert(r * l + l <= i * l) by (nonlinear_arith)
                requires
                    r < i,
                    0 <= l,
            ;
        }
    }
}

/// Every row has length `l`.
pub proof fn lemma_rows_len(mat: Seq<u8>, l: int, n: int)
    requires
        0 <= l,
        n * l <= mat.len(),
    ensures
        forall|i: int| 0 <= i < n ==> (#[trigger] rows_of(mat, l, n)[i]).len() == l,
{
    assert forall|i: int| 0 <= i < n implies (#[trigger] rows_of(mat, l, n)[i]).len() == l by {
        lemma_row_bounds(i, l, n);
    }
}

/// Rewriting only the bytes of row `r` updates that row and no other.
pub proof fn lemma_rows_update(
    before: Seq<u8>,
    after: Seq<u8>,
    l: int,
    n: int,
    r: int,
    row: Seq<u8>,
)
    requires
        0 <= r < n,
        0 <= l,
        n * l <= before.len(),
        before.len() == after.len(),
        row.len() == l,
        forall|p: int|
            0 <= p < before.len() && !(r * l <= p < r * l + l) ==> #[trigger] after[p]
                == before[p],
        forall|c: int| 0 <= c < l ==> #[trigger] after[r * l + c] == row[c],
    ensures
        rows_of(after, l, n) == rows_of(before, l, n).update(r, row),
{
    lemma_row_bounds(r, l, n);
    let left = rows_of(after, l, n);
    let right = rows_of(before, l, n).update(r, row);
    assert forall|i: int| 0 <= i < n implies left[i] == right[i] by {
        lemma_row_bounds(i, l, n);
        if i != r {
            assert(left[i] =~= right[i]);
        } else {
            assert(left[i] =~= right[i]) by {
                assert forall|c: int| 0 <= c < l implies left[i][c] == row[c] by {
                    assert(after[r * l + c] == row[c]);
                }
            }
        }
    }
    assert(left =~= right);
}

/// Replacing a row by one that is orthogonal to the same `y` changes nothing.
pub proof fn lemma_cancels_update(rows: Seq<Seq<u8>>, r: int, row: Seq<u8>, y: Seq<u8>)
    requires
        0 <= r < rows.len(),
        dot(row, y) == 0 <==> dot(rows[r], y) == 0,
    ensures
        cancels(rows.update(r, row), y) <==> cancels(rows, y),
{
    let new = rows.update(r, row);
    if cancels(rows, y) {
        assert(dot(rows[r], y) == 0);
        assert forall|i: int| 0 <= i < new.len() implies dot(#[trigger] new[i], y) == 0 by {
            assert(dot(rows[i], y) == 0);
        }
    }
    if cancels(new, y) {
        assert(dot(new[r], y) == 0);
        assert forall|i: int| 0 <= i < rows.len() implies dot(#[trigger] rows[i], y) == 0 by {
            assert(dot(new[i], y) == 0);
        }
    }
}

/// `(a * r) . y == a * (r . y)`.
pub proof fn lemma_dot_scale(a: u8, r: Seq<u8>, y: Seq<u8>)
    ensures
        dot(vec_scale(a, r), y) == product(a, dot(r, y)),
    decreases r.len(),
{
    if r.len() == 0 {
        product_units(a);
    } else {
        let s = vec_scale(a, r);
        assert(s.drop_last() =~= vec_scale(a, r.drop_last()));
        lemma_dot_scale(a, r.drop_last(), y);
        let v = y[r.len() - 1];
        product_associates(a, r.last(), v);
        product_distributes(a, dot(r.drop_last(), y), product(r.last(), v));
    }
}

/// `(r + a * s) . y == r . y + a * (s . y)`.
pub proof fn lemma_dot_combine(a: u8, s: Seq<u8>, r: Seq<u8>, y: Seq<u8>)
    requires
        s.len() == r.len(),
    ensures
        dot(vec_combine(a, s, r), y) == dot(r, y) ^ product(a, dot(s, y)),
    decreases r.len(),
{
    if r.len() == 0 {
        product_units(a);
        sum_laws(0, 0, 0);
    } else {
        let w = vec_combine(a, s, r);
        assert(w.drop_last() =~= vec_combine(a, s.drop_last(), r.drop_last()));
        lemma_dot_combine(a, s.drop_last(), r.drop_last(), y);
        let v = y[r.len() - 1];
        let dr = dot(r.drop_last(), y);
        let ds = dot(s.drop_last(), y);
        let pr = product(r.last(), v);
        let ps = product(s.last(), v);
        product_associates(a, s.last(), v);
        product_distributes(a, ds, ps);
        crate::gf256::product_distributes_left(r.last(), product(a, s.last()), v);
        lemma_sum_swap(dr, product(a, ds), pr, product(a, ps));
    }
}

/// `(a + b) + (c + d) == (a + c) + (b + d)`.
pub proof fn lemma_sum_swap(a: u8, b: u8, c: u8, d: u8)
    ensures
        (a ^ b) ^ (c ^ d) == (a ^ c) ^ (b ^ d),
{
    assert((a ^ b) ^ (c ^ d) == (a ^ c) ^ (b ^ d)) by (bit_vector);
}

/// Appending one row to a flat matrix.
pub proof fn lemma_rows_push(mat: Seq<u8>, l: int, m: int, row: Seq<u8>)
    requires
        0 <= l,
        0 <= m,
        mat.len() == m * l,
        row.len() == l,
    ensures
        (mat + row).len() == (m + 1) * l,
        rows_of(mat + row, l, m + 1) == rows_of(mat, l, m).push(row),
{
    assert((m + 1) * l == m * l + l) by (nonlinear_arith);
    let left = rows_of(mat + row, l, m + 1);
    let right = rows_of(mat, l, m).push(row);
    assert forall|i: int| 0 <= i < m + 1 implies left[i] == right[i] by {
        lemma_row_bounds(i, l, m + 1);
        if i < m {
            lemma_row_bounds(i, l, m);
        }
        assert(left[i] =~= right[i]);
    }
    assert(left =~= right);
}

/// Every entry is zero.
pub open spec fn is_zero(v: Seq<u8>) -> bool {
    forall|j: int| 0 <= j < v.len() ==> v[j] == 0
}

/// The vector of length `n` with a one at `i` and zeros elsewhere.
pub open spec fn unit(n: nat, i: int) -> Seq<u8> {
    Seq::new(n, |j: int| if j == i { 1u8 } else { 0u8 })
}

/// `dot(a + b, w + z) == dot(a, w) + dot(b, z)`.
pub proof fn lemma_dot_concat(a: Seq<u8>, b: Seq<u8>, w: Seq<u8>, z: Seq<u8>)
    requires
        a.len() == w.len(),
        b.len() <= z.len(),
    ensures
        dot(a + b, w + z) == dot(a, w) ^ dot(b, z),
    decreases b.len(),
{
    if b.len() == 0 {
        assert(a + b =~= a);
        sum_laws(dot(a, w), 0, 0);
        lemma_dot_agree(a, w + z, w);
    } else {
        let ab = a + b;
        assert(ab.drop_last() =~= a + b.drop_last());
        lemma_dot_concat(a, b.drop_last(), w, z);
        assert((w + z)[ab.len() - 1] == z[b.len() - 1]);
        sum_laws(dot(a, w), dot(b.drop_last(), z), product(b.last(), z[b.len() - 1]));
    }
}

/// The inner product looks only at the entries that `r` reaches.
pub proof fn lemma_dot_agree(r: Seq<u8>, y: Seq<u8>, z: Seq<u8>)
    requires
        forall|i: int| 0 <= i < r.len() ==> y[i] == z[i],
    ensures
        dot(r, y) == dot(r, z),
    decreases r.len(),
{
    if r.len() > 0 {
        lemma_dot_agree(r.drop_last(), y, z);
    }
}

/// An inner product in which at most position `t` counts.
pub proof fn lemma_dot_single(r: Seq<u8>, y: Seq<u8>, t: int)
    requires
        0 <= t < r.len(),
        forall|i: int| 0 <= i < r.len() && i != t ==> r[i] == 0 || y[i] == 0,
    ensures
        dot(r, y) == product(r[t], y[t]),
    decreases r.len(),
{
    let n = r.len() - 1;
    if t == n {
        lemma_dot_none(r.drop_last(), y);
        sum_laws(product(r[t], y[t]), 0, 0);
    } else {
        lemma_dot_single(r.drop_last(), y, t);
        product_zero(r[n], y[n]);
        sum_laws(product(r[t], y[t]), 0, 0);
    }
}

/// An inner product in which no position counts.
pub proof fn lemma_dot_none(r: Seq<u8>, y: Seq<u8>)
    requires
        forall|i: int| 0 <= i < r.len() ==> r[i] == 0 || y[i] == 0,
    ensures
        dot(r, y) == 0,
    decreases r.len(),
{
    if r.len() > 0 {
        let n = r.len() - 1;
        lemma_dot_none(r.drop_last(), y);
        product_zero(r[n], y[n]);
        sum_laws(0, 0, 0);
    }
}

/// An inner product in which at most positions `t` and `u` count.
pub proof fn lemma_dot_pair(r: Seq<u8>, y: Seq<u8>, t: int, u: int)
    requires
        0 <= t < u < r.len(),
        forall|i: int| 0 <= i < r.len() && i != t && i != u ==> r[i] == 0 || y[i] == 0,
    ensures
        dot(r, y) == product(r[t], y[t]) ^ product(r[u], y[u]),
    decreases r.len(),
{
    let n = r.len() - 1;
    if u == n {
        lemma_dot_single(r.drop_last(), y, t);
    } else {
        lemma_dot_pair(r.drop_last(), y, t, u);
        product_zero(r[n], y[n]);
        sum_laws(product(r[t], y[t]) ^ product(r[u], y[u]), 0, 0);
    }
}

/// Clearing one coefficient takes its term out of the inner product.
pub proof fn lemma_dot_clear(r: Seq<u8>, y: Seq<u8>, t: int)
    requires
        0 <= t < r.len(),
    ensures
        dot(r.update(t, 0), y) == dot(r, y) ^ product(r[t], y[t]),
    decreases r.len(),
{
    let n = r.len() - 1;
    let z = r.update(t, 0);
    if t == n {
        assert(z.drop_last() =~= r.drop_last());
        product_units(y[t]);
        let d = dot(r.drop_last(), y);
        let p = product(r[t], y[t]);
        sum_laws(d, p, p);
        sum_laws(p, 0, 0);
        sum_laws(d, 0, 0);
    } else {
        assert(z.drop_last() =~= r.drop_last().update(t, 0));
        lemma_dot_clear(r.drop_last(), y, t);
        let d = dot(r.drop_last(), y);
        let p = product(r[t], y[t]);
        let q = product(r[n], y[n]);
        sum_laws(d, p, q);
        sum_laws(p, q, 0);
        sum_laws(d, q, p);
    }
}

/// No nonzero vector of length `k` is orthogonal to the first `k` columns of every row.
pub open spec fn full_rank(rows: Seq<Seq<u8>>, k: int) -> bool {
    forall|v: Seq<u8>| v.len() == k && #[trigger] kernel(rows, k, v) ==> is_zero(v)
}

/// `v` is orthogonal to the first `k` columns of every row.
pub open spec fn kernel(rows: Seq<Seq<u8>>, k: int, v: Seq<u8>) -> bool {
    forall|i: int| 0 <= i < rows.len() ==> dot((#[trigger] rows[i]).take(k), v) == 0
}

/// The first `k` columns of both have the same vectors orthogonal to them.
pub open spec fn same_kernel(a: Seq<Seq<u8>>, b: Seq<Seq<u8>>, k: int) -> bool {
    forall|v: Seq<u8>| v.len() == k ==> (#[trigger] kernel(a, k, v) <==> kernel(b, k, v))
}

/// The rank of the first `k` columns: the pivots of a reduced row echelon form
/// with the same vectors orthogonal to it.
pub open spec fn has_rank(rows: Seq<Seq<u8>>, k: int, rank: int) -> bool {
    exists|echelon: Seq<Seq<u8>>| #[trigger]
        same_kernel(rows, echelon, k) && is_reduced(echelon, k, rank) && forall|i: int|
            0 <= i < echelon.len() ==> (#[trigger] echelon[i]).len() >= k
}

/// The rows at the positions `at` are as many as there are columns, determine the
/// symbols, and say that they are `x`.
pub open spec fn settled(
    rows: Seq<Seq<u8>>,
    at: Seq<int>,
    k: int,
    s: int,
    x: Seq<Seq<u8>>,
) -> bool {
    &&& at.len() == k
    &&& apart(at, rows.len() as int)
    &&& full_rank(rows_at(rows, at), k)
    &&& solves(rows_at(rows, at), k, s, x)
}

/// As many rows as there are columns determine the symbols and say that they are `x`.
pub open spec fn backed(rows: Seq<Seq<u8>>, k: int, s: int, x: Seq<Seq<u8>>) -> bool {
    exists|at: Seq<int>| #[trigger] settled(rows, at, k, s, x)
}

/// Position `t` of each of the symbols `x`.
pub open spec fn column(x: Seq<Seq<u8>>, t: int) -> Seq<u8> {
    Seq::new(x.len(), |j: int| x[j][t])
}

/// `x` has `k` symbols of `s` bytes each.
pub open spec fn shaped(x: Seq<Seq<u8>>, k: int, s: int) -> bool {
    x.len() == k && forall|j: int| 0 <= j < k ==> (#[trigger] x[j]).len() == s
}

/// The symbols `x` solve the augmented rows `[A | b]`: `A x == b`.
pub open spec fn solves(rows: Seq<Seq<u8>>, k: int, s: int, x: Seq<Seq<u8>>) -> bool {
    forall|i: int, t: int|
        0 <= i < rows.len() && 0 <= t < s ==> dot((#[trigger] rows[i]).take(k), #[trigger] column(x, t))
            == rows[i][k + t]
}

/// A reduced form whose rank is the number of columns starts with the identity.
pub proof fn lemma_full_pivots(rows: Seq<Seq<u8>>, pivots: Seq<int>, k: int, r: int)
    requires
        reduced(rows, pivots, k),
        pivots.len() == k,
        0 <= r < k,
    ensures
        pivots[r] == r,
{
    lemma_pivot_low(rows, pivots, k, r);
    lemma_pivot_high(rows, pivots, k, r);
}

/// Pivot `r` lies at column `r` or later.
proof fn lemma_pivot_low(rows: Seq<Seq<u8>>, pivots: Seq<int>, k: int, r: int)
    requires
        reduced(rows, pivots, k),
        0 <= r < pivots.len(),
    ensures
        r <= pivots[r],
    decreases r,
{
    if r > 0 {
        lemma_pivot_low(rows, pivots, k, r - 1);
        assert(pivots[r - 1] < pivots[r]);
    }
}

/// Pivot `r` leaves room for the pivots after it.
proof fn lemma_pivot_high(rows: Seq<Seq<u8>>, pivots: Seq<int>, k: int, r: int)
    requires
        reduced(rows, pivots, k),
        0 <= r < pivots.len(),
    ensures
        pivots[r] <= k - pivots.len() + r,
    decreases pivots.len() - r,
{
    if r + 1 < pivots.len() {
        lemma_pivot_high(rows, pivots, k, r + 1);
        assert(pivots[r] < pivots[r + 1]);
    }
}

/// The least column at or after `c` that holds no pivot.
spec fn free_column(pivots: Seq<int>, c: int) -> int
    decreases pivots.len() - c,
{
    if 0 <= c < pivots.len() && pivots[c] == c {
        free_column(pivots, c + 1)
    } else {
        c
    }
}

/// With fewer pivots than columns some column holds no pivot.
proof fn lemma_free_column(rows: Seq<Seq<u8>>, pivots: Seq<int>, k: int, c: int)
    requires
        reduced(rows, pivots, k),
        pivots.len() < k,
        0 <= c <= pivots.len(),
        forall|r: int| 0 <= r < c ==> pivots[r] == r,
    ensures
        0 <= free_column(pivots, c) < k,
        forall|r: int| 0 <= r < pivots.len() ==> pivots[r] != free_column(pivots, c),
    decreases pivots.len() - c,
{
    if c < pivots.len() && pivots[c] == c {
        lemma_free_column(rows, pivots, k, c + 1);
    } else if c < pivots.len() {
        lemma_pivot_low(rows, pivots, k, c);
        assert forall|r: int| 0 <= r < pivots.len() implies pivots[r] != c by {
            if r > c {
                assert(pivots[c] < pivots[r]);
            }
        }
    }
}

/// One at column `c`, and at each pivot what cancels that.
spec fn free_vector(rows: Seq<Seq<u8>>, pivots: Seq<int>, k: int, c: int) -> Seq<u8> {
    Seq::new(
        k as nat,
        |j: int|
            if j == c {
                1u8
            } else if exists|r: int| 0 <= r < pivots.len() && pivots[r] == j {
                rows[choose|r: int| 0 <= r < pivots.len() && pivots[r] == j][c]
            } else {
                0u8
            },
    )
}

/// A column without a pivot gives a vector orthogonal to the rows, with nothing
/// after that column.
proof fn lemma_free_vector(rows: Seq<Seq<u8>>, pivots: Seq<int>, k: int, c: int)
    requires
        reduced(rows, pivots, k),
        0 <= c < k,
        forall|i: int| 0 <= i < rows.len() ==> (#[trigger] rows[i]).len() >= k,
        forall|r: int| 0 <= r < pivots.len() ==> pivots[r] != c,
    ensures
        kernel(rows, k, free_vector(rows, pivots, k, c)),
        forall|j: int| c < j < k ==> free_vector(rows, pivots, k, c)[j] == 0,
{
    let v = free_vector(rows, pivots, k, c);
    assert forall|j: int| c < j < k implies v[j] == 0 by {
        if exists|r: int| 0 <= r < pivots.len() && pivots[r] == j {
            let r = choose|r: int| 0 <= r < pivots.len() && pivots[r] == j;
            assert(rows[r][c] == 0);
        }
    }
    assert forall|i: int| 0 <= i < rows.len() implies dot((#[trigger] rows[i]).take(k), v) == 0 by {
        let row = rows[i].take(k);
        if i < pivots.len() {
            let p = pivots[i];
            assert(p != c);
            assert forall|j: int| 0 <= j < k && j != p && j != c implies row[j] == 0 || v[j] == 0 by {
                if exists|r: int| 0 <= r < pivots.len() && pivots[r] == j {
                    let r = choose|r: int| 0 <= r < pivots.len() && pivots[r] == j;
                    assert(rows[i][pivots[r]] == 0);
                }
            }
            let r = choose|r: int| 0 <= r < pivots.len() && pivots[r] == p;
            assert(0 <= i < pivots.len() && pivots[i] == p);
            assert(r == i) by {
                if r < i {
                    assert(pivots[r] < pivots[i]);
                } else if i < r {
                    assert(pivots[i] < pivots[r]);
                }
            }
            assert(v[p] == rows[i][c]);
            assert(row[p] == 1);
            product_units(v[p]);
            product_units(row[c]);
            sum_laws(row[c], 0, 0);
            if p < c {
                lemma_dot_pair(row, v, p, c);
            } else {
                lemma_dot_pair(row, v, c, p);
            }
        } else {
            assert forall|j: int| 0 <= j < k implies row[j] == 0 by {
                assert(rows[i][j] == 0);
            }
            lemma_dot_none(row, v);
        }
    }
}

/// Echelon forms with the same vectors orthogonal to them have the same pivots.
proof fn lemma_pivot_shared(
    a: Seq<Seq<u8>>,
    p: Seq<int>,
    b: Seq<Seq<u8>>,
    q: Seq<int>,
    k: int,
    r: int,
)
    requires
        reduced(a, p, k),
        reduced(b, q, k),
        same_kernel(a, b, k),
        forall|i: int| 0 <= i < a.len() ==> (#[trigger] a[i]).len() >= k,
        forall|i: int| 0 <= i < b.len() ==> (#[trigger] b[i]).len() >= k,
        0 <= r < p.len(),
    ensures
        q.contains(p[r]),
{
    let c = p[r];
    if !q.contains(c) {
        assert(0 <= p[r] < k);
        assert forall|t: int| 0 <= t < q.len() implies q[t] != c by {
            if q[t] == c {
                assert(q.contains(c));
            }
        }
        lemma_free_vector(b, q, k, c);
        let v = free_vector(b, q, k, c);
        assert(kernel(a, k, v) <==> kernel(b, k, v));
        let row = a[r].take(k);
        assert(dot(row, v) == 0);
        assert forall|j: int| 0 <= j < k && j != c implies row[j] == 0 || v[j] == 0 by {
            if j < c {
                assert(a[r][j] == 0);
            }
        }
        lemma_dot_single(row, v, c);
        assert(row[c] == 1 && v[c] == 1);
        product_units(1);
    }
}

/// Of two ascending lists of which one holds the other, it is the longer one.
proof fn lemma_held_is_shorter(p: Seq<int>, q: Seq<int>)
    requires
        forall|i: int, j: int| 0 <= i < j < p.len() ==> p[i] < p[j],
        forall|i: int, j: int| 0 <= i < j < q.len() ==> q[i] < q[j],
        forall|i: int| 0 <= i < p.len() ==> q.contains(#[trigger] p[i]),
    ensures
        p.len() <= q.len(),
    decreases p.len(),
{
    if p.len() > 0 {
        let n = p.len() - 1;
        assert(q.contains(p[n]));
        let m = choose|m: int| 0 <= m < q.len() && q[m] == p[n];
        let fewer = p.drop_last();
        let rest = q.take(m);
        assert forall|i: int| 0 <= i < fewer.len() implies rest.contains(#[trigger] fewer[i]) by {
            assert(q.contains(p[i]));
            let t = choose|t: int| 0 <= t < q.len() && q[t] == p[i];
            assert(p[i] < p[n]);
            assert(t < m) by {
                if t > m {
                    assert(q[m] < q[t]);
                }
            }
            assert(rest[t] == p[i]);
        }
        lemma_held_is_shorter(fewer, rest);
    }
}

/// Rows have one rank.
pub proof fn rows_have_one_rank(rows: Seq<Seq<u8>>, k: int, rank: int, other: int)
    requires
        has_rank(rows, k, rank),
        has_rank(rows, k, other),
    ensures
        rank == other,
{
    let a = choose|a: Seq<Seq<u8>>| #[trigger]
        same_kernel(rows, a, k) && is_reduced(a, k, rank) && forall|i: int|
            0 <= i < a.len() ==> (#[trigger] a[i]).len() >= k;
    let b = choose|b: Seq<Seq<u8>>| #[trigger]
        same_kernel(rows, b, k) && is_reduced(b, k, other) && forall|i: int|
            0 <= i < b.len() ==> (#[trigger] b[i]).len() >= k;
    let p = choose|p: Seq<int>| #[trigger] reduced(a, p, k) && p.len() == rank;
    let q = choose|q: Seq<int>| #[trigger] reduced(b, q, k) && q.len() == other;
    assert forall|v: Seq<u8>| v.len() == k implies (#[trigger] kernel(a, k, v) <==> kernel(b, k, v)) by {
        assert(kernel(rows, k, v) <==> kernel(a, k, v));
        assert(kernel(rows, k, v) <==> kernel(b, k, v));
    }
    assert(same_kernel(a, b, k));
    assert(same_kernel(b, a, k)) by {
        assert forall|v: Seq<u8>| v.len() == k implies (#[trigger] kernel(b, k, v) <==> kernel(a, k, v)) by {
            assert(kernel(a, k, v) <==> kernel(b, k, v));
        }
    }
    assert forall|r: int| 0 <= r < p.len() implies q.contains(#[trigger] p[r]) by {
        lemma_pivot_shared(a, p, b, q, k, r);
    }
    assert forall|r: int| 0 <= r < q.len() implies p.contains(#[trigger] q[r]) by {
        lemma_pivot_shared(b, q, a, p, k, r);
    }
    lemma_held_is_shorter(p, q);
    lemma_held_is_shorter(q, p);
}

/// The rank tells whether the columns are independent.
pub proof fn lemma_rank_decides(rows: Seq<Seq<u8>>, k: int, rank: int)
    requires
        0 <= k,
        is_reduced(rows, k, rank),
        forall|i: int| 0 <= i < rows.len() ==> (#[trigger] rows[i]).len() >= k,
    ensures
        rank <= k,
        rank == k <==> full_rank(rows, k),
{
    let pivots = choose|pivots: Seq<int>| #[trigger]
        reduced(rows, pivots, k) && pivots.len() == rank;
    if rank > 0 {
        lemma_pivot_low(rows, pivots, k, rank - 1);
    }
    if rank == k {
        assert forall|v: Seq<u8>| v.len() == k && #[trigger] kernel(rows, k, v) implies is_zero(v) by {
            assert forall|j: int| 0 <= j < v.len() implies v[j] == 0 by {
                lemma_full_pivots(rows, pivots, k, j);
                assert(dot(rows[j].take(k), v) == 0);
                assert forall|i: int| 0 <= i < k && i != j implies rows[j][i] == 0 by {
                    lemma_full_pivots(rows, pivots, k, i);
                    assert(rows[j][pivots[i]] == 0);
                }
                lemma_dot_single(rows[j].take(k), v, j);
                assert(rows[j][pivots[j]] == 1);
                product_units(v[j]);
            }
        }
    } else {
        lemma_free_column(rows, pivots, k, 0);
        let c = free_column(pivots, 0);
        let v = free_vector(rows, pivots, k, c);
        lemma_free_vector(rows, pivots, k, c);
        assert(v[c] == 1);
        assert(!is_zero(v));
    }
}

/// Elimination keeps the vectors orthogonal to the left part of the rows.
pub proof fn lemma_kernel_kept(before: Seq<Seq<u8>>, after: Seq<Seq<u8>>, k: int, l: int, v: Seq<u8>)
    requires
        0 <= k <= l,
        before.len() == after.len(),
        forall|i: int| 0 <= i < before.len() ==> (#[trigger] before[i]).len() == l,
        forall|i: int| 0 <= i < after.len() ==> (#[trigger] after[i]).len() == l,
        forall|y: Seq<u8>|
            y.len() == l ==> (#[trigger] cancels(before, y) <==> cancels(after, y)),
        v.len() == k,
    ensures
        kernel(before, k, v) <==> kernel(after, k, v),
{
    let y = v + Seq::new((l - k) as nat, |i: int| 0u8);
    lemma_kernel_pad(before, k, l, v);
    lemma_kernel_pad(after, k, l, v);
    assert(cancels(before, y) <==> cancels(after, y));
}

/// The kernel of the left part is what cancels the rows with zeros appended.
proof fn lemma_kernel_pad(rows: Seq<Seq<u8>>, k: int, l: int, v: Seq<u8>)
    requires
        0 <= k <= l,
        forall|i: int| 0 <= i < rows.len() ==> (#[trigger] rows[i]).len() == l,
        v.len() == k,
    ensures
        kernel(rows, k, v) <==> cancels(rows, v + Seq::new((l - k) as nat, |i: int| 0u8)),
{
    let z = Seq::new((l - k) as nat, |i: int| 0u8);
    let y = v + z;
    assert forall|i: int| 0 <= i < rows.len() implies dot(#[trigger] rows[i], y) == dot(
        rows[i].take(k),
        v,
    ) by {
        assert(rows[i] =~= rows[i].take(k) + rows[i].skip(k));
        lemma_dot_concat(rows[i].take(k), rows[i].skip(k), v, z);
        lemma_dot_none(rows[i].skip(k), z);
        sum_laws(dot(rows[i].take(k), v), 0, 0);
    }
    if kernel(rows, k, v) {
        assert forall|i: int| 0 <= i < rows.len() implies dot(#[trigger] rows[i], y) == 0 by {
            assert(dot(rows[i].take(k), v) == 0);
        }
    }
    if cancels(rows, y) {
        assert forall|i: int| 0 <= i < rows.len() implies dot((#[trigger] rows[i]).take(k), v) == 0 by {
            assert(dot(rows[i], y) == 0);
        }
    }
}

/// A solution, extended by the unit vector of byte `t`, cancels the rows.
proof fn lemma_solution_cancels(rows: Seq<Seq<u8>>, k: int, s: int, x: Seq<Seq<u8>>, t: int)
    requires
        0 <= k,
        0 <= t < s,
        x.len() == k,
        forall|i: int| 0 <= i < rows.len() ==> (#[trigger] rows[i]).len() == k + s,
        solves(rows, k, s, x),
    ensures
        cancels(rows, column(x, t) + unit(s as nat, t)),
{
    let w = column(x, t);
    let e = unit(s as nat, t);
    assert forall|i: int| 0 <= i < rows.len() implies dot(#[trigger] rows[i], w + e) == 0 by {
        let row = rows[i];
        assert(row =~= row.take(k) + row.skip(k));
        lemma_dot_concat(row.take(k), row.skip(k), w, e);
        lemma_dot_single(row.skip(k), e, t);
        product_units(row[k + t]);
        assert(dot(row.take(k), w) == row[k + t]);
        sum_laws(row[k + t], 0, 0);
    }
}

/// `r . (y + z) == r . y + r . z`.
proof fn lemma_dot_sum(r: Seq<u8>, y: Seq<u8>, z: Seq<u8>)
    requires
        r.len() == y.len(),
        r.len() == z.len(),
    ensures
        dot(r, Seq::new(r.len(), |i: int| y[i] ^ z[i])) == dot(r, y) ^ dot(r, z),
    decreases r.len(),
{
    let w = Seq::new(r.len(), |i: int| y[i] ^ z[i]);
    if r.len() == 0 {
        sum_laws(0, 0, 0);
    } else {
        let n = r.len() - 1;
        let d = r.drop_last();
        lemma_dot_sum(d, y.drop_last(), z.drop_last());
        lemma_dot_agree(d, y, y.drop_last());
        lemma_dot_agree(d, z, z.drop_last());
        lemma_dot_agree(d, w, Seq::new(d.len(), |i: int| y.drop_last()[i] ^ z.drop_last()[i]));
        product_distributes(r[n], y[n], z[n]);
        lemma_sum_swap(dot(d, y), dot(d, z), product(r[n], y[n]), product(r[n], z[n]));
    }
}

/// Rows of full rank have one solution at most.
pub proof fn one_solution_at_most(
    rows: Seq<Seq<u8>>,
    k: int,
    s: int,
    x: Seq<Seq<u8>>,
    y: Seq<Seq<u8>>,
)
    requires
        full_rank(rows, k),
        forall|i: int| 0 <= i < rows.len() ==> (#[trigger] rows[i]).len() >= k,
        shaped(x, k, s),
        shaped(y, k, s),
        solves(rows, k, s, x),
        solves(rows, k, s, y),
    ensures
        x == y,
{
    assert forall|j: int| 0 <= j < k implies x[j] == y[j] by {
        assert(x[j].len() == s && y[j].len() == s);
        assert forall|t: int| 0 <= t < s implies x[j][t] == y[j][t] by {
            let a = column(x, t);
            let b = column(y, t);
            let v = Seq::new(k as nat, |i: int| a[i] ^ b[i]);
            assert forall|i: int| 0 <= i < rows.len() implies dot((#[trigger] rows[i]).take(k), v) == 0 by {
                let row = rows[i].take(k);
                lemma_dot_sum(row, a, b);
                assert(dot(row, a) == rows[i][k + t]);
                assert(dot(row, b) == rows[i][k + t]);
                sum_laws(rows[i][k + t], 0, 0);
            }
            assert(kernel(rows, k, v));
            assert(v[j] == 0);
            sum_laws(a[j], b[j], 0);
        }
        assert(x[j] =~= y[j]);
    }
    assert(x =~= y);
}

/// Elimination leads on to a reduced form, whatever the rows are.
proof fn lemma_reducible(
    start: Seq<Seq<u8>>,
    rows: Seq<Seq<u8>>,
    pivots: Seq<int>,
    k: int,
    col: int,
) -> (out: Seq<Seq<u8>>)
    requires
        0 <= col <= k,
        start.len() == rows.len(),
        forall|i: int| 0 <= i < start.len() ==> (#[trigger] start[i]).len() == k,
        forall|i: int| 0 <= i < rows.len() ==> (#[trigger] rows[i]).len() == k,
        reduced(rows, pivots, col),
        forall|y: Seq<u8>|
            y.len() == k ==> (#[trigger] cancels(start, y) <==> cancels(rows, y)),
    ensures
        out.len() == start.len(),
        forall|i: int| 0 <= i < out.len() ==> (#[trigger] out[i]).len() == k,
        exists|ps: Seq<int>| #[trigger] reduced(out, ps, k),
        forall|y: Seq<u8>| y.len() == k ==> (#[trigger] cancels(start, y) <==> cancels(out, y)),
    decreases k - col,
{
    let rank = pivots.len() as int;
    if col == k {
        rows
    } else if exists|p: int| rank <= p < rows.len() && (#[trigger] rows[p])[col] != 0 {
        let p = choose|p: int| rank <= p < rows.len() && (#[trigger] rows[p])[col] != 0;
        let rows1 = if rank != p {
            rows.update(rank, rows[p]).update(p, rows[rank])
        } else {
            rows
        };
        let scale = crate::gf256::inverse(rows[p][col]);
        let rows2 = rows1.update(rank, vec_scale(scale, rows1[rank]));
        let rows3 = Seq::new(
            rows.len(),
            |i: int|
                if i != rank {
                    vec_combine(rows2[i][col], rows2[rank], rows2[i])
                } else {
                    rows2[i]
                },
        );
        assert forall|i: int| 0 <= i < rows3.len() implies (#[trigger] rows3[i]).len() == k by {
            assert(rows[i].len() == k && rows[p].len() == k && rows[rank].len() == k);
        }
        crate::gf256::lemma_pivot_step(rows, rows1, rows2, rows3, pivots, rank, p, col, scale, k);
        assert forall|y: Seq<u8>| y.len() == k implies (#[trigger] cancels(start, y) <==> cancels(
            rows3,
            y,
        )) by {
            assert(cancels(start, y) <==> cancels(rows, y));
            crate::gf256::lemma_pivot_keeps(rows, rows1, rows2, rows3, rank, p, col, scale, k, y);
        }
        lemma_reducible(start, rows3, pivots.push(col), k, col + 1)
    } else {
        assert(reduced(rows, pivots, col + 1)) by {
            assert forall|i: int, c: int|
                pivots.len() <= i < rows.len() && 0 <= c < col + 1 implies #[trigger] rows[i][c] == 0 by {
                if c == col {
                    assert(!(rows[i][col] != 0));
                }
            }
        }
        lemma_reducible(start, rows, pivots, k, col + 1)
    }
}

/// The columns of some rows are independent just when their rank is the number of
/// columns, and that takes at least as many rows.
pub proof fn independence_is_a_matter_of_rank(rows: Seq<Seq<u8>>, k: int)
    requires
        0 <= k,
        forall|i: int| 0 <= i < rows.len() ==> (#[trigger] rows[i]).len() == k,
    ensures
        full_rank(rows, k) <==> has_rank(rows, k, k),
        full_rank(rows, k) ==> k <= rows.len(),
{
    let none = Seq::<int>::empty();
    assert(reduced(rows, none, 0));
    let out = lemma_reducible(rows, rows, none, k, 0);
    let ps = choose|ps: Seq<int>| #[trigger] reduced(out, ps, k);
    let rank = ps.len() as int;
    assert(is_reduced(out, k, rank));
    lemma_rank_decides(out, k, rank);
    assert forall|v: Seq<u8>| v.len() == k implies (#[trigger] kernel(rows, k, v) <==> kernel(out, k, v)) by {
        lemma_kernel_kept(rows, out, k, k, v);
    }
    assert(same_kernel(rows, out, k));
    assert(has_rank(rows, k, rank));
    assert(full_rank(rows, k) <==> full_rank(out, k)) by {
        if full_rank(rows, k) {
            assert forall|v: Seq<u8>| v.len() == k && #[trigger] kernel(out, k, v) implies is_zero(v) by {
                assert(kernel(rows, k, v));
            }
        }
        if full_rank(out, k) {
            assert forall|v: Seq<u8>| v.len() == k && #[trigger] kernel(rows, k, v) implies is_zero(v) by {
                assert(kernel(out, k, v));
            }
        }
    }
    if has_rank(rows, k, k) {
        rows_have_one_rank(rows, k, rank, k);
    }
}

/// What cancels the rows once the unit vectors are appended is a solution.
proof fn lemma_cancels_solves(rows: Seq<Seq<u8>>, k: int, s: int, x: Seq<Seq<u8>>)
    requires
        0 <= k,
        x.len() == k,
        forall|i: int| 0 <= i < rows.len() ==> (#[trigger] rows[i]).len() == k + s,
        forall|t: int|
            0 <= t < s ==> cancels(rows, #[trigger] column(x, t) + unit(s as nat, t)),
    ensures
        solves(rows, k, s, x),
{
    assert forall|i: int, t: int| 0 <= i < rows.len() && 0 <= t < s implies dot(
        (#[trigger] rows[i]).take(k),
        #[trigger] column(x, t),
    ) == rows[i][k + t] by {
        let row = rows[i];
        let w = column(x, t);
        let e = unit(s as nat, t);
        assert(cancels(rows, w + e));
        assert(dot(row, w + e) == 0);
        assert(row =~= row.take(k) + row.skip(k));
        lemma_dot_concat(row.take(k), row.skip(k), w, e);
        lemma_dot_single(row.skip(k), e, t);
        product_units(row[k + t]);
        sum_laws(dot(row.take(k), w), row[k + t], 0);
    }
}

/// The right-hand side of a reduced system of full rank solves its pivot rows.
proof fn lemma_sides_solve(rows: Seq<Seq<u8>>, k: int, s: int, x: Seq<Seq<u8>>)
    requires
        0 <= k <= rows.len(),
        0 <= s,
        x.len() == k,
        forall|i: int| 0 <= i < rows.len() ==> (#[trigger] rows[i]).len() == k + s,
        forall|i: int| 0 <= i < k ==> #[trigger] x[i] == rows[i].skip(k),
        is_reduced(rows, k, k),
    ensures
        full_rank(rows.take(k), k),
        forall|t: int|
            0 <= t < s ==> cancels(rows.take(k), #[trigger] column(x, t) + unit(s as nat, t)),
{
    let pivots = choose|pivots: Seq<int>| #[trigger] reduced(rows, pivots, k) && pivots.len() == k;
    let top = rows.take(k);
    assert(reduced(top, pivots, k)) by {
        assert forall|r: int, i: int|
            0 <= r < pivots.len() && 0 <= i < top.len() && i != r implies #[trigger] top[i][pivots[r]] == 0 by {
            assert(rows[i][pivots[r]] == 0);
        }
        assert forall|r: int, c: int| 0 <= r < pivots.len() && 0 <= c < pivots[r] implies #[trigger] top[r][c]
            == 0 by {
            assert(rows[r][c] == 0);
        }
    }
    lemma_rank_decides(top, k, k);
    assert forall|t: int| 0 <= t < s implies cancels(top, #[trigger] column(x, t) + unit(s as nat, t)) by {
        let w = column(x, t);
        let e = unit(s as nat, t);
        assert forall|j: int| 0 <= j < top.len() implies dot(#[trigger] top[j], w + e) == 0 by {
            let row = rows[j];
            assert(row =~= row.take(k) + row.skip(k));
            lemma_dot_concat(row.take(k), row.skip(k), w, e);
            lemma_dot_single(row.skip(k), e, t);
            product_units(row[k + t]);
            lemma_full_pivots(rows, pivots, k, j);
            assert(row[pivots[j]] == 1);
            assert forall|i: int| 0 <= i < k && i != j implies row[i] == 0 by {
                lemma_full_pivots(rows, pivots, k, i);
                assert(rows[j][pivots[i]] == 0);
            }
            lemma_dot_single(row.take(k), w, j);
            product_units(w[j]);
            assert(x[j] == row.skip(k));
            sum_laws(w[j], 0, 0);
        }
    }
}

/// In a reduced system of full rank, the right-hand side holds the solution.
proof fn lemma_read_solution(rows: Seq<Seq<u8>>, k: int, s: int, x: Seq<Seq<u8>>, j: int, t: int)
    requires
        0 <= j < k,
        0 <= t < s,
        x.len() == k,
        forall|i: int| 0 <= i < rows.len() ==> (#[trigger] rows[i]).len() == k + s,
        is_reduced(rows, k, k),
        cancels(rows, column(x, t) + unit(s as nat, t)),
    ensures
        rows[j][k + t] == x[j][t],
{
    let pivots = choose|pivots: Seq<int>| #[trigger] reduced(rows, pivots, k) && pivots.len() == k;
    let w = column(x, t);
    let e = unit(s as nat, t);
    let row = rows[j];
    assert(dot(row, w + e) == 0);
    assert(row =~= row.take(k) + row.skip(k));
    lemma_dot_concat(row.take(k), row.skip(k), w, e);
    lemma_dot_single(row.skip(k), e, t);
    product_units(row[k + t]);
    lemma_full_pivots(rows, pivots, k, j);
    assert(row[pivots[j]] == 1);
    assert forall|i: int| 0 <= i < k && i != j implies row[i] == 0 by {
        lemma_full_pivots(rows, pivots, k, i);
        assert(rows[j][pivots[i]] == 0);
    }
    lemma_dot_single(row.take(k), w, j);
    product_units(w[j]);
    sum_laws(w[j], row[k + t], 0);
}

/// The contents of a vector of byte vectors.
pub open spec fn views(x: Seq<Vec<u8>>) -> Seq<Seq<u8>> {
    x.map_values(|v: Vec<u8>| v@)
}

/// Copy of `src[from..to]`.
pub fn copy_range(src: &[u8], from: usize, to: usize) -> (out: Vec<u8>)
    requires
        from <= to <= src@.len(),
    ensures
        out@ == src@.subrange(from as int, to as int),
{
    let mut out: Vec<u8> = Vec::new();
    let mut i: usize = from;
    while i < to
        invariant
            from <= i <= to,
            to <= src@.len(),
            out@ =~= src@.subrange(from as int, i as int),
        decreases to - i,
    {
        out.push(src[i]);
        i += 1;
    }
    out
}

/// Solve the linear system whose augmented rows `[A | b]` lie one after another
/// in `mat`, `A` having `k` columns and `b` having `s`. `Err` holds the rank
/// where the columns of `A` are not independent. Where the rows contradict one
/// another, the answer is what `k` independent ones of them say.
pub fn solve_system(mat: &mut Vec<u8>, n: usize, k: usize, s: usize) -> (r: Result<
    Vec<Vec<u8>>,
    usize,
>)
    requires
        k + s <= usize::MAX,
        old(mat)@.len() == n * (k + s),
    ensures
        r is Ok <==> full_rank(rows_of(old(mat)@, k + s, n as int), k as int),
        r matches Ok(out) ==> shaped(views(out@), k as int, s as int) && forall|x: Seq<Seq<u8>>|
            shaped(x, k as int, s as int) && #[trigger] solves(
                rows_of(old(mat)@, k + s, n as int),
                k as int,
                s as int,
                x,
            ) ==> views(out@) == x,
        r matches Ok(out) ==> backed(
            rows_of(old(mat)@, k + s, n as int),
            k as int,
            s as int,
            views(out@),
        ),
        n == k ==> (r matches Ok(out) ==> solves(
            rows_of(old(mat)@, k + s, n as int),
            k as int,
            s as int,
            views(out@),
        )),
        r matches Err(rank) ==> rank < k && rank <= n && has_rank(
            rows_of(old(mat)@, k + s, n as int),
            k as int,
            rank as int,
        ),
{
    let mut out: Vec<Vec<u8>> = Vec::new();
    let ghost l: int = k + s;
    let ghost m: int = n as int;
    let ghost before = rows_of(mat@, l, m);
    if k == 0 {
        proof {
            assert(full_rank(before, 0));
            assert forall|x: Seq<Seq<u8>>| shaped(x, 0, s as int) implies views(out@) == x by {
                assert(views(out@) =~= x);
            }
            let none = Seq::<int>::empty();
            assert(settled(before, none, 0, s as int, views(out@)));
            assert(backed(before, 0, s as int, views(out@)));
        }
        return Ok(out);
    }
    let row_len: usize = k + s;
    let total: usize = mat.len();
    proof {
        vstd::arithmetic::div_mod::lemma_div_by_multiple(m, l);
        lemma_rows_len(mat@, l, m);
    }
    let rank: usize = gf_gauss_eliminate(mat.as_mut_slice(), row_len, k);
    let ghost after = rows_of(mat@, l, m);
    proof {
        lemma_rows_len(mat@, l, m);
        lemma_rank_decides(after, k as int, rank as int);
        assert forall|v: Seq<u8>| v.len() == k implies (kernel(before, k as int, v) <==> kernel(
            after,
            k as int,
            v,
        )) by {
            lemma_kernel_kept(before, after, k as int, l, v);
        }
        assert(full_rank(before, k as int) <==> full_rank(after, k as int)) by {
            if full_rank(before, k as int) {
                assert forall|v: Seq<u8>| v.len() == k && #[trigger] kernel(after, k as int, v) implies is_zero(v) by {
                    assert(kernel(before, k as int, v));
                }
            }
            if full_rank(after, k as int) {
                assert forall|v: Seq<u8>| v.len() == k && #[trigger] kernel(before, k as int, v) implies is_zero(v) by {
                    assert(kernel(after, k as int, v));
                }
            }
        }
    }
    if rank < k {
        assert(same_kernel(before, after, k as int));
        return Err(rank);
    }
    assert(k <= n);
    let mut j: usize = 0;
    while j < k
        invariant
            j <= k <= n,
            out@.len() == j,
            l == k + s,
            m == n,
            row_len == l,
            mat@.len() == m * l,
            total == mat@.len(),
            after == rows_of(mat@, l, m),
            forall|i: int| 0 <= i < j ==> (#[trigger] out@[i])@ == after[i].skip(k as int),
        decreases k - j,
    {
        proof {
            lemma_row_bounds(j as int, l, m);
        }
        let off: usize = j * row_len;
        let sym: Vec<u8> = copy_range(mat.as_slice(), off + k, off + row_len);
        assert(sym@ =~= after[j as int].skip(k as int));
        out.push(sym);
        j += 1;
    }
    proof {
        assert(shaped(views(out@), k as int, s as int)) by {
            assert forall|i: int| 0 <= i < k implies (#[trigger] views(out@)[i]).len() == s by {
                assert(out@[i]@ == after[i].skip(k as int));
            }
        }
        assert forall|x: Seq<Seq<u8>>|
            shaped(x, k as int, s as int) && #[trigger] solves(before, k as int, s as int, x) implies views(
            out@,
        ) == x by {
            assert forall|i: int| 0 <= i < k implies views(out@)[i] == x[i] by {
                assert(out@[i]@ == after[i].skip(k as int));
                assert forall|t: int| 0 <= t < s implies out@[i]@[t] == x[i][t] by {
                    lemma_solution_cancels(before, k as int, s as int, x, t);
                    let y = column(x, t) + unit(s as nat, t);
                    assert(cancels(before, y) <==> cancels(after, y));
                    lemma_read_solution(after, k as int, s as int, x, i, t);
                }
                assert(x[i].len() == s);
                assert(views(out@)[i] =~= x[i]);
            }
            assert(views(out@) =~= x);
        }
        let x = views(out@);
        assert forall|i: int| 0 <= i < k implies #[trigger] x[i] == after[i].skip(k as int) by {
            assert(out@[i]@ == after[i].skip(k as int));
        }
        lemma_sides_solve(after, k as int, s as int, x);
        let at = choose|at: Seq<int>| at.len() == rank && #[trigger] led_by(before, at, after, l);
        let some = rows_at(before, at);
        let top = after.take(k as int);
        assert forall|t: int| 0 <= t < s implies cancels(some, #[trigger] column(x, t) + unit(s as nat, t)) by {
            assert(cancels(top, column(x, t) + unit(s as nat, t)));
        }
        assert forall|i: int| 0 <= i < some.len() implies (#[trigger] some[i]).len() == l by {
            assert(0 <= at[i] < before.len());
        }
        lemma_cancels_solves(some, k as int, s as int, x);
        assert(full_rank(some, k as int)) by {
            assert forall|v: Seq<u8>| v.len() == k && #[trigger] kernel(some, k as int, v) implies is_zero(v) by {
                lemma_kernel_kept(some, top, k as int, l, v);
            }
        }
        assert(settled(before, at, k as int, s as int, x));
        assert(backed(before, k as int, s as int, x));
        if n == k {
            assert(top =~= after);
            assert forall|t: int| 0 <= t < s implies cancels(before, #[trigger] column(x, t) + unit(s as nat, t)) by {
                assert(cancels(top, column(x, t) + unit(s as nat, t)));
            }
            lemma_cancels_solves(before, k as int, s as int, x);
        }
    }
    Ok(out)
}

} // verus!
