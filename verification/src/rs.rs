//! Systematic Reed-Solomon erasure coding over GF(2^8).
//!
//! A codeword is the `k` data symbols followed by `m` parity symbols. The
//! generator is a Vandermonde matrix brought to systematic form, so any `k`
//! symbols of the codeword determine the data as long as `k + m` is at most
//! 256, the number of field elements.
use crate::gf256;
use crate::gf256::{
    lemma_pivot_keeps,
    lemma_pivot_step,
    product,
    product_associates,
    product_commutes,
    product_distributes,
    product_units,
    product_zero,
    sum_laws,
};
use crate::linear::{
    cancels,
    column,
    copy_range,
    dot,
    full_rank,
    has_rank,
    is_reduced,
    is_zero,
    kernel,
    lemma_dot_agree,
    lemma_dot_combine,
    lemma_dot_concat,
    lemma_dot_none,
    lemma_dot_single,
    lemma_kernel_kept,
    lemma_rank_decides,
    one_solution_at_most,
    reduced,
    rows_of,
    shaped,
    solve_system,
    solves,
    unit,
    vec_combine,
    vec_scale,
    views,
};
use crate::text::{decimal, number};
use vstd::prelude::*;

verus! {

/// Why a codeword cannot be built or taken apart.
#[derive(Debug, Clone, Copy, PartialEq, Eq, Structural)]
pub enum RsError {
    /// There are no data symbols.
    Empty,
    /// A count or a length is not what it has to be.
    SizeMismatch { a: usize, b: usize },
    /// The symbols do not determine the data.
    Insufficient { have: usize, need: usize },
}

impl RsError {
    /// What the error says.
    pub open spec fn says(&self) -> Seq<char> {
        match self {
            RsError::Empty => "empty generation"@,
            RsError::SizeMismatch { a, b } => "symbol size mismatch: "@ + decimal(*a as nat)
                + " vs "@ + decimal(*b as nat),
            RsError::Insufficient { have, need } => "need "@ + decimal(*need as nat)
                + " symbols, have "@ + decimal(*have as nat),
        }
    }

    /// What the error says.
    pub fn message(&self) -> (r: String)
        ensures
            r@ == self.says(),
    {
        match self {
            RsError::Empty => "empty generation".to_owned(),
            RsError::SizeMismatch { a, b } => "symbol size mismatch: ".to_owned().concat(
                number(*a as u64).as_str(),
            ).concat(" vs ").concat(number(*b as u64).as_str()),
            RsError::Insufficient { have, need } => "need ".to_owned().concat(
                number(*need as u64).as_str(),
            ).concat(" symbols, have ").concat(number(*have as u64).as_str()),
        }
    }
}

/// `a` to the `j`-th.
pub open spec fn power(a: u8, j: nat) -> u8
    decreases j,
{
    if j == 0 {
        1
    } else {
        product(power(a, (j - 1) as nat), a)
    }
}

/// The first `k` powers of `a`: a row of a Vandermonde matrix.
pub open spec fn powers(a: u8, k: nat) -> Seq<u8> {
    Seq::new(k, |j: int| power(a, j as nat))
}

/// The field element of row `i`: `i + 1` modulo 256.
pub open spec fn alpha(i: int) -> u8 {
    (i + 1) as u8
}

/// The first `n` rows of the Vandermonde matrix with `k` columns.
pub open spec fn vandermonde(n: nat, k: nat) -> Seq<Seq<u8>> {
    Seq::new(n, |i: int| powers(alpha(i), k))
}

/// The value at `a` of the polynomial with coefficients `c`, lowest first.
pub open spec fn value_at(c: Seq<u8>, a: u8) -> u8
    decreases c.len(),
{
    if c.len() == 0 {
        0
    } else {
        c[0] ^ product(a, value_at(c.skip(1), a))
    }
}

/// The quotient of the polynomial by `x - a`.
spec fn quotient(c: Seq<u8>, a: u8) -> Seq<u8>
    decreases c.len(),
{
    if c.len() <= 1 {
        Seq::empty()
    } else {
        seq![value_at(c.skip(1), a)] + quotient(c.skip(1), a)
    }
}

/// The inner product with a row of powers is the value of a polynomial.
proof fn lemma_dot_powers(c: Seq<u8>, a: u8)
    ensures
        dot(powers(a, c.len()), c) == value_at(c, a),
    decreases c.len(),
{
    let n = c.len();
    if n == 1 {
        lemma_dot_powers_front(c, a);
        assert(c.skip(1) =~= Seq::<u8>::empty());
        assert(powers(a, 0) =~= Seq::<u8>::empty());
        assert(dot(powers(a, 0), c.skip(1)) == 0);
        assert(value_at(c.skip(1), a) == 0);
    } else if n > 1 {
        lemma_dot_powers_front(c, a);
        lemma_dot_powers(c.skip(1), a);
    }
}

/// `dot(powers(a, n), c) == c[0] + a * dot(powers(a, n - 1), c.skip(1))`.
proof fn lemma_dot_powers_front(c: Seq<u8>, a: u8)
    requires
        c.len() > 0,
    ensures
        dot(powers(a, c.len()), c) == c[0] ^ product(
            a,
            dot(powers(a, (c.len() - 1) as nat), c.skip(1)),
        ),
    decreases c.len(),
{
    let n = c.len();
    let p = powers(a, n);
    assert(p.drop_last() =~= powers(a, (n - 1) as nat));
    if n == 1 {
        assert(powers(a, 0) =~= Seq::<u8>::empty());
        assert(p.drop_last() =~= Seq::<u8>::empty());
        assert(dot(p.drop_last(), c) == 0);
        assert(dot(powers(a, 0), c.skip(1)) == 0);
        product_units(c[0]);
        product_units(a);
        sum_laws(c[0], 0, 0);
    } else {
        let d = c.drop_last();
        lemma_dot_powers_front(d, a);
        lemma_dot_agree(p.drop_last(), c, d);
        let q = powers(a, (n - 2) as nat);
        let rest = c.skip(1);
        assert(powers(a, (n - 1) as nat).drop_last() =~= q);
        assert(d.skip(1) =~= rest.drop_last());
        lemma_dot_agree(q, d.skip(1), rest);
        let x = dot(q, rest);
        let hi = power(a, (n - 2) as nat);
        let last = c[n - 1];
        assert(dot(powers(a, (n - 1) as nat), rest) == x ^ product(hi, last));
        assert(dot(p, c) == dot(p.drop_last(), c) ^ product(product(hi, a), last));
        // a * (x + hi * last) == a * x + (hi * a) * last
        product_distributes(a, x, product(hi, last));
        product_associates(a, hi, last);
        product_commutes(a, hi);
        sum_laws(c[0], product(a, x), product(product(hi, a), last));
    }
}

/// Division by `x - a` with remainder, evaluated at `b`.
proof fn lemma_division(c: Seq<u8>, a: u8, b: u8)
    requires
        c.len() > 0,
    ensures
        value_at(c, b) == value_at(c, a) ^ product(a ^ b, value_at(quotient(c, a), b)),
        quotient(c, a).len() == c.len() - 1,
    decreases c.len(),
{
    let r = c.skip(1);
    if c.len() == 1 {
        assert(r =~= Seq::<u8>::empty());
        assert(value_at(r, a) == 0 && value_at(r, b) == 0);
        assert(value_at(quotient(c, a), b) == 0);
        product_units(a);
        product_units(b);
        product_units(a ^ b);
        sum_laws(c[0], 0, 0);
    } else {
        lemma_division(r, a, b);
        let qr = quotient(r, a);
        let q = quotient(c, a);
        assert(q.skip(1) =~= qr);
        let ra = value_at(r, a);
        let w = value_at(qr, b);
        let d = a ^ b;
        assert(value_at(q, b) == ra ^ product(b, w));
        // c(b) = c0 + b * (ra + d * w)
        product_distributes(b, ra, product(d, w));
        // d * (ra + b * w) = d * ra + d * (b * w)
        product_distributes(d, ra, product(b, w));
        product_associates(d, b, w);
        product_commutes(d, b);
        product_associates(b, d, w);
        gf256::product_distributes_left(a, b, ra);
        let pa = product(a, ra);
        let pb = product(b, ra);
        let z = product(b, product(d, w));
        assert(value_at(c, b) == c[0] ^ (pb ^ z));
        assert(value_at(c, a) == c[0] ^ pa);
        assert(product(d, value_at(q, b)) == (pa ^ pb) ^ z);
        assert(c[0] ^ (pb ^ z) == (c[0] ^ pa) ^ ((pa ^ pb) ^ z)) by {
            lemma_cancel_middle(c[0], pa, pb, z);
        }
    }
}

proof fn lemma_cancel_middle(c: u8, p: u8, q: u8, z: u8)
    ensures
        c ^ (q ^ z) == (c ^ p) ^ ((p ^ q) ^ z),
{
    assert(c ^ (q ^ z) == (c ^ p) ^ ((p ^ q) ^ z)) by (bit_vector);
}

/// A polynomial with value zero at `a` and quotient zero is zero.
proof fn lemma_zero_from_quotient(c: Seq<u8>, a: u8)
    requires
        value_at(c, a) == 0,
        is_zero(quotient(c, a)),
    ensures
        is_zero(c),
    decreases c.len(),
{
    if c.len() == 1 {
        assert(c.skip(1) =~= Seq::<u8>::empty());
        assert(value_at(c.skip(1), a) == 0);
        product_units(a);
        sum_laws(c[0], 0, 0);
        assert(value_at(c, a) == c[0]);
    } else if c.len() > 1 {
        let r = c.skip(1);
        lemma_division(c, a, a);
        lemma_division(r, a, a);
        let q = quotient(c, a);
        assert(q[0] == 0);
        assert(q[0] == value_at(r, a));
        assert forall|j: int| 0 <= j < quotient(r, a).len() implies quotient(r, a)[j] == 0 by {
            assert(q[j + 1] == quotient(r, a)[j]);
            assert(q[j + 1] == 0);
        }
        lemma_zero_from_quotient(r, a);
        product_units(a);
        sum_laws(c[0], 0, 0);
        assert forall|j: int| 0 <= j < c.len() implies c[j] == 0 by {
            if j > 0 {
                assert(r[j - 1] == 0);
            }
        }
    }
}

/// A polynomial with as many distinct roots as coefficients is zero.
proof fn lemma_roots(c: Seq<u8>, xs: Seq<u8>)
    requires
        c.len() <= xs.len(),
        forall|i: int, j: int| 0 <= i < j < xs.len() ==> xs[i] != xs[j],
        forall|i: int| 0 <= i < xs.len() ==> value_at(c, #[trigger] xs[i]) == 0,
    ensures
        is_zero(c),
    decreases c.len(),
{
    if c.len() > 0 {
        let a = xs[0];
        let q = quotient(c, a);
        let rest = xs.skip(1);
        assert(value_at(c, xs[0]) == 0);
        lemma_division(c, a, a);
        assert forall|i: int| 0 <= i < rest.len() implies value_at(q, #[trigger] rest[i]) == 0 by {
            let b = rest[i];
            assert(b == xs[i + 1]);
            assert(xs[0] != xs[i + 1]);
            assert(value_at(c, xs[i + 1]) == 0);
            lemma_division(c, a, b);
            sum_laws(product(a ^ b, value_at(q, b)), 0, 0);
            sum_laws(a, b, 0);
            product_zero(a ^ b, value_at(q, b));
        }
        lemma_roots(q, rest);
        lemma_zero_from_quotient(c, a);
    }
}

/// `A v`: entry `i` is the inner product of row `i` with `v`.
pub open spec fn apply(a: Seq<Seq<u8>>, v: Seq<u8>) -> Seq<u8> {
    Seq::new(a.len(), |i: int| dot(a[i], v))
}

/// `b` undoes `a` and `a` undoes `b`, as `k` by `k` matrices.
pub open spec fn mutual_inverses(a: Seq<Seq<u8>>, b: Seq<Seq<u8>>, k: nat) -> bool {
    &&& shaped(b, k as int, k as int)
    &&& forall|v: Seq<u8>, w: Seq<u8>|
        v.len() == k && w.len() == k ==> (#[trigger] apply(a, v) == w <==> v == #[trigger] apply(b, w))
}

/// The first row from `p` on with an entry in column `r`; the number of rows where
/// there is none.
pub open spec fn pivot_row(rows: Seq<Seq<u8>>, r: int, p: int) -> int
    decreases rows.len() - p,
{
    if 0 <= p < rows.len() && rows[p][r] == 0 {
        pivot_row(rows, r, p + 1)
    } else {
        p
    }
}

/// Rows with two of them swapped.
pub open spec fn swapped(rows: Seq<Seq<u8>>, r: int, p: int) -> Seq<Seq<u8>> {
    if r != p {
        rows.update(r, rows[p]).update(p, rows[r])
    } else {
        rows
    }
}

/// Rows with row `r` scaled to a one in column `r`.
pub open spec fn scaled(rows: Seq<Seq<u8>>, r: int) -> Seq<Seq<u8>> {
    rows.update(r, vec_scale(gf256::inverse(rows[r][r]), rows[r]))
}

/// Rows with column `r` cleared by row `r`, but for that row.
pub open spec fn cleared(rows: Seq<Seq<u8>>, r: int) -> Seq<Seq<u8>> {
    Seq::new(
        rows.len(),
        |i: int|
            if i != r {
                vec_combine(rows[i][r], rows[r], rows[i])
            } else {
                rows[i]
            },
    )
}

/// Rows after Gauss-Jordan elimination of the first `r` columns. A column without
/// a pivot is passed over, and so is the row of its number.
pub open spec fn eliminated(rows: Seq<Seq<u8>>, r: nat) -> Seq<Seq<u8>>
    decreases r,
{
    if r == 0 {
        rows
    } else {
        let before = eliminated(rows, (r - 1) as nat);
        let p = pivot_row(before, r - 1, r - 1);
        if p < before.len() {
            cleared(scaled(swapped(before, r - 1, p), r - 1), r - 1)
        } else {
            before
        }
    }
}

/// A matrix with the identity beside it.
pub open spec fn augmented(a: Seq<Seq<u8>>, k: nat) -> Seq<Seq<u8>> {
    Seq::new(k, |i: int| a[i] + unit(k, i))
}

/// What Gauss-Jordan elimination makes of the identity beside a `k` by `k` matrix:
/// its inverse, where it has one.
pub open spec fn gauss_jordan(a: Seq<Seq<u8>>, k: nat) -> Seq<Seq<u8>> {
    Seq::new(k, |i: int| eliminated(augmented(a, k), k)[i].skip(k as int))
}

/// The inverse of the first `k` rows of the Vandermonde matrix, as far as they
/// have one: up to 256 of them do.
pub open spec fn vandermonde_inverse(k: nat) -> Seq<Seq<u8>> {
    gauss_jordan(vandermonde(k, k), k)
}

proof fn lemma_pivot_row(rows: Seq<Seq<u8>>, r: int, p: int)
    requires
        0 <= p <= rows.len(),
    ensures
        p <= pivot_row(rows, r, p) <= rows.len(),
        forall|q: int| p <= q < pivot_row(rows, r, p) ==> (#[trigger] rows[q])[r] == 0,
        pivot_row(rows, r, p) < rows.len() ==> rows[pivot_row(rows, r, p)][r] != 0,
    decreases rows.len() - p,
{
    if p < rows.len() && rows[p][r] == 0 {
        lemma_pivot_row(rows, r, p + 1);
    }
}

proof fn lemma_eliminated_shape(rows: Seq<Seq<u8>>, l: int, r: nat)
    requires
        r <= rows.len(),
        forall|q: int| 0 <= q < rows.len() ==> (#[trigger] rows[q]).len() == l,
    ensures
        eliminated(rows, r).len() == rows.len(),
        forall|q: int| 0 <= q < rows.len() ==> (#[trigger] eliminated(rows, r)[q]).len() == l,
    decreases r,
{
    if r > 0 {
        lemma_eliminated_shape(rows, l, (r - 1) as nat);
        let before = eliminated(rows, (r - 1) as nat);
        lemma_pivot_row(before, r - 1, r - 1);
        let p = pivot_row(before, r - 1, r - 1);
        if p < before.len() {
            assert forall|q: int| 0 <= q < rows.len() implies (#[trigger] eliminated(rows, r)[q]).len()
                == l by {
                assert(before[q].len() == l && before[p].len() == l && before[r - 1].len() == l);
            }
        }
    }
}

/// A matrix has one inverse.
proof fn lemma_inverse_unique(a: Seq<Seq<u8>>, b: Seq<Seq<u8>>, c: Seq<Seq<u8>>, k: nat)
    requires
        a.len() == k,
        mutual_inverses(a, b, k),
        mutual_inverses(a, c, k),
    ensures
        b == c,
{
    assert forall|r: int, j: int| 0 <= r < k && 0 <= j < k implies b[r][j] == c[r][j] by {
        let e = unit(k, j);
        let v = apply(b, e);
        assert(v.len() == k);
        assert(apply(a, v) == e);
        assert(v == apply(c, e));
        assert(v[r] == dot(b[r], e));
        assert(v[r] == dot(c[r], e));
        assert(b[r].len() == k && c[r].len() == k);
        lemma_dot_single(b[r], e, j);
        lemma_dot_single(c[r], e, j);
        product_units(b[r][j]);
        product_units(c[r][j]);
    }
    assert forall|r: int| 0 <= r < k implies b[r] == c[r] by {
        assert(b[r].len() == k && c[r].len() == k);
        assert(b[r] =~= c[r]);
    }
    assert(b =~= c);
}

/// The pivots `0, 1, .., n - 1`.
spec fn diagonal(n: nat) -> Seq<int> {
    Seq::new(n, |i: int| i)
}

/// Fewer columns of an independent set are independent.
proof fn lemma_fewer_columns(rows: Seq<Seq<u8>>, k: int, l: int, c: int)
    requires
        0 <= c <= k <= l,
        forall|i: int| 0 <= i < rows.len() ==> (#[trigger] rows[i]).len() == l,
        full_rank(rows, k),
    ensures
        full_rank(rows, c),
{
    assert forall|v: Seq<u8>| v.len() == c && #[trigger] kernel(rows, c, v) implies is_zero(v) by {
        let z = Seq::new((k - c) as nat, |i: int| 0u8);
        let y = v + z;
        assert forall|i: int| 0 <= i < rows.len() implies dot((#[trigger] rows[i]).take(k), y) == 0 by {
            let row = rows[i].take(k);
            assert(row =~= row.take(c) + row.skip(c));
            assert(row.take(c) =~= rows[i].take(c));
            lemma_dot_concat(row.take(c), row.skip(c), v, z);
            lemma_dot_none(row.skip(c), z);
            assert(dot(rows[i].take(c), v) == 0);
            sum_laws(0, 0, 0);
        }
        assert(kernel(rows, k, y));
        assert forall|j: int| 0 <= j < v.len() implies v[j] == 0 by {
            assert(y[j] == 0);
        }
    }
}

/// `A v == w` exactly if `(v, w)` is orthogonal to the rows `[A | I]`.
proof fn lemma_augmented(a: Seq<Seq<u8>>, rows: Seq<Seq<u8>>, k: nat, v: Seq<u8>, w: Seq<u8>)
    requires
        shaped(a, k as int, k as int),
        rows.len() == k,
        forall|i: int| 0 <= i < k ==> #[trigger] rows[i] == a[i] + unit(k, i),
        v.len() == k,
        w.len() == k,
    ensures
        apply(a, v) == w <==> cancels(rows, v + w),
{
    assert forall|i: int| 0 <= i < k implies dot(#[trigger] rows[i], v + w) == dot(a[i], v) ^ w[i] by {
        assert(a[i].len() == k);
        lemma_dot_concat(a[i], unit(k, i), v, w);
        lemma_dot_single(unit(k, i), w, i);
        product_units(w[i]);
    }
    if apply(a, v) == w {
        assert forall|i: int| 0 <= i < rows.len() implies dot(#[trigger] rows[i], v + w) == 0 by {
            assert(apply(a, v)[i] == w[i]);
            sum_laws(w[i], 0, 0);
        }
    }
    if cancels(rows, v + w) {
        assert forall|i: int| 0 <= i < k implies apply(a, v)[i] == w[i] by {
            assert(dot(rows[i], v + w) == 0);
            sum_laws(dot(a[i], v), w[i], 0);
        }
        assert(apply(a, v) =~= w);
    }
}

/// `v == B w` exactly if `(v, w)` is orthogonal to the reduced rows `[I | B]`.
proof fn lemma_reduced_augmented(rows: Seq<Seq<u8>>, b: Seq<Seq<u8>>, k: nat, v: Seq<u8>, w: Seq<u8>)
    requires
        rows.len() == k,
        forall|i: int| 0 <= i < k ==> (#[trigger] rows[i]).len() == 2 * k,
        reduced(rows, diagonal(k), k as int),
        b.len() == k,
        forall|i: int| 0 <= i < k ==> #[trigger] b[i] == rows[i].skip(k as int),
        v.len() == k,
        w.len() == k,
    ensures
        v == apply(b, w) <==> cancels(rows, v + w),
{
    let ps = diagonal(k);
    assert forall|i: int| 0 <= i < k implies dot(#[trigger] rows[i], v + w) == v[i] ^ dot(b[i], w) by {
        let row = rows[i];
        assert(row =~= row.take(k as int) + row.skip(k as int));
        lemma_dot_concat(row.take(k as int), row.skip(k as int), v, w);
        assert(row[ps[i]] == 1);
        assert forall|j: int| 0 <= j < k && j != i implies row[j] == 0 by {
            assert(rows[i][ps[j]] == 0);
        }
        lemma_dot_single(row.take(k as int), v, i);
        product_units(v[i]);
        assert(b[i] == row.skip(k as int));
    }
    if v == apply(b, w) {
        assert forall|i: int| 0 <= i < rows.len() implies dot(#[trigger] rows[i], v + w) == 0 by {
            sum_laws(v[i], 0, 0);
        }
    }
    if cancels(rows, v + w) {
        assert forall|i: int| 0 <= i < k implies v[i] == apply(b, w)[i] by {
            assert(dot(rows[i], v + w) == 0);
            sum_laws(v[i], dot(b[i], w), 0);
        }
        assert(v =~= apply(b, w));
    }
}

/// Elimination on rows of full rank always finds a pivot.
proof fn lemma_pivot_exists(start: Seq<Seq<u8>>, rows: Seq<Seq<u8>>, n: int, r: int)
    requires
        0 <= r < n,
        start.len() == n,
        rows.len() == n,
        forall|q: int| 0 <= q < n ==> (#[trigger] start[q]).len() == 2 * n,
        forall|q: int| 0 <= q < n ==> (#[trigger] rows[q]).len() == 2 * n,
        full_rank(start, n),
        reduced(rows, diagonal(r as nat), r),
        forall|y: Seq<u8>|
            y.len() == 2 * n ==> (#[trigger] cancels(start, y) <==> cancels(rows, y)),
    ensures
        exists|p: int| r <= p < n && (#[trigger] rows[p])[r] != 0,
{
    if forall|p: int| r <= p < n ==> (#[trigger] rows[p])[r] == 0 {
        let ps = diagonal(r as nat);
        assert(reduced(rows, ps, r + 1)) by {
            assert forall|i: int, c: int| ps.len() <= i < rows.len() && 0 <= c < r + 1 implies #[trigger] rows[i][c]
                == 0 by {}
        }
        assert(is_reduced(rows, r + 1, r));
        lemma_rank_decides(rows, r + 1, r);
        assert forall|v: Seq<u8>| v.len() == n implies (kernel(start, n, v) <==> kernel(rows, n, v)) by {
            lemma_kernel_kept(start, rows, n, 2 * n, v);
        }
        assert(full_rank(rows, n)) by {
            assert forall|v: Seq<u8>| v.len() == n && #[trigger] kernel(rows, n, v) implies is_zero(v) by {
                assert(kernel(start, n, v));
            }
        }
        lemma_fewer_columns(rows, n, 2 * n, r + 1);
    }
}

/// Elimination brings rows of full rank to the identity.
proof fn lemma_reducible(start: Seq<Seq<u8>>, n: int, r: nat)
    requires
        r <= n,
        start.len() == n,
        forall|q: int| 0 <= q < n ==> (#[trigger] start[q]).len() == 2 * n,
        full_rank(start, n),
    ensures
        reduced(eliminated(start, r), diagonal(r), r as int),
        forall|y: Seq<u8>|
            y.len() == 2 * n ==> (#[trigger] cancels(start, y) <==> cancels(eliminated(start, r), y)),
    decreases r,
{
    if r == 0 {
        assert(diagonal(0) =~= Seq::<int>::empty());
    } else {
        let c = r - 1;
        lemma_reducible(start, n, c as nat);
        lemma_eliminated_shape(start, 2 * n, c as nat);
        let rows = eliminated(start, c as nat);
        lemma_pivot_exists(start, rows, n, c);
        lemma_pivot_row(rows, c, c);
        let p = pivot_row(rows, c, c);
        assert(p < n) by {
            let q = choose|q: int| c <= q < n && (#[trigger] rows[q])[c] != 0;
        }
        let rows1 = swapped(rows, c, p);
        let rows2 = scaled(rows1, c);
        let rows3 = cleared(rows2, c);
        let scale = gf256::inverse(rows[p][c]);
        assert(rows1[c] == rows[p]);
        lemma_pivot_step(rows, rows1, rows2, rows3, diagonal(c as nat), c, p, c, scale, 2 * n);
        assert(diagonal(c as nat).push(c) =~= diagonal(r));
        assert forall|y: Seq<u8>| y.len() == 2 * n implies (#[trigger] cancels(start, y) <==> cancels(
            rows3,
            y,
        )) by {
            assert(cancels(start, y) <==> cancels(rows, y));
            lemma_pivot_keeps(rows, rows1, rows2, rows3, c, p, c, scale, 2 * n, y);
        }
    }
}

/// Elimination inverts a square matrix of full rank.
proof fn lemma_inverted(a: Seq<Seq<u8>>, k: nat)
    requires
        shaped(a, k as int, k as int),
        full_rank(a, k as int),
    ensures
        mutual_inverses(a, gauss_jordan(a, k), k),
{
    let n = k as int;
    let start = augmented(a, k);
    assert forall|q: int| 0 <= q < n implies (#[trigger] start[q]).len() == 2 * n by {
        assert(a[q].len() == k);
    }
    assert(full_rank(start, n)) by {
        assert forall|v: Seq<u8>| v.len() == n && #[trigger] kernel(start, n, v) implies is_zero(v) by {
            assert forall|q: int| 0 <= q < a.len() implies dot((#[trigger] a[q]).take(n), v) == 0 by {
                assert(a[q].len() == k);
                assert(start[q].take(n) =~= a[q].take(n));
                assert(dot(start[q].take(n), v) == 0);
            }
            assert(kernel(a, n, v));
        }
    }
    lemma_reducible(start, n, k);
    lemma_eliminated_shape(start, 2 * n, k);
    let rows = eliminated(start, k);
    let b = gauss_jordan(a, k);
    assert forall|q: int| 0 <= q < n implies (#[trigger] b[q]).len() == n by {
        assert(rows[q].len() == 2 * n);
    }
    assert forall|v: Seq<u8>, w: Seq<u8>| v.len() == k && w.len() == k implies (#[trigger] apply(a, v)
        == w <==> v == #[trigger] apply(b, w)) by {
        lemma_augmented(a, start, k, v, w);
        lemma_reduced_augmented(rows, b, k, v, w);
        let y = v + w;
        assert(cancels(start, y) <==> cancels(rows, y));
    }
}

/// Invert a `k` by `k` matrix by Gauss-Jordan elimination.
fn invert_matrix(a: &Vec<Vec<u8>>, k: usize) -> (b: Vec<Vec<u8>>)
    requires
        shaped(views(a@), k as int, k as int),
        2 * k <= usize::MAX,
    ensures
        shaped(views(b@), k as int, k as int),
        views(b@) == gauss_jordan(views(a@), k as nat),
{
    let ghost m = views(a@);
    let mut rows: Vec<Vec<u8>> = Vec::new();
    let mut i: usize = 0;
    while i < k
        invariant
            i <= k,
            2 * k <= usize::MAX,
            m == views(a@),
            shaped(m, k as int, k as int),
            rows@.len() == i,
            forall|q: int| 0 <= q < i ==> (#[trigger] rows@[q])@ == m[q] + unit(k as nat, q),
        decreases k - i,
    {
        assert(m[i as int] == a@[i as int]@);
        assert(m[i as int].len() == k);
        let mut row: Vec<u8> = copy_range(a[i].as_slice(), 0, k);
        let mut j: usize = 0;
        while j < k
            invariant
                j <= k,
                i < k,
                m[i as int].len() == k,
                row@ == m[i as int] + unit(k as nat, i as int).take(j as int),
            decreases k - j,
        {
            row.push(if j == i {
                1
            } else {
                0
            });
            j += 1;
            assert(row@ =~= m[i as int] + unit(k as nat, i as int).take(j as int));
        }
        assert(unit(k as nat, i as int).take(j as int) =~= unit(k as nat, i as int));
        rows.push(row);
        i += 1;
    }
    let ghost start = augmented(m, k as nat);
    assert(views(rows@) =~= start);
    assert forall|q: int| 0 <= q < k implies (#[trigger] start[q]).len() == 2 * k by {
        assert(m[q].len() == k);
    }
    let mut r: usize = 0;
    while r < k
        invariant
            r <= k,
            2 * k <= usize::MAX,
            rows@.len() == k,
            start.len() == k,
            forall|q: int| 0 <= q < k ==> (#[trigger] start[q]).len() == 2 * k,
            views(rows@) == eliminated(start, r as nat),
        decreases k - r,
    {
        let ghost rows0 = views(rows@);
        proof {
            lemma_eliminated_shape(start, 2 * k, r as nat);
        }
        assert forall|q: int| 0 <= q < k implies (#[trigger] rows@[q])@.len() == 2 * k by {
            assert(rows0[q].len() == 2 * k);
        }
        let mut p: usize = r;
        while p < k && rows[p][r] == 0
            invariant
                r <= p <= k,
                r < k,
                rows@.len() == k,
                rows0 == views(rows@),
                forall|q: int| 0 <= q < k ==> (#[trigger] rows@[q])@.len() == 2 * k,
                pivot_row(rows0, r as int, r as int) == pivot_row(rows0, r as int, p as int),
            decreases k - p,
        {
            assert(rows0[p as int] == rows@[p as int]@);
            p += 1;
        }
        assert(pivot_row(rows0, r as int, p as int) == p) by {
            if p < k {
                assert(rows0[p as int] == rows@[p as int]@);
            }
        }
        if p < k {
            let mut tmp: Vec<u8> = Vec::new();
            if r != p {
                std::mem::swap(&mut tmp, &mut rows[r]);
                std::mem::swap(&mut tmp, &mut rows[p]);
                std::mem::swap(&mut tmp, &mut rows[r]);
            }
            let ghost rows1 = views(rows@);
            assert(rows1 =~= swapped(rows0, r as int, p as int));
            assert(rows1[r as int] == rows@[r as int]@);
            assert(rows0[p as int].len() == 2 * k);
            let scale: u8 = gf256::inv(rows[r][r]);
            gf256::gf_scal_slice(scale, rows[r].as_mut_slice());
            let ghost rows2 = views(rows@);
            assert(rows2[r as int] =~= vec_scale(scale, rows1[r as int]));
            assert(rows2 =~= scaled(rows1, r as int));
            let prow: Vec<u8> = copy_range(rows[r].as_slice(), 0, rows[r].len());
            assert(prow@ =~= rows2[r as int]);
            assert forall|q: int| 0 <= q < k implies (#[trigger] rows2[q]).len() == 2 * k by {
                assert(rows0[q].len() == 2 * k && rows0[r as int].len() == 2 * k);
            }
            let mut rr: usize = 0;
            while rr < k
                invariant
                    rr <= k,
                    r < k,
                    rows@.len() == k,
                    rows2.len() == k,
                    prow@ == rows2[r as int],
                    prow@.len() == 2 * k,
                    forall|q: int| 0 <= q < k ==> (#[trigger] rows2[q]).len() == 2 * k,
                    forall|q: int|
                        0 <= q < k ==> (#[trigger] rows@[q])@ == (if q < rr && q != r {
                            vec_combine(rows2[q][r as int], prow@, rows2[q])
                        } else {
                            rows2[q]
                        }),
                decreases k - rr,
            {
                assert(rows@[rr as int]@ == rows2[rr as int]);
                assert(rows2[rr as int].len() == 2 * k);
                let c: u8 = rows[rr][r];
                proof {
                    let before = rows2[rr as int];
                    if c == 0 {
                        assert(vec_combine(c, prow@, before) =~= before) by {
                            assert forall|t: int| 0 <= t < before.len() implies vec_combine(
                                c,
                                prow@,
                                before,
                            )[t] == before[t] by {
                                product_units(prow@[t]);
                                sum_laws(before[t], 0, 0);
                            }
                        }
                    } else {
                        assert(gf256::axpy_at(c, prow@, before, 0) =~= vec_combine(c, prow@, before));
                    }
                }
                if rr != r && c != 0 {
                    gf256::gf_axpy_slice(c, prow.as_slice(), rows[rr].as_mut_slice());
                }
                rr += 1;
            }
            assert(views(rows@) =~= cleared(rows2, r as int));
        }
        assert(views(rows@) == eliminated(start, (r + 1) as nat));
        r += 1;
    }
    proof {
        lemma_eliminated_shape(start, 2 * k, k as nat);
    }
    assert forall|q: int| 0 <= q < k implies (#[trigger] rows@[q])@.len() == 2 * k by {
        assert(views(rows@)[q].len() == 2 * k);
    }
    let mut b: Vec<Vec<u8>> = Vec::new();
    let mut i: usize = 0;
    while i < k
        invariant
            i <= k,
            2 * k <= usize::MAX,
            rows@.len() == k,
            forall|q: int| 0 <= q < k ==> (#[trigger] rows@[q])@.len() == 2 * k,
            b@.len() == i,
            forall|q: int| 0 <= q < i ==> (#[trigger] b@[q])@ == rows@[q]@.skip(k as int),
        decreases k - i,
    {
        assert(rows@[i as int]@.len() == 2 * k);
        let row: Vec<u8> = copy_range(rows[i].as_slice(), k, 2 * k);
        assert(row@ =~= rows@[i as int]@.skip(k as int));
        b.push(row);
        i += 1;
    }
    proof {
        assert forall|q: int| 0 <= q < k implies (#[trigger] views(b@)[q]).len() == k && views(b@)[q]
            == gauss_jordan(m, k as nat)[q] by {
            assert(b@[q]@ == rows@[q]@.skip(k as int));
            assert(rows@[q]@.len() == 2 * k);
            assert(views(rows@)[q] == rows@[q]@);
        }
        assert(views(b@) =~= gauss_jordan(m, k as nat));
    }
    b
}

/// The rows of the Vandermonde matrix at distinct field elements are independent.
proof fn lemma_vandermonde_independent(rows: Seq<Seq<u8>>, xs: Seq<u8>, k: nat)
    requires
        rows.len() == xs.len(),
        k <= xs.len(),
        forall|i: int, j: int| 0 <= i < j < xs.len() ==> xs[i] != xs[j],
        forall|i: int| 0 <= i < xs.len() ==> #[trigger] rows[i] == powers(xs[i], k),
    ensures
        full_rank(rows, k as int),
{
    assert forall|v: Seq<u8>| v.len() == k && #[trigger] kernel(rows, k as int, v) implies is_zero(v) by {
        assert forall|i: int| 0 <= i < xs.len() implies value_at(v, #[trigger] xs[i]) == 0 by {
            assert(rows[i] == powers(xs[i], k));
            assert(rows[i].take(k as int) =~= powers(xs[i], k));
            assert(dot(rows[i].take(k as int), v) == 0);
            lemma_dot_powers(v, xs[i]);
        }
        lemma_roots(v, xs);
    }
}

/// The combination of the first `n` rows of `b` with the coefficients `c`.
pub open spec fn row_combination(c: Seq<u8>, b: Seq<Seq<u8>>, k: nat, n: nat) -> Seq<u8>
    decreases n,
{
    if n == 0 {
        Seq::new(k, |j: int| 0u8)
    } else {
        vec_combine(c[n - 1], b[n - 1], row_combination(c, b, k, (n - 1) as nat))
    }
}

/// `(c B) . w == c . (B w)`.
proof fn lemma_row_combination(c: Seq<u8>, b: Seq<Seq<u8>>, k: nat, n: nat, w: Seq<u8>)
    requires
        n <= b.len(),
        n <= c.len(),
        forall|i: int| 0 <= i < b.len() ==> (#[trigger] b[i]).len() == k,
    ensures
        row_combination(c, b, k, n).len() == k,
        dot(row_combination(c, b, k, n), w) == dot(c.take(n as int), apply(b, w)),
    decreases n,
{
    if n == 0 {
        lemma_dot_none(row_combination(c, b, k, 0), w);
        assert(c.take(0) =~= Seq::<u8>::empty());
    } else {
        let m = (n - 1) as nat;
        lemma_row_combination(c, b, k, m, w);
        lemma_dot_combine(c[m as int], b[m as int], row_combination(c, b, k, m), w);
        assert(c.take(n as int).drop_last() =~= c.take(m as int));
        assert(c.take(n as int).last() == c[m as int]);
        assert(apply(b, w)[m as int] == dot(b[m as int], w));
    }
}

/// The systematic generator for `k` data and `m` parity symbols: the identity,
/// then each parity row of the Vandermonde matrix times the inverse of its head.
pub open spec fn generator_rows(k: nat, m: nat) -> Seq<Seq<u8>> {
    Seq::new(
        k + m,
        |i: int|
            if i < k {
                unit(k, i)
            } else {
                row_combination(powers(alpha(i), k), vandermonde_inverse(k), k, k)
            },
    )
}

/// The first `k` field elements are distinct.
proof fn lemma_alphas_distinct(i: int, j: int)
    requires
        0 <= i < 256,
        0 <= j < 256,
        i != j,
    ensures
        alpha(i) != alpha(j),
{
    assert(256u16 as u8 == 0u8) by (bit_vector);
}

/// The head of the Vandermonde matrix has an inverse.
proof fn lemma_head_regular(k: nat)
    requires
        k <= 256,
    ensures
        full_rank(vandermonde(k, k), k as int),
{
    let xs = Seq::new(k, |i: int| alpha(i));
    assert forall|i: int, j: int| 0 <= i < j < xs.len() implies xs[i] != xs[j] by {
        lemma_alphas_distinct(i, j);
    }
    lemma_vandermonde_independent(vandermonde(k, k), xs, k);
}

/// The generator row `i` applied to `A v` is the Vandermonde row `i` applied to
/// `v`, where `A` is the head.
proof fn lemma_generator_row(k: nat, m: nat, i: int, v: Seq<u8>)
    requires
        k <= 256,
        0 <= i < k + m,
        v.len() == k,
    ensures
        dot(generator_rows(k, m)[i], apply(vandermonde(k, k), v)) == dot(powers(alpha(i), k), v),
        generator_rows(k, m)[i].len() == k,
{
    lemma_head_inverse(k);
    let a = vandermonde(k, k);
    let b = vandermonde_inverse(k);
    let w = apply(a, v);
    if i < k {
        lemma_dot_single(unit(k, i), w, i);
        product_units(w[i]);
    } else {
        let c = powers(alpha(i), k);
        assert forall|q: int| 0 <= q < b.len() implies (#[trigger] b[q]).len() == k by {}
        lemma_row_combination(c, b, k, k, w);
        assert(c.take(k as int) =~= c);
        assert(v == apply(b, w));
    }
}

/// The head of the Vandermonde matrix has exactly one inverse.
proof fn lemma_head_inverse(k: nat)
    requires
        k <= 256,
    ensures
        mutual_inverses(vandermonde(k, k), vandermonde_inverse(k), k),
        forall|b: Seq<Seq<u8>>| #[trigger]
            mutual_inverses(vandermonde(k, k), b, k) ==> b == vandermonde_inverse(k),
{
    let a = vandermonde(k, k);
    assert forall|j: int| 0 <= j < k implies (#[trigger] a[j]).len() == k by {}
    lemma_head_regular(k);
    lemma_inverted(a, k);
    assert forall|c: Seq<Seq<u8>>| #[trigger] mutual_inverses(a, c, k) implies c
        == vandermonde_inverse(k) by {
        lemma_inverse_unique(a, c, vandermonde_inverse(k), k);
    }
}

/// A codeword holds the values of one polynomial: where the data symbols are its
/// values at one, two and so on, every further symbol is its value at the number
/// that comes next.
pub proof fn a_codeword_is_a_polynomial(k: nat, m: nat, c: Seq<u8>, i: int)
    requires
        k + m <= 256,
        0 <= i < k + m,
        c.len() == k,
    ensures
        dot(generator_rows(k, m)[i], Seq::new(k, |j: int| value_at(c, (j + 1) as u8))) == value_at(
            c,
            (i + 1) as u8,
        ),
{
    let values = Seq::new(k, |j: int| value_at(c, (j + 1) as u8));
    let a = vandermonde(k, k);
    assert(apply(a, c) =~= values) by {
        assert forall|j: int| 0 <= j < k implies apply(a, c)[j] == values[j] by {
            lemma_dot_powers(c, alpha(j));
        }
    }
    lemma_generator_row(k, m, i, c);
    lemma_dot_powers(c, alpha(i));
}

/// Any `k` rows of the generator at distinct positions are independent, as long
/// as there are at most 256 rows: the code is maximum distance separable.
pub proof fn any_k_rows_are_independent(k: nat, m: nat, at: Seq<int>)
    requires
        k + m <= 256,
        at.len() == k,
        forall|i: int| 0 <= i < k ==> 0 <= #[trigger] at[i] < k + m,
        forall|i: int, j: int| 0 <= i < j < k ==> at[i] != at[j],
    ensures
        full_rank(Seq::new(k, |i: int| generator_rows(k, m)[at[i]]), k as int),
{
    lemma_head_inverse(k);
    let a = vandermonde(k, k);
    let b = vandermonde_inverse(k);
    let rows = Seq::new(k, |i: int| generator_rows(k, m)[at[i]]);
    let xs = Seq::new(k, |i: int| alpha(at[i]));
    assert forall|i: int, j: int| 0 <= i < j < xs.len() implies xs[i] != xs[j] by {
        assert(0 <= at[i] < k + m && 0 <= at[j] < k + m);
        lemma_alphas_distinct(at[i], at[j]);
    }
    assert forall|w: Seq<u8>| w.len() == k && #[trigger] kernel(rows, k as int, w) implies is_zero(w) by {
        let v = apply(b, w);
        assert(apply(a, v) == w);
        assert forall|i: int| 0 <= i < xs.len() implies value_at(v, #[trigger] xs[i]) == 0 by {
            assert(0 <= at[i] < k + m);
            lemma_generator_row(k, m, at[i], v);
            assert(rows[i].take(k as int) =~= rows[i]);
            assert(dot(rows[i].take(k as int), w) == 0);
            lemma_dot_powers(v, xs[i]);
        }
        lemma_roots(v, xs);
        assert forall|j: int| 0 <= j < w.len() implies w[j] == 0 by {
            assert(w[j] == apply(a, v)[j]);
            lemma_dot_none(a[j], v);
        }
    }
}

/// The systematic generator.
fn generator(k: usize, m: usize) -> (g: Vec<Vec<u8>>)
    requires
        2 * k <= usize::MAX,
        k + m <= usize::MAX,
    ensures
        shaped(views(g@), k + m, k as int),
        forall|i: int| 0 <= i < k ==> (#[trigger] views(g@)[i]) == unit(k as nat, i),
        views(g@) == generator_rows(k as nat, m as nat),
{
    build_generator(k, m)
}

/// The row of powers of the field element of row `i`.
fn power_row(i: usize, k: usize) -> (row: Vec<u8>)
    requires
        i < usize::MAX,
    ensures
        row@ == powers(alpha(i as int), k as nat),
{
    let a: u8 = (i + 1) as u8;
    let mut row: Vec<u8> = Vec::new();
    let mut pow: u8 = 1;
    let mut j: usize = 0;
    while j < k
        invariant
            j <= k,
            a == alpha(i as int),
            pow == power(a, j as nat),
            row@ == powers(a, j as nat),
        decreases k - j,
    {
        row.push(pow);
        pow = gf256::gf_mul(pow, a);
        j += 1;
        assert(row@ =~= powers(a, j as nat));
    }
    row
}

/// The systematic generator, built from the Vandermonde matrix.
fn build_generator(k: usize, m: usize) -> (g: Vec<Vec<u8>>)
    requires
        2 * k <= usize::MAX,
        k + m <= usize::MAX,
    ensures
        shaped(views(g@), k + m, k as int),
        forall|i: int| 0 <= i < k ==> (#[trigger] views(g@)[i]) == unit(k as nat, i),
        views(g@) == generator_rows(k as nat, m as nat),
{
    let n: usize = k + m;
    let mut head: Vec<Vec<u8>> = Vec::new();
    let mut i: usize = 0;
    while i < k
        invariant
            i <= k,
            head@.len() == i,
            forall|q: int| 0 <= q < i ==> (#[trigger] head@[q])@ == powers(alpha(q), k as nat),
        decreases k - i,
    {
        head.push(power_row(i, k));
        i += 1;
    }
    assert(views(head@) =~= vandermonde(k as nat, k as nat));
    let b: Vec<Vec<u8>> = invert_matrix(&head, k);
    let mut g: Vec<Vec<u8>> = Vec::new();
    let mut i: usize = 0;
    while i < k
        invariant
            i <= k,
            g@.len() == i,
            forall|q: int| 0 <= q < i ==> (#[trigger] g@[q])@ == unit(k as nat, q),
        decreases k - i,
    {
        let mut row: Vec<u8> = vec![0u8; k];
        row[i] = 1;
        assert(row@ =~= unit(k as nat, i as int));
        g.push(row);
        i += 1;
    }
    while i < n
        invariant
            k <= i <= n,
            g@.len() == i,
            b@.len() == k,
            views(b@) == vandermonde_inverse(k as nat),
            shaped(views(b@), k as int, k as int),
            forall|q: int| 0 <= q < k ==> (#[trigger] g@[q])@ == unit(k as nat, q),
            forall|q: int|
                k <= q < i ==> (#[trigger] g@[q])@ == row_combination(
                    powers(alpha(q), k as nat),
                    views(b@),
                    k as nat,
                    k as nat,
                ) && g@[q]@.len() == k,
        decreases n - i,
    {
        let p: Vec<u8> = power_row(i, k);
        let mut acc: Vec<u8> = vec![0u8; k];
        let mut t: usize = 0;
        assert(acc@ =~= row_combination(p@, views(b@), k as nat, 0));
        while t < k
            invariant
                t <= k,
                p@.len() == k,
                b@.len() == k,
                acc@.len() == k,
                shaped(views(b@), k as int, k as int),
                acc@ == row_combination(p@, views(b@), k as nat, t as nat),
            decreases k - t,
        {
            let ghost before = acc@;
            assert(views(b@)[t as int].len() == k);
            gf256::gf_axpy_slice(p[t], b[t].as_slice(), acc.as_mut_slice());
            assert(acc@ =~= vec_combine(p@[t as int], views(b@)[t as int], before));
            t += 1;
        }
        g.push(acc);
        i += 1;
    }
    proof {
        assert forall|q: int| 0 <= q < k + m implies (#[trigger] views(g@)[q]).len() == k by {
            if q < k {
                assert(g@[q]@ == unit(k as nat, q));
            } else {
                assert(g@[q]@.len() == k);
            }
        }
        assert(views(g@) =~= generator_rows(k as nat, m as nat));
    }
    g
}

/// The parity symbol of row `g` of the generator: byte `t` is the inner product
/// with byte `t` of the data.
pub open spec fn coded(g: Seq<u8>, data: Seq<Seq<u8>>, s: int) -> Seq<u8> {
    Seq::new(s as nat, |t: int| dot(g, column(data, t)))
}

/// Reed-Solomon encoder for one generation.
pub struct RsEncoder {
    g: Vec<Vec<u8>>,
    k: usize,
    n: usize,
    symbol_size: usize,
}

impl RsEncoder {
    /// The number of data symbols.
    pub closed spec fn data_symbols(&self) -> nat {
        self.k as nat
    }

    /// The number of symbols of a codeword.
    pub closed spec fn code_symbols(&self) -> nat {
        self.n as nat
    }

    /// The length of a symbol.
    pub closed spec fn size(&self) -> nat {
        self.symbol_size as nat
    }

    /// The generator matrix.
    pub closed spec fn matrix(&self) -> Seq<Seq<u8>> {
        views(self.g@)
    }

    /// The generator has a row for each symbol, and its head is the identity.
    pub open spec fn wf(&self) -> bool {
        let k = self.data_symbols();
        &&& k <= self.code_symbols()
        &&& shaped(self.matrix(), self.code_symbols() as int, k as int)
        &&& forall|i: int| 0 <= i < k ==> (#[trigger] self.matrix()[i]) == unit(k, i)
        &&& self.matrix() == generator_rows(k, (self.code_symbols() - k) as nat)
    }

    /// An encoder for `k` data and `m` parity symbols of `symbol_size` bytes.
    pub fn new(k: usize, m: usize, symbol_size: usize) -> (r: Result<Self, RsError>)
        requires
            2 * k <= usize::MAX,
            k + m <= usize::MAX,
        ensures
            k == 0 ==> r == Err::<Self, _>(RsError::Empty),
            k > 0 ==> r is Ok,
            r matches Ok(e) ==> e.wf() && e.data_symbols() == k && e.code_symbols() == k + m
                && e.size() == symbol_size,
    {
        if k == 0 {
            return Err(RsError::Empty);
        }
        Ok(RsEncoder { g: generator(k, m), k, n: k + m, symbol_size })
    }

    /// The number of data symbols.
    pub fn k(&self) -> (k: usize)
        ensures
            k == self.data_symbols(),
    {
        self.k
    }

    /// The number of symbols of a codeword.
    pub fn n(&self) -> (n: usize)
        ensures
            n == self.code_symbols(),
    {
        self.n
    }

    /// The codeword of `data`: the data as it is, then the parity symbols.
    pub fn encode(&self, data: &[Vec<u8>]) -> (r: Result<Vec<Vec<u8>>, RsError>)
        requires
            self.wf(),
        ensures
            data@.len() != self.data_symbols() ==> r == Err::<Vec<Vec<u8>>, _>(
                (RsError::SizeMismatch {
                    a: data@.len() as usize,
                    b: self.data_symbols() as usize,
                }),
            ),
            r is Ok <==> shaped(
                views(data@),
                self.data_symbols() as int,
                self.size() as int,
            ),
            r matches Ok(out) ==> {
                &&& shaped(views(out@), self.code_symbols() as int, self.size() as int)
                &&& forall|i: int|
                    0 <= i < self.data_symbols() ==> (#[trigger] views(out@)[i]) == views(data@)[i]
                &&& forall|i: int|
                    self.data_symbols() <= i < self.code_symbols() ==> (#[trigger] views(out@)[i])
                        == coded(self.matrix()[i], views(data@), self.size() as int)
            },
            r matches Err(e) ==> e is SizeMismatch && (data@.len() == self.data_symbols() ==> e->b
                == self.size() && exists|i: int|
                0 <= i < data@.len() && e->a == (#[trigger] data@[i])@.len() && e->a != self.size()
                    && forall|j: int| 0 <= j < i ==> (#[trigger] data@[j])@.len() == self.size()),
    {
        if data.len() != self.k {
            return Err(RsError::SizeMismatch { a: data.len(), b: self.k });
        }
        let mut i: usize = 0;
        while i < data.len()
            invariant
                i <= data@.len(),
                data@.len() == self.k,
                forall|j: int| 0 <= j < i ==> (#[trigger] data@[j])@.len() == self.symbol_size,
            decreases data@.len() - i,
        {
            let len: usize = data[i].len();
            if len != self.symbol_size {
                assert(views(data@)[i as int].len() != self.symbol_size);
                return Err(RsError::SizeMismatch { a: len, b: self.symbol_size });
            }
            i += 1;
        }
        let ghost d = views(data@);
        let mut out: Vec<Vec<u8>> = Vec::new();
        let mut i: usize = 0;
        while i < self.k
            invariant
                i <= self.k,
                data@.len() == self.k,
                d == views(data@),
                forall|j: int| 0 <= j < self.k ==> (#[trigger] data@[j])@.len() == self.symbol_size,
                out@.len() == i,
                forall|q: int| 0 <= q < i ==> (#[trigger] out@[q])@ == d[q],
            decreases self.k - i,
        {
            let row: Vec<u8> = copy_range(data[i].as_slice(), 0, data[i].len());
            assert(row@ =~= d[i as int]);
            out.push(row);
            i += 1;
        }
        while i < self.n
            invariant
                self.wf(),
                self.k <= i <= self.n,
                data@.len() == self.k,
                d == views(data@),
                forall|j: int| 0 <= j < self.k ==> (#[trigger] data@[j])@.len() == self.symbol_size,
                out@.len() == i,
                forall|q: int| 0 <= q < self.k ==> (#[trigger] out@[q])@ == d[q],
                forall|q: int|
                    self.k <= q < i ==> (#[trigger] out@[q])@ == coded(
                        self.matrix()[q],
                        d,
                        self.symbol_size as int,
                    ),
            decreases self.n - i,
        {
            let ghost g = self.matrix()[i as int];
            assert(g.len() == self.k);
            assert(g == self.g@[i as int]@);
            let mut acc: Vec<u8> = vec![0u8; self.symbol_size];
            let mut j: usize = 0;
            assert(acc@ =~= coded(g.take(0), d, self.symbol_size as int)) by {
                assert(g.take(0) =~= Seq::<u8>::empty());
            }
            while j < self.k
                invariant
                    j <= self.k,
                    i < self.n,
                    self.g@.len() == self.n,
                    g == self.g@[i as int]@,
                    g.len() == self.k,
                    data@.len() == self.k,
                    d == views(data@),
                    forall|q: int| 0 <= q < self.k ==> (#[trigger] data@[q])@.len() == self.symbol_size,
                    acc@ == coded(g.take(j as int), d, self.symbol_size as int),
                decreases self.k - j,
            {
                let c: u8 = self.g[i][j];
                let ghost before = acc@;
                assert(data@[j as int]@.len() == self.symbol_size);
                if c != 0 {
                    gf256::axpy(acc.as_mut_slice(), c, data[j].as_slice());
                }
                j += 1;
                proof {
                    let next = coded(g.take(j as int), d, self.symbol_size as int);
                    assert forall|t: int| 0 <= t < self.symbol_size implies acc@[t] == next[t] by {
                        assert(g.take(j as int).drop_last() =~= g.take(j - 1));
                        assert(g.take(j as int).last() == c);
                        assert(column(d, t)[j - 1] == d[j - 1][t]);
                        product_units(d[j - 1][t]);
                        sum_laws(before[t], 0, 0);
                    }
                    assert(acc@ =~= next);
                }
            }
            assert(g.take(j as int) =~= g);
            out.push(acc);
            i += 1;
        }
        proof {
            assert forall|q: int| 0 <= q < self.n implies (#[trigger] views(out@)[q]).len()
                == self.symbol_size by {
                if q < self.k {
                    assert(out@[q]@ == d[q]);
                    assert(data@[q]@.len() == self.symbol_size);
                } else {
                    assert(out@[q]@ == coded(self.matrix()[q], d, self.symbol_size as int));
                }
            }
            assert forall|q: int| 0 <= q < self.k implies (#[trigger] d[q]).len() == self.symbol_size by {
                assert(data@[q]@.len() == self.symbol_size);
            }
        }
        Ok(out)
    }
}

/// Symbols with their positions.
pub open spec fn placed(v: Seq<(usize, Vec<u8>)>) -> Seq<(int, Seq<u8>)> {
    v.map_values(|p: (usize, Vec<u8>)| (p.0 as int, p.1@))
}

/// A symbol of the position is there.
pub open spec fn holds_position(v: Seq<(int, Seq<u8>)>, at: int) -> bool {
    exists|i: int| 0 <= i < v.len() && (#[trigger] v[i]).0 == at
}

/// The first symbol of each position, in the order they came.
pub open spec fn first_of_each(v: Seq<(int, Seq<u8>)>) -> Seq<(int, Seq<u8>)>
    decreases v.len(),
{
    if v.len() == 0 {
        Seq::empty()
    } else {
        let before = first_of_each(v.drop_last());
        if holds_position(before, v.last().0) {
            before
        } else {
            before.push(v.last())
        }
    }
}

/// The rows of the generator at the positions of the first `k` survivors, each
/// followed by the symbol that survived.
pub open spec fn survivor_rows(k: nat, m: nat, survived: Seq<(int, Seq<u8>)>) -> Seq<Seq<u8>> {
    Seq::new(k, |i: int| generator_rows(k, m)[survived[i].0] + survived[i].1)
}

/// The entries at the positions `at`.
spec fn entries(v: Seq<(int, Seq<u8>)>, at: Seq<usize>) -> Seq<(int, Seq<u8>)> {
    at.map_values(|i: usize| v[i as int])
}

/// The first symbols of each position are among the symbols, and their
/// positions are distinct.
pub proof fn lemma_firsts(v: Seq<(int, Seq<u8>)>)
    ensures
        first_of_each(v).len() <= v.len(),
        forall|i: int| 0 <= i < first_of_each(v).len() ==> v.contains(#[trigger] first_of_each(v)[i]),
        forall|i: int, j: int|
            0 <= i < j < first_of_each(v).len() ==> first_of_each(v)[i].0 != first_of_each(v)[j].0,
    decreases v.len(),
{
    if v.len() > 0 {
        let u = v.drop_last();
        lemma_firsts(u);
        let f = first_of_each(v);
        let before = first_of_each(u);
        assert forall|i: int| 0 <= i < f.len() implies v.contains(#[trigger] f[i]) by {
            if i < before.len() {
                assert(f[i] == before[i]);
                let q = choose|q: int| 0 <= q < u.len() && u[q] == before[i];
                assert(v[q] == f[i]);
            } else {
                assert(v[v.len() - 1] == f[i]);
            }
        }
        assert forall|i: int, j: int| 0 <= i < j < f.len() implies f[i].0 != f[j].0 by {
            if j == before.len() {
                assert(!holds_position(before, v.last().0));
                assert(before[i].0 != v.last().0);
            }
        }
    }
}

/// Where the first symbol of each position stands.
pub(crate) fn firsts_at(survived: &[(usize, Vec<u8>)]) -> (r: Vec<usize>)
    ensures
        forall|q: int| 0 <= q < r@.len() ==> #[trigger] r@[q] < survived@.len(),
        r@.len() == first_of_each(placed(survived@)).len(),
        forall|q: int|
            0 <= q < r@.len() ==> first_of_each(placed(survived@))[q] == placed(survived@)[#[trigger] r@[q] as int],
{
    let mut r: Vec<usize> = Vec::new();
    let ghost all = placed(survived@);
    let mut i: usize = 0;
    assert(all.take(0) =~= Seq::empty());
    assert(entries(all, r@) =~= first_of_each(all.take(0)));
    while i < survived.len()
        invariant
            i <= survived@.len(),
            all == placed(survived@),
            forall|q: int| 0 <= q < r@.len() ==> #[trigger] r@[q] < i,
            entries(all, r@) == first_of_each(all.take(i as int)),
        decreases survived@.len() - i,
    {
        let at: usize = survived[i].0;
        let mut held: bool = false;
        let mut j: usize = 0;
        while j < r.len()
            invariant
                j <= r@.len(),
                all == placed(survived@),
                forall|q: int| 0 <= q < r@.len() ==> #[trigger] r@[q] < survived@.len(),
                held <==> exists|q: int| 0 <= q < j && (#[trigger] entries(all, r@)[q]).0 == at,
            decreases r@.len() - j,
        {
            assert(entries(all, r@)[j as int].0 == survived@[r@[j as int] as int].0);
            if survived[r[j]].0 == at {
                held = true;
            }
            j += 1;
        }
        let ghost t = all.take(i + 1);
        assert(t.drop_last() =~= all.take(i as int));
        assert(t.last() == (at as int, survived@[i as int].1@));
        assert(held == holds_position(entries(all, r@), at as int));
        if !held {
            let ghost before = entries(all, r@);
            r.push(i);
            assert(entries(all, r@) =~= before.push(t.last()));
        }
        i += 1;
    }
    assert(all.take(i as int) =~= all);
    proof {
        let f = first_of_each(all);
        assert(f.len() == entries(all, r@).len());
        assert forall|q: int| 0 <= q < r@.len() implies f[q] == all[#[trigger] r@[q] as int] by {
            assert(f[q] == entries(all, r@)[q]);
        }
    }
    r
}

/// The data from any `k` symbols of a codeword, each with its position.
///
/// The first `k` survivors of distinct positions count. Symbols of no bytes
/// determine nothing.
pub fn decode(k: usize, m: usize, symbol_size: usize, survived: &[(usize, Vec<u8>)]) -> (r: Result<
    Vec<Vec<u8>>,
    RsError,
>)
    requires
        first_of_each(placed(survived@)).len() >= k ==> 2 * k <= usize::MAX && k + m <= usize::MAX
            && k + symbol_size <= usize::MAX,
        first_of_each(placed(survived@)).len() >= k ==> forall|i: int|
            0 <= i < k ==> (#[trigger] first_of_each(placed(survived@))[i]).0 < k + m
                && first_of_each(placed(survived@))[i].1.len() == symbol_size,
    ensures
        survived@.len() < k ==> r == Err::<Vec<Vec<u8>>, _>(
            (RsError::Insufficient { have: survived@.len() as usize, need: k }),
        ),
        survived@.len() >= k && first_of_each(placed(survived@)).len() < k ==> r == Err::<
            Vec<Vec<u8>>,
            _,
        >(
            (RsError::Insufficient {
                have: first_of_each(placed(survived@)).len() as usize,
                need: k,
            }),
        ),
        first_of_each(placed(survived@)).len() >= k ==> (r is Ok <==> (k == 0 || symbol_size > 0)
            && full_rank(
            survivor_rows(k as nat, m as nat, first_of_each(placed(survived@))),
            k as int,
        )),
        r matches Ok(out) ==> shaped(views(out@), k as int, symbol_size as int) && solves(
            survivor_rows(k as nat, m as nat, first_of_each(placed(survived@))),
            k as int,
            symbol_size as int,
            views(out@),
        ) && forall|x: Seq<Seq<u8>>|
            shaped(x, k as int, symbol_size as int) && #[trigger] solves(
                survivor_rows(k as nat, m as nat, first_of_each(placed(survived@))),
                k as int,
                symbol_size as int,
                x,
            ) ==> views(out@) == x,
        r matches Err(e) ==> e is Insufficient && e->need == k && e->have <= k,
        first_of_each(placed(survived@)).len() >= k ==> (r matches Err(e) ==> if full_rank(
            survivor_rows(k as nat, m as nat, first_of_each(placed(survived@))),
            k as int,
        ) {
            e->have == k
        } else {
            has_rank(
                survivor_rows(k as nat, m as nat, first_of_each(placed(survived@))),
                k as int,
                e->have as int,
            )
        }),
{
    let ghost d = first_of_each(placed(survived@));
    proof {
        lemma_firsts(placed(survived@));
    }
    if survived.len() < k {
        return Err(RsError::Insufficient { have: survived.len(), need: k });
    }
    let firsts: Vec<usize> = firsts_at(survived);
    if firsts.len() < k {
        return Err(RsError::Insufficient { have: firsts.len(), need: k });
    }
    let g: Vec<Vec<u8>> = generator(k, m);
    let row_len: usize = k + symbol_size;
    let mut rows: Vec<u8> = Vec::new();
    let ghost l: int = row_len as int;
    let ghost mut parts: Seq<Seq<u8>> = Seq::empty();
    let mut i: usize = 0;
    assert(rows_of(rows@, l, 0) =~= parts);
    while i < k
        invariant
            i <= k,
            k <= firsts@.len(),
            d == first_of_each(placed(survived@)),
            firsts@.len() == d.len(),
            forall|q: int| 0 <= q < firsts@.len() ==> #[trigger] firsts@[q] < survived@.len(),
            forall|q: int|
                0 <= q < firsts@.len() ==> d[q] == placed(survived@)[#[trigger] firsts@[q] as int],
            l == k + symbol_size,
            shaped(views(g@), k + m, k as int),
            forall|q: int|
                0 <= q < k ==> (#[trigger] d[q]).0 < k + m && d[q].1.len() == symbol_size,
            rows@.len() == i * l,
            parts.len() == i,
            parts == rows_of(rows@, l, i as int),
            forall|q: int| 0 <= q < i ==> #[trigger] parts[q] == views(g@)[d[q].0] + d[q].1,
        decreases k - i,
    {
        let from: usize = firsts[i];
        assert(d[i as int] == placed(survived@)[firsts@[i as int] as int]);
        assert(d[i as int].0 < k + m);
        let at: usize = survived[from].0;
        let ghost before = rows@;
        assert(views(g@)[at as int].len() == k);
        rows.extend_from_slice(g[at].as_slice());
        rows.extend_from_slice(survived[from].1.as_slice());
        proof {
            let row = views(g@)[d[i as int].0] + d[i as int].1;
            assert(rows@ =~= before + row);
            crate::linear::lemma_rows_push(before, l, i as int, row);
            parts = parts.push(row);
        }
        i += 1;
    }
    assert(parts =~= survivor_rows(k as nat, m as nat, d));
    match solve_system(&mut rows, k, k, symbol_size) {
        Ok(out) => {
            if k > 0 && symbol_size == 0 {
                return Err(RsError::Insufficient { have: k, need: k });
            }
            Ok(out)
        },
        Err(rank) => Err(RsError::Insufficient { have: rank, need: k }),
    }
}

/// What decoding gives back of what encoding wrote: whichever `k` symbols of a
/// codeword of at most 256 symbols survive, they determine the data, and the
/// data is what solves for them.
pub proof fn any_k_symbols_determine_the_data(
    k: nat,
    m: nat,
    s: int,
    data: Seq<Seq<u8>>,
    word: Seq<Seq<u8>>,
    survived: Seq<(int, Seq<u8>)>,
)
    requires
        0 < k,
        k + m <= 256,
        0 < s,
        shaped(data, k as int, s),
        word.len() == k + m,
        forall|i: int| 0 <= i < k ==> (#[trigger] word[i]) == data[i],
        forall|i: int|
            k <= i < k + m ==> (#[trigger] word[i]) == coded(generator_rows(k, m)[i], data, s),
        survived.len() >= k,
        forall|i: int|
            0 <= i < k ==> 0 <= (#[trigger] survived[i]).0 < k + m && survived[i].1
                == word[survived[i].0],
        forall|i: int, j: int| 0 <= i < j < k ==> survived[i].0 != survived[j].0,
    ensures
        full_rank(survivor_rows(k, m, survived), k as int),
        solves(survivor_rows(k, m, survived), k as int, s, data),
{
    let at = Seq::new(k, |i: int| survived[i].0);
    let rows = survivor_rows(k, m, survived);
    let heads = Seq::new(k, |i: int| generator_rows(k, m)[at[i]]);
    assert forall|i: int| 0 <= i < k implies 0 <= #[trigger] at[i] < k + m by {
        assert(survived[i].0 < k + m);
    }
    any_k_rows_are_independent(k, m, at);
    assert forall|i: int| 0 <= i < k implies (#[trigger] rows[i]).take(k as int) == heads[i]
        && heads[i].len() == k by {
        assert(0 <= at[i] < k + m);
        lemma_generator_row(k, m, at[i], Seq::new(k, |j: int| 0u8));
        assert(rows[i].take(k as int) =~= heads[i]);
    }
    assert(full_rank(rows, k as int)) by {
        assert forall|v: Seq<u8>| v.len() == k && #[trigger] kernel(rows, k as int, v) implies is_zero(v) by {
            assert forall|i: int| 0 <= i < heads.len() implies dot((#[trigger] heads[i]).take(k as int), v)
                == 0 by {
                assert(rows[i].take(k as int) == heads[i]);
                assert(heads[i].take(k as int) =~= heads[i]);
                assert(dot(rows[i].take(k as int), v) == 0);
            }
            assert(kernel(heads, k as int, v));
        }
    }
    assert forall|i: int, t: int| 0 <= i < rows.len() && 0 <= t < s implies dot(
        (#[trigger] rows[i]).take(k as int),
        #[trigger] column(data, t),
    ) == rows[i][k + t] by {
        let p = at[i];
        assert(rows[i].take(k as int) == heads[i]);
        assert(survived[i].0 < k + m);
        assert(rows[i][k + t] == word[p][t]);
        if p < k {
            assert(word[p] == data[p]);
            assert(data[p].len() == s);
            lemma_dot_single(unit(k, p), column(data, t), p);
            product_units(data[p][t]);
        } else {
            assert(word[p] == coded(generator_rows(k, m)[p], data, s));
        }
    }
}

/// What decoding gives back of what encoding wrote, with symbols that came more
/// than once: as soon as `k` positions of a codeword of at most 256 symbols are
/// among the survivors, decoding them has one answer, the data.
pub proof fn repeated_symbols_do_no_harm(
    k: nat,
    m: nat,
    s: int,
    data: Seq<Seq<u8>>,
    word: Seq<Seq<u8>>,
    survived: Seq<(int, Seq<u8>)>,
)
    requires
        0 < k,
        k + m <= 256,
        0 < s,
        shaped(data, k as int, s),
        word.len() == k + m,
        forall|i: int| 0 <= i < k ==> (#[trigger] word[i]) == data[i],
        forall|i: int|
            k <= i < k + m ==> (#[trigger] word[i]) == coded(generator_rows(k, m)[i], data, s),
        first_of_each(survived).len() >= k,
        forall|i: int|
            0 <= i < survived.len() ==> 0 <= (#[trigger] survived[i]).0 < k + m && survived[i].1
                == word[survived[i].0],
    ensures
        full_rank(survivor_rows(k, m, first_of_each(survived)), k as int),
        solves(survivor_rows(k, m, first_of_each(survived)), k as int, s, data),
        forall|x: Seq<Seq<u8>>|
            shaped(x, k as int, s) && #[trigger] solves(
                survivor_rows(k, m, first_of_each(survived)),
                k as int,
                s,
                x,
            ) ==> x == data,
{
    let f = first_of_each(survived);
    let rows = survivor_rows(k, m, f);
    lemma_firsts(survived);
    assert forall|i: int| 0 <= i < k implies 0 <= (#[trigger] f[i]).0 < k + m && f[i].1
        == word[f[i].0] by {
        assert(survived.contains(f[i]));
    }
    any_k_symbols_determine_the_data(k, m, s, data, word, f);
    assert forall|i: int| 0 <= i < rows.len() implies (#[trigger] rows[i]).len() >= k by {
        assert(0 <= f[i].0 < k + m);
        lemma_generator_row(k, m, f[i].0, Seq::new(k, |j: int| 0u8));
    }
    assert forall|x: Seq<Seq<u8>>| shaped(x, k as int, s) && #[trigger] solves(rows, k as int, s, x) implies x
        == data by {
        one_solution_at_most(rows, k as int, s, x, data);
    }
}

} // verus!
