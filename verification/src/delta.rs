//! Compression against a reference: a block that is nearly the same as an
//! earlier one becomes a short delta. The reference itself never travels.
use crate::compress::{
    compressed,
    decompressed,
    fits,
    has_room,
    outcome,
    CompressError,
    CompressErrorView,
    Compressor,
    Dict,
};
use vstd::prelude::*;

verus! {

fn bytes_of(s: &[u8]) -> (v: Vec<u8>)
    ensures
        v@ == s@,
{
    let mut v: Vec<u8> = Vec::new();
    let mut i: usize = 0;
    while i < s.len()
        invariant
            i <= s@.len(),
            v@ =~= s@.take(i as int),
        decreases s@.len() - i,
    {
        v.push(s[i]);
        i += 1;
    }
    assert(s@.take(i as int) =~= s@);
    v
}

/// The dictionary of a reference. Both sides have the reference, so that its id
/// is never looked at.
fn reference_dict(reference: &[u8]) -> (d: Dict)
    ensures
        d@ == reference@,
{
    if reference.len() == 0 {
        let d: Dict = Dict::empty();
        assert(d@ =~= reference@);
        d
    } else {
        Dict::from_content(0, bytes_of(reference))
    }
}

/// Compress a block against a reference. A block that comes out can be
/// decompressed against the same reference, and that gives back what was
/// compressed.
pub fn compress_with_reference(input: &[u8], reference: &[u8], level: i32) -> (r: Result<
    Vec<u8>,
    CompressError,
>)
    ensures
        outcome(r) == compressed(level, reference@, input@),
        r matches Ok(b) ==> b@.len() <= input@.len() + 1,
        r matches Ok(b) ==> fits(b@) && decompressed(reference@, b@) == Ok::<
            Seq<u8>,
            CompressErrorView,
        >(input@),
{
    let c: Compressor = Compressor::new(reference_dict(reference), level);
    c.compress(input)
}

/// Decompress a block against the reference that it was compressed against, at
/// whatever level that was.
pub fn decompress_with_reference(blob: &[u8], reference: &[u8], level: i32) -> (r: Result<
    Vec<u8>,
    CompressError,
>)
    requires
        fits(blob@),
    ensures
        outcome(r) == decompressed(reference@, blob@),
{
    let c: Compressor = Compressor::new(reference_dict(reference), level);
    c.decompress(blob)
}

/// Decompress a block against the reference that it was compressed against;
/// `None` where there can be no room for what it says that it holds.
pub fn try_decompress_with_reference(blob: &[u8], reference: &[u8], level: i32) -> (r: Option<
    Result<Vec<u8>, CompressError>,
>)
    ensures
        r is None <==> !fits(blob@),
        r matches Some(d) ==> outcome(d) == decompressed(reference@, blob@),
{
    if has_room(blob) {
        Some(decompress_with_reference(blob, reference, level))
    } else {
        None
    }
}

/// How many bytes two texts have in common at the front.
pub open spec fn common_prefix(a: Seq<u8>, b: Seq<u8>) -> nat
    decreases a.len(),
{
    if a.len() == 0 || b.len() == 0 || a[0] != b[0] {
        0
    } else {
        1 + common_prefix(a.skip(1), b.skip(1))
    }
}

fn common_prefix_len(a: &[u8], b: &[u8]) -> (n: usize)
    ensures
        n == common_prefix(a@, b@),
{
    let mut i: usize = 0;
    assert(a@.skip(0) =~= a@ && b@.skip(0) =~= b@);
    while i < a.len() && i < b.len() && a[i] == b[i]
        invariant
            i <= a@.len(),
            i <= b@.len(),
            common_prefix(a@, b@) == i + common_prefix(a@.skip(i as int), b@.skip(i as int)),
        decreases a@.len() - i,
    {
        assert(a@.skip(i as int).skip(1) =~= a@.skip(i + 1));
        assert(b@.skip(i as int).skip(1) =~= b@.skip(i + 1));
        i += 1;
    }
    i
}

/// Which of the first `n` candidates has most in common with a text at the
/// front, the last of those that have as much.
pub open spec fn best_reference(input: Seq<u8>, candidates: Seq<&[u8]>, n: nat) -> int
    decreases n,
{
    if n <= 1 {
        0
    } else {
        let b = best_reference(input, candidates, (n - 1) as nat);
        if common_prefix(input, candidates[n - 1]@) >= common_prefix(input, candidates[b]@) {
            n - 1
        } else {
            b
        }
    }
}

/// The candidate that has most in common with a block at the front.
pub fn pick_reference<'a>(input: &[u8], candidates: &'a [&'a [u8]]) -> (r: Option<&'a [u8]>)
    ensures
        r is None <==> candidates@.len() == 0,
        r matches Some(c) ==> c@ == candidates@[best_reference(
            input@,
            candidates@,
            candidates@.len(),
        )]@,
{
    if candidates.len() == 0 {
        return None;
    }
    let mut best: usize = 0;
    let mut n: usize = 1;
    while n < candidates.len()
        invariant
            1 <= n <= candidates@.len(),
            best < n,
            best == best_reference(input@, candidates@, n as nat),
        decreases candidates@.len() - n,
    {
        if common_prefix_len(input, candidates[n]) >= common_prefix_len(input, candidates[best]) {
            best = n;
        }
        n += 1;
    }
    Some(candidates[best])
}

/// A compressor for a run of blocks against one reference.
#[derive(Debug)]
pub struct DeltaCompressor {
    compressor: Compressor,
}

impl DeltaCompressor {
    /// The reference.
    pub closed spec fn reference(&self) -> Seq<u8> {
        self.compressor.dictionary()
    }

    /// The zstd level.
    pub closed spec fn strength(&self) -> i32 {
        self.compressor.strength()
    }

    /// A compressor against a reference, at a level.
    pub fn new(reference: &[u8], level: i32) -> (r: Self)
        ensures
            r.reference() == reference@,
            r.strength() == level,
    {
        DeltaCompressor { compressor: Compressor::new(reference_dict(reference), level) }
    }

    /// Compress a block, as `compress_with_reference` does.
    pub fn compress(&self, input: &[u8]) -> (r: Result<Vec<u8>, CompressError>)
        ensures
            outcome(r) == compressed(self.strength(), self.reference(), input@),
            r matches Ok(b) ==> b@.len() <= input@.len() + 1,
            r matches Ok(b) ==> fits(b@) && decompressed(self.reference(), b@) == Ok::<
                Seq<u8>,
                CompressErrorView,
            >(input@),
    {
        self.compressor.compress(input)
    }

    /// Decompress a block, as `decompress_with_reference` does.
    pub fn decompress(&self, blob: &[u8]) -> (r: Result<Vec<u8>, CompressError>)
        requires
            fits(blob@),
        ensures
            outcome(r) == decompressed(self.reference(), blob@),
    {
        self.compressor.decompress(blob)
    }

    /// Decompress a block; `None` where there can be no room for what it says
    /// that it holds.
    pub fn try_decompress(&self, blob: &[u8]) -> (r: Option<Result<Vec<u8>, CompressError>>)
        ensures
            r is None <==> !fits(blob@),
            r matches Some(d) ==> outcome(d) == decompressed(self.reference(), blob@),
    {
        if has_room(blob) {
            Some(self.decompress(blob))
        } else {
            None
        }
    }
}

/// A delta compressor does what the free functions do: its blocks are theirs, and
/// either side reads back what the other has made.
pub proof fn delta_compressors_match_the_free_functions(
    dc: DeltaCompressor,
    reference: Seq<u8>,
    level: i32,
    input: Seq<u8>,
    kept: Result<Vec<u8>, CompressError>,
    free: Result<Vec<u8>, CompressError>,
)
    requires
        dc.reference() == reference,
        dc.strength() == level,
        outcome(kept) == compressed(dc.strength(), dc.reference(), input),
        outcome(free) == compressed(level, reference, input),
    ensures
        outcome(kept) == outcome(free),
        kept matches Ok(b) ==> (free matches Ok(c) && decompressed(reference, b@) == decompressed(
            dc.reference(),
            c@,
        )),
{
}

/// No candidate has more in common with the input than the one that is picked.
pub proof fn the_best_reference_is_picked(
    input: Seq<u8>,
    candidates: Seq<&[u8]>,
    n: nat,
    k: int,
)
    requires
        0 <= k < n <= candidates.len(),
    ensures
        0 <= best_reference(input, candidates, n) < n,
        common_prefix(input, candidates[k]@) <= common_prefix(
            input,
            candidates[best_reference(input, candidates, n)]@,
        ),
    decreases n,
{
    if n > 1 {
        if k < n - 1 {
            the_best_reference_is_picked(input, candidates, (n - 1) as nat, k);
        } else {
            the_best_reference_is_picked(input, candidates, (n - 1) as nat, 0);
        }
    }
}

} // verus!
