//! Block compression: zstd with a dictionary, framed so that no block grows by
//! more than a byte.
//!
//! A block begins with a marker: 0 for bytes as they are, 1 for a zstd frame.
use std::sync::Arc;
use vstd::prelude::*;
use vstd::slice::slice_subrange;
use vstd::string::*;

verus! {

/// What can go wrong.
#[derive(Debug)]
pub enum CompressError {
    Encode(String),
    Decode(String),
    DictId { expected: u64, got: u64 },
}

/// What such an error holds.
#[verifier::ext_equal]
pub enum CompressErrorView {
    Encode(Seq<char>),
    Decode(Seq<char>),
    DictId { expected: u64, got: u64 },
}

impl View for CompressError {
    type V = CompressErrorView;

    open spec fn view(&self) -> CompressErrorView {
        match self {
            CompressError::Encode(m) => CompressErrorView::Encode(m@),
            CompressError::Decode(m) => CompressErrorView::Decode(m@),
            CompressError::DictId { expected, got } => CompressErrorView::DictId {
                expected: *expected,
                got: *got,
            },
        }
    }
}

impl CompressErrorView {
    /// What the error says.
    pub open spec fn says(self) -> Seq<char> {
        match self {
            CompressErrorView::Encode(m) => "zstd encode: "@ + m,
            CompressErrorView::Decode(m) => "zstd decode: "@ + m,
            CompressErrorView::DictId { expected, got } => "dictionary id mismatch: expected "@
                + crate::text::decimal(expected as nat) + " got "@ + crate::text::decimal(
                got as nat,
            ),
        }
    }
}

impl CompressError {
    /// What the error says.
    pub fn message(&self) -> (r: String)
        ensures
            r@ == self@.says(),
    {
        match self {
            CompressError::Encode(m) => "zstd encode: ".to_owned().concat(m.as_str()),
            CompressError::Decode(m) => "zstd decode: ".to_owned().concat(m.as_str()),
            CompressError::DictId { expected, got } => {
                "dictionary id mismatch: expected ".to_owned().concat(
                    crate::text::number(*expected).as_str(),
                ).concat(" got ").concat(crate::text::number(*got).as_str())
            },
        }
    }
}

// ---- zstd -------------------------------------------------------------------
/// What zstd makes of some bytes at a level, with a dictionary: a frame, or what
/// it has against them.
pub uninterp spec fn zstd_frame(level: i32, dict: Seq<u8>, input: Seq<u8>) -> Result<
    Seq<u8>,
    Seq<char>,
>;

/// What zstd reads out of a body with a dictionary, given room for so many bytes:
/// the bytes, or what it has against them.
pub uninterp spec fn zstd_content(dict: Seq<u8>, body: Seq<u8>, capacity: nat) -> Result<
    Seq<u8>,
    Seq<char>,
>;

/// How many bytes a zstd frame says that it holds, where it says so.
pub uninterp spec fn zstd_size(body: Seq<u8>) -> Option<u64>;

/// What an answer of zstd holds.
pub open spec fn answer(r: Result<Vec<u8>, String>) -> Result<Seq<u8>, Seq<char>> {
    match r {
        Ok(b) => Ok(b@),
        Err(e) => Err(e@),
    }
}

/// A frame is of no more bytes than a slice can have, says how many they are, and
/// gives them back wherever there is room for them.
pub open spec fn frame_holds(dict: Seq<u8>, frame: Seq<u8>, input: Seq<u8>) -> bool {
    &&& input.len() <= isize::MAX
    &&& zstd_size(frame) == Some(input.len() as u64)
    &&& forall|c: nat|
        input.len() <= c <= isize::MAX ==> #[trigger] zstd_content(dict, frame, c) == Ok::<
            Seq<u8>,
            Seq<char>,
        >(input)
}

/// Calls `zstd::bulk::Compressor::compress` on a new compressor with a level and
/// a dictionary. Claims that the answer, a frame or an error, is the named one
/// for the level, the dictionary and the input, as long as memory does not run
/// out; that a frame says how long the input is, which like every slice has no
/// more than `isize::MAX` bytes; and that a decompressor with the same dictionary
/// reads the input out of it, whatever the level was, wherever it has room for
/// that.
#[verifier::external_body]
fn pack(level: i32, dict: &[u8], input: &[u8]) -> (r: Result<Vec<u8>, String>)
    ensures
        answer(r) == zstd_frame(level, dict@, input@),
        r matches Ok(z) ==> frame_holds(dict@, z@, input@),
{
    let mut enc = zstd::bulk::Compressor::with_dictionary(level, dict).map_err(|e| e.to_string())?;
    enc.compress(input).map_err(|e| e.to_string())
}

/// Calls `zstd::bulk::Decompressor::decompress` on a new decompressor with a
/// dictionary. Claims that the answer, the content or an error, is the named one
/// for the dictionary, the body and the capacity, as long as memory does not run
/// out, and that content is no longer than the capacity. A capacity beyond what a
/// `Vec` can hold would panic and is left out.
#[verifier::external_body]
fn unpack(dict: &[u8], body: &[u8], capacity: usize) -> (r: Result<Vec<u8>, String>)
    requires
        capacity <= isize::MAX,
    ensures
        answer(r) == zstd_content(dict@, body@, capacity as nat),
        r matches Ok(d) ==> d@.len() <= capacity,
{
    let mut dec = zstd::bulk::Decompressor::with_dictionary(dict).map_err(|e| e.to_string())?;
    dec.decompress(body, capacity).map_err(|e| e.to_string())
}

/// Calls `zstd::zstd_safe::get_frame_content_size`. Claims that the result is
/// the named size, which is a function of the bytes; a frame that does not say
/// its size and bytes that are no frame have none.
#[verifier::external_body]
fn stored_size(body: &[u8]) -> (r: Option<u64>)
    ensures
        r == zstd_size(body@),
{
    match zstd::zstd_safe::get_frame_content_size(body) {
        Ok(s) => s,
        Err(_) => None,
    }
}

// ---- dictionaries -----------------------------------------------------------
/// A dictionary, by its raw content. The id lets the wire refer to it.
#[derive(Debug)]
pub struct Dict {
    pub id: u64,
    pub content: Arc<Vec<u8>>,
}

impl View for Dict {
    type V = Seq<u8>;

    open spec fn view(&self) -> Seq<u8> {
        self.content@
    }
}

impl Dict {
    /// A dictionary of some content.
    pub fn from_content(id: u64, content: Vec<u8>) -> (r: Self)
        ensures
            r.id == id,
            r@ == content@,
    {
        Dict { id, content: Arc::new(content) }
    }

    /// No dictionary.
    pub fn empty() -> (r: Self)
        ensures
            r.id == 0,
            r@ == Seq::<u8>::empty(),
    {
        let none: Vec<u8> = Vec::new();
        Dict { id: 0, content: Arc::new(none) }
    }

    /// Whether there is no content.
    pub fn is_empty(&self) -> (r: bool)
        ensures
            r == (self@.len() == 0),
    {
        self.content.len() == 0
    }
}

impl Clone for Dict {
    fn clone(&self) -> (r: Self)
        ensures
            r.id == self.id,
            r@ == self@,
    {
        Dict { id: self.id, content: self.content.clone() }
    }
}

// ---- blocks -----------------------------------------------------------------
/// The least block that is worth a try.
pub const MIN_BLOCK: usize = 32;

/// A block of bytes as they are.
pub open spec fn raw_block(input: Seq<u8>) -> Seq<u8> {
    seq![0u8] + input
}

/// The block of some bytes, given their frame: the frame, unless that is no
/// shorter.
pub open spec fn block_of(input: Seq<u8>, frame: Seq<u8>) -> Seq<u8> {
    if frame.len() + 1 >= input.len() {
        raw_block(input)
    } else {
        seq![1u8] + frame
    }
}

/// The room that is made for what a frame holds: as much as it says, or an
/// estimate from its length.
pub open spec fn room_for(body: Seq<u8>) -> nat {
    match zstd_size(body) {
        Some(s) => s as nat,
        None => body.len() * 64 + 0x10_0000,
    }
}

/// What compressing some bytes gives.
pub open spec fn compressed(level: i32, dict: Seq<u8>, input: Seq<u8>) -> Result<
    Seq<u8>,
    CompressErrorView,
> {
    if input.len() < MIN_BLOCK {
        Ok(raw_block(input))
    } else {
        match zstd_frame(level, dict, input) {
            Ok(frame) => Ok(block_of(input, frame)),
            Err(e) => Err(CompressErrorView::Encode(e)),
        }
    }
}

/// What decompressing a block gives. The level it was compressed at plays no part.
pub open spec fn decompressed(dict: Seq<u8>, block: Seq<u8>) -> Result<Seq<u8>, CompressErrorView> {
    if block.len() == 0 {
        Err(CompressErrorView::Decode("empty input"@))
    } else if block[0] == 0 {
        Ok(block.skip(1))
    } else if block[0] == 1 {
        match zstd_content(dict, block.skip(1), room_for(block.skip(1))) {
            Ok(d) => Ok(d),
            Err(e) => Err(CompressErrorView::Decode(e)),
        }
    } else {
        Err(CompressErrorView::Decode("unknown marker 0x"@ + hex(block[0])))
    }
}

/// What a result holds.
pub open spec fn outcome(r: Result<Vec<u8>, CompressError>) -> Result<Seq<u8>, CompressErrorView> {
    match r {
        Ok(b) => Ok(b@),
        Err(e) => Err(e@),
    }
}

/// There can be room for what a block holds.
pub open spec fn fits(block: Seq<u8>) -> bool {
    block.len() > 0 && block[0] == 1 ==> room_for(block.skip(1)) <= isize::MAX
}

fn marked(marker: u8, body: &[u8]) -> (r: Vec<u8>)
    ensures
        r@ == seq![marker] + body@,
{
    let mut r: Vec<u8> = Vec::new();
    r.push(marker);
    let mut i: usize = 0;
    while i < body.len()
        invariant
            i <= body@.len(),
            r@ =~= seq![marker] + body@.take(i as int),
        decreases body@.len() - i,
    {
        r.push(body[i]);
        i += 1;
    }
    assert(body@.take(i as int) =~= body@);
    r
}

/// The block of some bytes, given their frame.
pub fn frame_block(input: &[u8], frame: &[u8]) -> (r: Vec<u8>)
    ensures
        r@ == block_of(input@, frame@),
        r@.len() <= input@.len() + 1,
{
    if frame.len() >= input.len() || frame.len() + 1 >= input.len() {
        marked(0, input)
    } else {
        marked(1, frame)
    }
}

/// The block of some bytes, given what zstd made of them.
pub fn packed_block(input: &[u8], packed: Result<Vec<u8>, String>) -> (r: Result<
    Vec<u8>,
    CompressError,
>)
    ensures
        match packed {
            Ok(z) => r matches Ok(b) && b@ == block_of(input@, z@),
            Err(e) => r matches Err(x) && x@ == CompressErrorView::Encode(e@),
        },
{
    match packed {
        Ok(z) => Ok(frame_block(input, z.as_slice())),
        Err(e) => Err(CompressError::Encode(e)),
    }
}

/// What a compressed block holds, given what zstd made of it.
pub fn unpacked_block(unpacked: Result<Vec<u8>, String>) -> (r: Result<Vec<u8>, CompressError>)
    ensures
        match unpacked {
            Ok(d) => r matches Ok(b) && b@ == d@,
            Err(e) => r matches Err(x) && x@ == CompressErrorView::Decode(e@),
        },
{
    match unpacked {
        Ok(d) => Ok(d),
        Err(e) => Err(CompressError::Decode(e)),
    }
}

/// A digit of a hexadecimal number.
pub open spec fn hex_digit(d: int) -> char {
    if d < 10 {
        (d + 48) as char
    } else {
        (d + 87) as char
    }
}

/// A byte in hexadecimal, without a leading zero.
pub open spec fn hex(b: u8) -> Seq<char> {
    if b < 16 {
        seq![hex_digit(b as int)]
    } else {
        seq![hex_digit(b as int / 16), hex_digit(b as int % 16)]
    }
}

fn hex_digit_of(d: u8) -> (c: char)
    requires
        d < 16,
    ensures
        c == hex_digit(d as int),
{
    if d < 10 {
        (d + 48) as char
    } else {
        (d + 87) as char
    }
}

fn hex_of(b: u8) -> (s: String)
    ensures
        s@ == hex(b),
{
    let mut v: Vec<char> = Vec::new();
    if b >= 16 {
        v.push(hex_digit_of(b / 16));
    }
    v.push(hex_digit_of(b % 16));
    assert(v@ =~= hex(b));
    crate::text::text_of(v.as_slice())
}

/// A block compressor with a dictionary.
#[derive(Debug)]
pub struct Compressor {
    dict: Dict,
    level: i32,
    min_block: usize,
}

impl Clone for Compressor {
    fn clone(&self) -> (r: Self)
        ensures
            r.dictionary() == self.dictionary(),
            r.dictionary_id() == self.dictionary_id(),
            r.strength() == self.strength(),
    {
        proof {
            use_type_invariant(self);
        }
        Compressor { dict: self.dict.clone(), level: self.level, min_block: self.min_block }
    }
}

impl Compressor {
    /// The content of the dictionary.
    pub closed spec fn dictionary(&self) -> Seq<u8> {
        self.dict@
    }

    /// The id of the dictionary.
    pub closed spec fn dictionary_id(&self) -> u64 {
        self.dict.id
    }

    /// The zstd level.
    pub closed spec fn strength(&self) -> i32 {
        self.level
    }

    /// Blocks from 32 bytes on are tried.
    #[verifier::type_invariant]
    spec fn tries_from_the_least_block(&self) -> bool {
        self.min_block == MIN_BLOCK
    }

    /// A compressor with a dictionary, at a level.
    pub fn new(dict: Dict, level: i32) -> (r: Self)
        ensures
            r.dictionary() == dict@,
            r.dictionary_id() == dict.id,
            r.strength() == level,
    {
        Compressor { dict, level, min_block: MIN_BLOCK }
    }

    /// A compressor at level 19 without a dictionary.
    pub fn default() -> (r: Self)
        ensures
            r.dictionary() == Seq::<u8>::empty(),
            r.dictionary_id() == 0,
            r.strength() == 19,
    {
        Self::new(Dict::empty(), 19)
    }

    /// The dictionary.
    pub fn dict(&self) -> (r: &Dict)
        ensures
            r@ == self.dictionary(),
            r.id == self.dictionary_id(),
    {
        &self.dict
    }

    /// Use another dictionary.
    pub fn set_dict(&mut self, dict: Dict)
        ensures
            final(self).dictionary() == dict@,
            final(self).dictionary_id() == dict.id,
            final(self).strength() == old(self).strength(),
    {
        proof {
            use_type_invariant(&*self);
        }
        self.dict = dict;
    }

    /// The same compressor at another level.
    pub fn with_level(&self, level: i32) -> (r: Self)
        ensures
            r.dictionary() == self.dictionary(),
            r.dictionary_id() == self.dictionary_id(),
            r.strength() == level,
    {
        proof {
            use_type_invariant(self);
        }
        Compressor { dict: self.dict.clone(), level, min_block: self.min_block }
    }

    /// Compress a block. What does not get shorter is passed through. A block that
    /// comes out can be decompressed with the same dictionary, and that gives back
    /// what was compressed.
    pub fn compress(&self, input: &[u8]) -> (r: Result<Vec<u8>, CompressError>)
        ensures
            outcome(r) == compressed(self.strength(), self.dictionary(), input@),
            r matches Ok(b) ==> b@.len() <= input@.len() + 1,
            r matches Ok(b) ==> fits(b@) && decompressed(self.dictionary(), b@) == Ok::<
                Seq<u8>,
                CompressErrorView,
            >(input@),
    {
        proof {
            use_type_invariant(self);
        }
        if input.len() < self.min_block {
            let b: Vec<u8> = marked(0, input);
            assert(b@.skip(1) =~= input@);
            return Ok(b);
        }
        let packed: Result<Vec<u8>, String> = pack(
            self.level,
            self.dict.content.as_slice(),
            input,
        );
        proof {
            if packed is Ok {
                what_is_compressed_reads_back(self.dictionary(), input@, packed->Ok_0@);
            }
        }
        packed_block(input, packed)
    }

    /// Decompress a block.
    pub fn decompress(&self, input: &[u8]) -> (r: Result<Vec<u8>, CompressError>)
        requires
            fits(input@),
        ensures
            outcome(r) == decompressed(self.dictionary(), input@),
    {
        if input.len() == 0 {
            return Err(CompressError::Decode("empty input".to_owned()));
        }
        let body: &[u8] = slice_subrange(input, 1, input.len());
        assert(body@ =~= input@.skip(1));
        if input[0] == 0 {
            let mut d: Vec<u8> = Vec::new();
            let mut i: usize = 0;
            while i < body.len()
                invariant
                    i <= body@.len(),
                    d@ =~= body@.take(i as int),
                decreases body@.len() - i,
            {
                d.push(body[i]);
                i += 1;
            }
            assert(body@.take(i as int) =~= body@);
            return Ok(d);
        }
        if input[0] != 1 {
            let note: String = "unknown marker 0x".to_owned().concat(hex_of(input[0]).as_str());
            return Err(CompressError::Decode(note));
        }
        let capacity: usize = match stored_size(body) {
            Some(s) => s as usize,
            None => body.len() * 64 + 0x10_0000,
        };
        unpacked_block(unpack(self.dict.content.as_slice(), body, capacity))
    }

    /// Decompress a block; `None` where there can be no room for what it says
    /// that it holds.
    pub fn try_decompress(&self, input: &[u8]) -> (r: Option<Result<Vec<u8>, CompressError>>)
        ensures
            r is None <==> !fits(input@),
            r matches Some(d) ==> outcome(d) == decompressed(self.dictionary(), input@),
    {
        if has_room(input) {
            Some(self.decompress(input))
        } else {
            None
        }
    }
}

/// Whether there can be room for what a block holds.
pub fn has_room(block: &[u8]) -> (r: bool)
    ensures
        r == fits(block@),
{
    if block.len() == 0 || block[0] != 1 {
        return true;
    }
    let body: &[u8] = slice_subrange(block, 1, block.len());
    assert(body@ =~= block@.skip(1));
    match stored_size(body) {
        Some(s) => s <= isize::MAX as u64,
        None => body.len() <= (isize::MAX as usize - 0x10_0000) / 64,
    }
}

// ---- training ---------------------------------------------------------------
/// What some samples hold.
pub open spec fn sample_views(samples: Seq<&[u8]>) -> Seq<Seq<u8>> {
    samples.map_values(|s: &[u8]| s@)
}

/// As much of a sample as there is room for: its front, or its end.
pub open spec fn piece(s: Seq<u8>, room: nat, front: bool) -> Seq<u8> {
    if s.len() <= room {
        s
    } else if front {
        s.take(room as int)
    } else {
        s.skip(s.len() - room)
    }
}

/// The dictionary after `n` samples of the passes over them, each from the most
/// recent sample, which is the last, to the oldest: fronts on the first and the
/// last pass, ends on the one between, as far as there is room.
pub open spec fn trained(samples: Seq<Seq<u8>>, target: nat, n: nat) -> Seq<u8>
    decreases n,
{
    if n == 0 || samples.len() == 0 {
        Seq::empty()
    } else {
        let before = trained(samples, target, (n - 1) as nat);
        let pass = (n - 1) / samples.len() as int;
        let s = samples[samples.len() - 1 - (n - 1) % samples.len() as int];
        before + piece(s, (target - before.len()) as nat, pass % 2 == 0)
    }
}

fn push_piece(dict: &mut Vec<u8>, s: &[u8], room: usize, front: bool)
    ensures
        final(dict)@ == old(dict)@ + piece(s@, room as nat, front),
{
    let n: usize = s.len();
    let from: usize = if n <= room || front {
        0
    } else {
        n - room
    };
    let to: usize = if n > room && front {
        room
    } else {
        n
    };
    let ghost before = dict@;
    let mut i: usize = from;
    while i < to
        invariant
            from <= i <= to <= s@.len(),
            dict@ =~= before + s@.subrange(from as int, i as int),
        decreases to - i,
    {
        dict.push(s[i]);
        i += 1;
    }
    assert(s@.subrange(from as int, to as int) =~= piece(s@, room as nat, front));
}

proof fn lemma_trained_fits(samples: Seq<Seq<u8>>, target: nat, n: nat)
    ensures
        trained(samples, target, n).len() <= target,
    decreases n,
{
    if n > 0 && samples.len() > 0 {
        lemma_trained_fits(samples, target, (n - 1) as nat);
    }
}

/// A dictionary out of samples in the order they were taken, of no more than a
/// size: raw content, the most recent samples first.
pub fn train_dictionary(samples: &[&[u8]], target_size: usize) -> (r: Result<
    Vec<u8>,
    CompressError,
>)
    ensures
        r is Ok,
        (r->Ok_0)@ == trained(sample_views(samples@), target_size as nat, 3 * samples@.len()),
        (r->Ok_0)@.len() <= target_size,
{
    let ghost sv = sample_views(samples@);
    let m: usize = samples.len();
    let mut dict: Vec<u8> = Vec::new();
    let mut pass: usize = 0;
    assert(dict@ =~= trained(sv, target_size as nat, 0));
    while pass < 3
        invariant
            pass <= 3,
            m == samples@.len(),
            sv == sample_views(samples@),
            dict@ == trained(sv, target_size as nat, (pass * m) as nat),
        decreases 3 - pass,
    {
        let mut k: usize = 0;
        while k < m
            invariant
                k <= m,
                pass < 3,
                m == samples@.len(),
                sv == sample_views(samples@),
                dict@ == trained(sv, target_size as nat, (pass * m + k) as nat),
            decreases m - k,
        {
            proof {
                lemma_trained_fits(sv, target_size as nat, (pass * m + k) as nat);
                let n = pass * m + k + 1;
                assert(n > 0) by (nonlinear_arith)
                    requires
                        n == pass * m + k + 1,
                        pass >= 0,
                        m >= 0,
                        k >= 0,
                ;
                vstd::arithmetic::div_mod::lemma_fundamental_div_mod_converse(
                    n - 1,
                    m as int,
                    pass as int,
                    k as int,
                );
                assert(sv[m - 1 - k] == samples@[m - 1 - k]@);
            }
            let room: usize = target_size - dict.len();
            push_piece(&mut dict, samples[m - 1 - k], room, pass % 2 == 0);
            k += 1;
        }
        assert(pass * m + m == (pass + 1) * m) by (nonlinear_arith);
        pass += 1;
    }
    proof {
        lemma_trained_fits(sv, target_size as nat, 3 * samples@.len());
    }
    Ok(dict)
}

/// What is compressed reads back: given a frame that holds some bytes, the block
/// made of them is no more than a byte longer than they are, there can be room
/// for what it holds, and decompressing it with the same dictionary gives the
/// bytes.
pub proof fn what_is_compressed_reads_back(dict: Seq<u8>, input: Seq<u8>, frame: Seq<u8>)
    requires
        frame_holds(dict, frame, input),
    ensures
        block_of(input, frame).len() <= input.len() + 1,
        fits(block_of(input, frame)),
        decompressed(dict, block_of(input, frame)) == Ok::<Seq<u8>, CompressErrorView>(input),
{
    assert((seq![0u8] + input).skip(1) =~= input);
    assert((seq![1u8] + frame).skip(1) =~= frame);
    assert(isize::MAX <= u64::MAX);
}

} // verus!
