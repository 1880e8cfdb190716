//! Fibonacci-coded integers: self-delimiting codewords for the wire.
//!
//! Every positive integer is a sum of Fibonacci numbers no two of which are
//! neighbours. Written as bits, least first, and closed by one more 1, it becomes
//! a codeword that ends in `11` and holds no other `11`. A reader that has lost
//! its place finds the next codeword behind the next `11`.
//!
//! Bit `j` of a buffer is bit `j % 8` of byte `j / 8`.
use vstd::prelude::*;

verus! {

// ---- Fibonacci numbers ------------------------------------------------------
/// The Fibonacci numbers from 1, 2 on.
pub open spec fn fib(n: nat) -> nat
    decreases n,
{
    if n == 0 {
        1
    } else if n == 1 {
        2
    } else {
        fib((n - 1) as nat) + fib((n - 2) as nat)
    }
}

/// How many Fibonacci numbers 64 bits hold.
pub const FIBS: usize = 92;

/// The Fibonacci numbers around the end of what 64 bits hold.
proof fn lemma_last_fibs()
    ensures
        fib(90) == 7540113804746346429,
        fib(91) == 12200160415121876738,
        fib(92) == 19740274219868223167,
{
    assert(fib(0) == 1);
    assert(fib(1) == 2);
    assert(fib(2) == 3);
    assert(fib(3) == 5);
    assert(fib(4) == 8);
    assert(fib(5) == 13);
    assert(fib(6) == 21);
    assert(fib(7) == 34);
    assert(fib(8) == 55);
    assert(fib(9) == 89);
    assert(fib(10) == 144);
    assert(fib(11) == 233);
    assert(fib(12) == 377);
    assert(fib(13) == 610);
    assert(fib(14) == 987);
    assert(fib(15) == 1597);
    assert(fib(16) == 2584);
    assert(fib(17) == 4181);
    assert(fib(18) == 6765);
    assert(fib(19) == 10946);
    assert(fib(20) == 17711);
    assert(fib(21) == 28657);
    assert(fib(22) == 46368);
    assert(fib(23) == 75025);
    assert(fib(24) == 121393);
    assert(fib(25) == 196418);
    assert(fib(26) == 317811);
    assert(fib(27) == 514229);
    assert(fib(28) == 832040);
    assert(fib(29) == 1346269);
    assert(fib(30) == 2178309);
    assert(fib(31) == 3524578);
    assert(fib(32) == 5702887);
    assert(fib(33) == 9227465);
    assert(fib(34) == 14930352);
    assert(fib(35) == 24157817);
    assert(fib(36) == 39088169);
    assert(fib(37) == 63245986);
    assert(fib(38) == 102334155);
    assert(fib(39) == 165580141);
    assert(fib(40) == 267914296);
    assert(fib(41) == 433494437);
    assert(fib(42) == 701408733);
    assert(fib(43) == 1134903170);
    assert(fib(44) == 1836311903);
    assert(fib(45) == 2971215073);
    assert(fib(46) == 4807526976);
    assert(fib(47) == 7778742049);
    assert(fib(48) == 12586269025);
    assert(fib(49) == 20365011074);
    assert(fib(50) == 32951280099);
    assert(fib(51) == 53316291173);
    assert(fib(52) == 86267571272);
    assert(fib(53) == 139583862445);
    assert(fib(54) == 225851433717);
    assert(fib(55) == 365435296162);
    assert(fib(56) == 591286729879);
    assert(fib(57) == 956722026041);
    assert(fib(58) == 1548008755920);
    assert(fib(59) == 2504730781961);
    assert(fib(60) == 4052739537881);
    assert(fib(61) == 6557470319842);
    assert(fib(62) == 10610209857723);
    assert(fib(63) == 17167680177565);
    assert(fib(64) == 27777890035288);
    assert(fib(65) == 44945570212853);
    assert(fib(66) == 72723460248141);
    assert(fib(67) == 117669030460994);
    assert(fib(68) == 190392490709135);
    assert(fib(69) == 308061521170129);
    assert(fib(70) == 498454011879264);
    assert(fib(71) == 806515533049393);
    assert(fib(72) == 1304969544928657);
    assert(fib(73) == 2111485077978050);
    assert(fib(74) == 3416454622906707);
    assert(fib(75) == 5527939700884757);
    assert(fib(76) == 8944394323791464);
    assert(fib(77) == 14472334024676221);
    assert(fib(78) == 23416728348467685);
    assert(fib(79) == 37889062373143906);
    assert(fib(80) == 61305790721611591);
    assert(fib(81) == 99194853094755497);
    assert(fib(82) == 160500643816367088);
    assert(fib(83) == 259695496911122585);
    assert(fib(84) == 420196140727489673);
    assert(fib(85) == 679891637638612258);
    assert(fib(86) == 1100087778366101931);
    assert(fib(87) == 1779979416004714189);
    assert(fib(88) == 2880067194370816120);
    assert(fib(89) == 4660046610375530309);
    assert(fib(90) == 7540113804746346429);
    assert(fib(91) == 12200160415121876738);
    assert(fib(92) == 19740274219868223167);
}

proof fn lemma_fib_grows(i: nat, j: nat)
    requires
        i < j,
    ensures
        0 < fib(i) < fib(j),
    decreases j,
{
    if j == 1 {
    } else if i + 1 == j {
        if i > 0 {
            lemma_fib_grows((i - 1) as nat, i);
        }
        lemma_fib_grows((j - 2) as nat, (j - 1) as nat);
    } else {
        lemma_fib_grows(i, (j - 1) as nat);
        lemma_fib_grows((j - 2) as nat, (j - 1) as nat);
    }
}

/// The Fibonacci numbers that 64 bits hold, in order.
fn fib_table() -> (f: Vec<u64>)
    ensures
        f@.len() == FIBS,
        forall|i: int| 0 <= i < FIBS ==> #[trigger] f@[i] == fib(i as nat),
{
    let mut f: Vec<u64> = vec![1, 2];
    while f.len() < FIBS
        invariant
            2 <= f@.len() <= FIBS,
            forall|i: int| 0 <= i < f@.len() ==> #[trigger] f@[i] == fib(i as nat),
        decreases FIBS - f@.len(),
    {
        let n: usize = f.len();
        proof {
            lemma_last_fibs();
            if n < 91 {
                lemma_fib_grows(n as nat, 91);
            }
        }
        f.push(f[n - 1] + f[n - 2]);
    }
    f
}

// ---- bits in bytes ----------------------------------------------------------
/// Bit `i` of a buffer; there are no ones outside it.
pub open spec fn bit(buf: Seq<u8>, i: int) -> bool {
    0 <= i && i / 8 < buf.len() && (buf[i / 8] >> ((i % 8) as u8)) & 1 == 1
}

/// Bit `i` of a buffer.
fn bit_at(buf: &[u8], i: usize) -> (r: bool)
    ensures
        r == bit(buf@, i as int),
{
    if i / 8 >= buf.len() {
        false
    } else {
        let shift: u8 = (i % 8) as u8;
        (buf[i / 8] >> shift) & 1 == 1
    }
}

/// Set bit `i` of a buffer.
fn set_bit(buf: &mut Vec<u8>, i: usize)
    requires
        i / 8 < old(buf)@.len(),
    ensures
        final(buf)@.len() == old(buf)@.len(),
        forall|j: int| #[trigger] bit(final(buf)@, j) == (bit(old(buf)@, j) || j == i),
{
    let ghost before = buf@;
    let at: usize = i / 8;
    let k: u8 = (i % 8) as u8;
    let b: u8 = buf[at];
    let with: u8 = b | (1u8 << k);
    buf[at] = with;
    assert forall|j: int| #[trigger] bit(buf@, j) == (bit(before, j) || j == i) by {
        if 0 <= j && j / 8 == at {
            let m = (j % 8) as u8;
            assert(k < 8 && m < 8);
            assert(((b | (1u8 << k)) >> m) & 1 == (if m == k {
                1u8
            } else {
                (b >> m) & 1
            })) by (bit_vector)
                requires
                    k < 8,
                    m < 8,
            ;
            assert(m == k <==> j == i);
        }
    }
}

/// A buffer holds just these bits, and no byte more than they need.
pub open spec fn packs(buf: Seq<u8>, bits: Seq<bool>) -> bool {
    &&& buf.len() == (bits.len() + 7) / 8
    &&& forall|i: int| #[trigger] bit(buf, i) == (0 <= i < bits.len() && bits[i])
}

fn zeroes(n: usize) -> (v: Vec<u8>)
    ensures
        v@.len() == n,
        forall|i: int| !#[trigger] bit(v@, i),
{
    let mut v: Vec<u8> = Vec::new();
    add_zeroes(&mut v, n);
    v
}

fn add_zeroes(v: &mut Vec<u8>, n: usize)
    requires
        old(v)@.len() <= n,
    ensures
        final(v)@.len() == n,
        forall|i: int| #[trigger] bit(final(v)@, i) == bit(old(v)@, i),
{
    let ghost before = v@;
    while v.len() < n
        invariant
            v@.len() <= n,
            before.len() <= v@.len(),
            forall|k: int| 0 <= k < before.len() ==> v@[k] == before[k],
            forall|k: int| before.len() <= k < v@.len() ==> #[trigger] v@[k] == 0,
        decreases n - v@.len(),
    {
        v.push(0);
    }
    assert forall|i: int| #[trigger] bit(v@, i) == bit(before, i) by {
        if 0 <= i && i / 8 < v@.len() && i / 8 >= before.len() {
            let m = (i % 8) as u8;
            assert(v@[i / 8] == 0);
            assert((0u8 >> m) & 1 == 0) by (bit_vector);
        }
    }
}

// ---- codewords --------------------------------------------------------------
/// How many Fibonacci numbers from number `i` on are no larger than `n`, and
/// those before.
pub open spec fn width_from(n: nat, i: nat) -> nat
    decreases FIBS - i,
{
    if i >= FIBS || fib(i) > n {
        i
    } else {
        width_from(n, i + 1)
    }
}

/// How many digits a number has.
pub open spec fn width(n: nat) -> nat {
    width_from(n, 0)
}

/// The digits of a number, the largest Fibonacci number taken first.
pub open spec fn digits(n: nat, hi: nat) -> Seq<bool>
    decreases hi,
{
    if hi == 0 {
        Seq::empty()
    } else {
        let f = fib((hi - 1) as nat);
        if f <= n {
            digits((n - f) as nat, (hi - 1) as nat).push(true)
        } else {
            digits(n, (hi - 1) as nat).push(false)
        }
    }
}

/// The codeword of a number: its digits and a closing 1.
pub open spec fn code(n: nat) -> Seq<bool> {
    digits(n, width(n)).push(true)
}

/// The sum of the Fibonacci numbers that some digits stand for.
pub open spec fn value(d: Seq<bool>) -> nat
    decreases d.len(),
{
    if d.len() == 0 {
        0
    } else {
        value(d.drop_last()) + if d.last() {
            fib((d.len() - 1) as nat)
        } else {
            0
        }
    }
}

/// No two digits next to each other are both 1.
pub open spec fn sparse(d: Seq<bool>) -> bool {
    forall|i: int, j: int|
        0 <= i && j == i + 1 && j < d.len() ==> !(#[trigger] d[i] && #[trigger] d[j])
}

proof fn lemma_width_from(n: nat, i: nat)
    requires
        i <= FIBS,
        i > 0 ==> fib((i - 1) as nat) <= n,
        n <= u64::MAX,
    ensures
        i <= width_from(n, i) <= FIBS,
        n < fib(width_from(n, i)),
        width_from(n, i) > 0 ==> fib((width_from(n, i) - 1) as nat) <= n,
    decreases FIBS - i,
{
    if i >= FIBS {
        lemma_last_fibs();
    } else if fib(i) <= n {
        lemma_width_from(n, i + 1);
    }
}

proof fn lemma_digits(n: nat, hi: nat)
    requires
        n < fib(hi),
    ensures
        digits(n, hi).len() == hi,
        value(digits(n, hi)) == n,
        sparse(digits(n, hi)),
        hi > 0 ==> (digits(n, hi).last() <==> fib((hi - 1) as nat) <= n),
    decreases hi,
{
    if hi > 0 {
        let f = fib((hi - 1) as nat);
        let d = digits(n, hi);
        if f <= n {
            let r = (n - f) as nat;
            if hi == 1 {
                assert(n == 1 && r == 0);
            } else {
                assert(r < fib((hi - 2) as nat));
                lemma_fib_grows((hi - 2) as nat, (hi - 1) as nat);
            }
            lemma_digits(r, (hi - 1) as nat);
            assert(d.drop_last() =~= digits(r, (hi - 1) as nat));
        } else {
            lemma_digits(n, (hi - 1) as nat);
            assert(d.drop_last() =~= digits(n, (hi - 1) as nat));
        }
    }
}

/// What a codeword is: its digits say the number, they end in a 1 that the
/// closing 1 follows, and there is no other pair of ones.
pub proof fn a_codeword_says_its_number(n: u64)
    requires
        n > 0,
    ensures
        ({
            let c = code(n as nat);
            &&& 2 <= c.len() <= FIBS + 1
            &&& value(c.drop_last()) == n
            &&& c[c.len() - 2] && c[c.len() - 1]
            &&& sparse(c.drop_last())
        }),
{
    let n = n as nat;
    assert(fib(0) == 1);
    lemma_width_from(n, 0);
    lemma_digits(n, width(n));
    assert(width(n) > 0) by {
        if width(n) == 0 {
            assert(n < fib(0));
        }
    }
    let c = code(n);
    assert(c.drop_last() =~= digits(n, width(n)));
    assert(c[c.len() - 2] == digits(n, width(n)).last());
}

/// The codeword of a positive number, packed.
pub fn zeck_encode(n: u64) -> (out: Vec<u8>)
    requires
        n > 0,
    ensures
        packs(out@, code(n as nat)),
{
    let fibs: Vec<u64> = fib_table();
    let mut hi: usize = 0;
    while hi < FIBS && fibs[hi] <= n
        invariant
            hi <= FIBS,
            fibs@.len() == FIBS,
            forall|i: int| 0 <= i < FIBS ==> #[trigger] fibs@[i] == fib(i as nat),
            width(n as nat) == width_from(n as nat, hi as nat),
        decreases FIBS - hi,
    {
        hi += 1;
    }
    assert(hi == width(n as nat));
    let ghost c = code(n as nat);
    proof {
        a_codeword_says_its_number(n);
        assert(fib(0) == 1);
        lemma_width_from(n as nat, 0);
        lemma_digits(n as nat, hi as nat);
    }
    let mut out: Vec<u8> = zeroes((hi + 8) / 8);
    let mut rem: u64 = n;
    let mut idx: usize = hi;
    while idx > 0
        invariant
            idx <= hi <= FIBS,
            fibs@.len() == FIBS,
            forall|i: int| 0 <= i < FIBS ==> #[trigger] fibs@[i] == fib(i as nat),
            out@.len() == (hi + 8) / 8,
            c == digits(n as nat, hi as nat).push(true),
            c.len() == hi + 1,
            digits(rem as nat, idx as nat).len() == idx,
            forall|i: int| 0 <= i < idx ==> c[i] == digits(rem as nat, idx as nat)[i],
            forall|i: int| #[trigger] bit(out@, i) == (idx <= i < hi && c[i]),
        decreases idx,
    {
        let ghost before = out@;
        let ghost d = digits(rem as nat, idx as nat);
        idx -= 1;
        assert(c[idx as int] == d[idx as int]);
        assert(d.last() == d[idx as int]);
        if fibs[idx] <= rem {
            assert(idx / 8 < (hi + 8) / 8);
            set_bit(&mut out, idx);
            rem -= fibs[idx];
            assert(d =~= digits(rem as nat, idx as nat).push(true));
        } else {
            assert(d =~= digits(rem as nat, idx as nat).push(false));
        }
        assert(forall|i: int| 0 <= i < idx ==> d[i] == digits(rem as nat, idx as nat)[i]);
    }
    set_bit(&mut out, hi);
    out
}

/// One more than the place of the highest bit of a buffer that is set.
pub fn codeword_nbits(cw: &[u8]) -> (n: usize)
    requires
        cw@.len() <= usize::MAX / 8,
    ensures
        n <= cw@.len() * 8,
        forall|i: int| n <= i ==> !#[trigger] bit(cw@, i),
        n > 0 ==> bit(cw@, n - 1),
{
    let mut n: usize = cw.len() * 8;
    while n > 0 && !bit_at(cw, n - 1)
        invariant
            n <= cw@.len() * 8,
            forall|i: int| n <= i ==> !#[trigger] bit(cw@, i),
        decreases n,
    {
        n -= 1;
    }
    n
}

// ---- reading them -----------------------------------------------------------
/// Where the first pair of ones from `i` on begins.
pub open spec fn pair_from(buf: Seq<u8>, i: int) -> Option<int>
    decreases buf.len() * 8 - i,
{
    if i < 0 || i / 8 >= buf.len() {
        None
    } else if bit(buf, i) && bit(buf, i + 1) {
        Some(i)
    } else {
        pair_from(buf, i + 1)
    }
}

/// The sum of the Fibonacci numbers that the bits from `start` to `end` stand
/// for.
pub open spec fn bits_value(buf: Seq<u8>, start: int, end: int) -> nat
    decreases end - start,
{
    if end <= start {
        0
    } else {
        bits_value(buf, start, end - 1) + if bit(buf, end - 1) && end - 1 - start < FIBS {
            fib((end - 1 - start) as nat)
        } else {
            0
        }
    }
}

/// The number whose codeword begins at `start`, in 64 bits, and how many bits
/// the codeword takes.
pub open spec fn decoded(buf: Seq<u8>, start: int) -> Option<(u64, int)> {
    match pair_from(buf, start) {
        None => None,
        Some(i) => Some(
            ((bits_value(buf, start, i + 1) % 0x1_0000_0000_0000_0000) as u64, i + 2 - start),
        ),
    }
}

/// A pair lies at or behind where the search began, inside the buffer.
pub proof fn lemma_pair_from(buf: Seq<u8>, i: int)
    requires
        0 <= i,
    ensures
        match pair_from(buf, i) {
            Some(j) => i <= j && j + 1 < buf.len() * 8 && bit(buf, j) && bit(buf, j + 1),
            None => true,
        },
    decreases buf.len() * 8 - i,
{
    if i / 8 < buf.len() && !(bit(buf, i) && bit(buf, i + 1)) {
        lemma_pair_from(buf, i + 1);
    }
}

/// Read the codeword that begins at `start`.
fn decode_at(buf: &[u8], start: usize) -> (r: Option<(u64, usize)>)
    requires
        buf@.len() <= usize::MAX / 8,
    ensures
        match r {
            Some((v, used)) => decoded(buf@, start as int) == Some((v, used as int)) && used >= 2
                && start + used <= buf@.len() * 8,
            None => decoded(buf@, start as int) is None,
        },
{
    let mut i: usize = start;
    while i / 8 < buf.len() && !(bit_at(buf, i) && bit_at(buf, i + 1))
        invariant
            buf@.len() <= usize::MAX / 8,
            start <= i,
            pair_from(buf@, start as int) == pair_from(buf@, i as int),
        decreases buf@.len() * 8 - i,
    {
        i += 1;
    }
    if i / 8 >= buf.len() {
        return None;
    }
    proof {
        lemma_pair_from(buf@, i as int);
    }
    let end: usize = i + 1;
    let fibs: Vec<u64> = fib_table();
    let mut val: u64 = 0;
    let mut j: usize = start;
    while j < end
        invariant
            start <= j <= end,
            fibs@.len() == FIBS,
            forall|k: int| 0 <= k < FIBS ==> #[trigger] fibs@[k] == fib(k as nat),
            val == bits_value(buf@, start as int, j as int) % 0x1_0000_0000_0000_0000,
        decreases end - j,
    {
        if bit_at(buf, j) && j - start < FIBS {
            val = val.wrapping_add(fibs[j - start]);
        }
        j += 1;
    }
    Some((val, end + 1 - start))
}

/// Read the codeword at the front of a buffer: the number and how many bits it
/// takes. `None` where no codeword ends.
pub fn zeck_decode(bits: &[u8]) -> (r: Option<(u64, usize)>)
    requires
        bits@.len() <= usize::MAX / 8,
    ensures
        match r {
            Some((v, used)) => decoded(bits@, 0) == Some((v, used as int)),
            None => decoded(bits@, 0) is None,
        },
{
    decode_at(bits, 0)
}

/// The bits of a buffer from `start` on are these.
pub open spec fn holds_at(buf: Seq<u8>, start: int, bits: Seq<bool>) -> bool {
    forall|i: int| 0 <= i < bits.len() ==> bits[i] == #[trigger] bit(buf, start + i)
}

proof fn lemma_pair_of_code(buf: Seq<u8>, start: int, n: u64, s: int)
    requires
        n > 0,
        0 <= start,
        holds_at(buf, start, code(n as nat)),
        0 <= s <= code(n as nat).len() - 2,
    ensures
        pair_from(buf, start + s) == Some(start + code(n as nat).len() - 2),
    decreases code(n as nat).len() - s,
{
    let c = code(n as nat);
    a_codeword_says_its_number(n);
    assert(c[s] == bit(buf, start + s));
    assert(c[s + 1] == bit(buf, start + (s + 1)));
    assert(c[c.len() - 1] == bit(buf, start + (c.len() - 1)));
    if s < c.len() - 2 {
        let d = c.drop_last();
        assert(d[s] == c[s] && d[s + 1] == c[s + 1]);
        assert(!(d[s] && d[s + 1]));
        lemma_pair_of_code(buf, start, n, s + 1);
    }
}

proof fn lemma_bits_value(buf: Seq<u8>, start: int, d: Seq<bool>)
    requires
        holds_at(buf, start, d),
        d.len() <= FIBS,
    ensures
        bits_value(buf, start, start + d.len()) == value(d),
    decreases d.len(),
{
    if d.len() > 0 {
        let e = d.drop_last();
        assert forall|i: int| 0 <= i < e.len() implies e[i] == #[trigger] bit(buf, start + i) by {
            assert(d[i] == bit(buf, start + i));
        }
        lemma_bits_value(buf, start, e);
        assert(d[d.len() - 1] == bit(buf, start + (d.len() - 1)));
    }
}

/// Reading gives back what was written, and takes just its bits, wherever in a
/// buffer the codeword stands.
pub proof fn reading_gives_back_the_number(buf: Seq<u8>, start: int, n: u64)
    requires
        n > 0,
        0 <= start,
        holds_at(buf, start, code(n as nat)),
    ensures
        decoded(buf, start) == Some((n, code(n as nat).len() as int)),
{
    let c = code(n as nat);
    a_codeword_says_its_number(n);
    lemma_pair_of_code(buf, start, n, 0);
    let d = c.drop_last();
    assert forall|i: int| 0 <= i < d.len() implies d[i] == #[trigger] bit(buf, start + i) by {
        assert(c[i] == bit(buf, start + i));
    }
    lemma_bits_value(buf, start, d);
}

/// A reader that has lost its place inside a codeword finds the end of it: from
/// anywhere before its last bit, what is read ends where the codeword does.
pub proof fn a_lost_reader_finds_the_next_codeword(buf: Seq<u8>, start: int, n: u64, s: int)
    requires
        n > 0,
        0 <= start,
        holds_at(buf, start, code(n as nat)),
        0 <= s <= code(n as nat).len() - 2,
    ensures
        decoded(buf, start + s) is Some,
        start + s + (decoded(buf, start + s)->0).1 == start + code(n as nat).len(),
{
    lemma_pair_of_code(buf, start, n, s);
}

// ---- streams ----------------------------------------------------------------
/// The codewords of the first `n` numbers, each raised by one, end to end.
pub open spec fn codes(ns: Seq<u64>, n: nat) -> Seq<bool>
    decreases n,
{
    if n == 0 {
        Seq::empty()
    } else {
        codes(ns, (n - 1) as nat) + code((ns[n - 1] + 1) as nat)
    }
}

/// One less, round the end.
pub open spec fn one_below(v: u64) -> u64 {
    if v == 0 {
        u64::MAX
    } else {
        (v - 1) as u64
    }
}

/// The numbers that can be read from bit `i` on.
pub open spec fn numbers_from(buf: Seq<u8>, i: int) -> Seq<u64>
    decreases buf.len() * 8 - i,
{
    proof {
        if i >= 0 {
            lemma_pair_from(buf, i);
        }
    }
    match decoded(buf, i) {
        None => Seq::empty(),
        Some((v, used)) => if i < 0 {
            Seq::empty()
        } else {
            seq![one_below(v)] + numbers_from(buf, i + used)
        },
    }
}

/// A stream of codewords, packed end to end.
#[derive(Debug)]
pub struct ZeckStream {
    pub buf: Vec<u8>,
    bits: usize,
}

impl View for ZeckStream {
    type V = Seq<bool>;

    closed spec fn view(&self) -> Seq<bool> {
        Seq::new(self.bits as nat, |i: int| bit(self.buf@, i))
    }
}

impl ZeckStream {
    /// The buffer holds just the bits that were written.
    pub closed spec fn wf(&self) -> bool {
        packs(self.buf@, self@)
    }

    /// An empty stream.
    pub fn new() -> (r: Self)
        ensures
            r.wf(),
            r@.len() == 0,
    {
        let buf: Vec<u8> = Vec::new();
        ZeckStream { buf, bits: 0 }
    }

    /// Append a number. It is stored raised by one, so that 0 has a codeword.
    pub fn push(&mut self, n: u64)
        requires
            old(self).wf(),
            n < u64::MAX,
            old(self)@.len() + code((n + 1) as nat).len() <= usize::MAX,
        ensures
            final(self).wf(),
            final(self)@ == old(self)@ + code((n + 1) as nat),
    {
        let ghost before = self@;
        let ghost c = code((n + 1) as nat);
        let cw: Vec<u8> = zeck_encode(n + 1);
        proof {
            a_codeword_says_its_number((n + 1) as u64);
        }
        let nbits: usize = codeword_nbits(cw.as_slice());
        proof {
            assert(bit(cw@, c.len() - 1));
            assert(nbits == c.len());
        }
        let start: usize = self.bits;
        let whole: usize = (start + nbits) / 8;
        let need: usize = if (start + nbits) % 8 == 0 {
            whole
        } else {
            whole + 1
        };
        assert(need == (start + nbits + 7) / 8);
        add_zeroes(&mut self.buf, need);
        let mut j: usize = 0;
        while j < nbits
            invariant
                j <= nbits,
                nbits == c.len(),
                packs(cw@, c),
                start == before.len(),
                start + nbits <= usize::MAX,
                self.buf@.len() == (start + nbits + 7) / 8,
                self.bits == start,
                forall|i: int| #[trigger]
                    bit(self.buf@, i) == ((0 <= i < start && before[i]) || (start <= i < start + j
                        && c[i - start])),
            decreases nbits - j,
        {
            assert(bit(cw@, j as int) == c[j as int]);
            if bit_at(cw.as_slice(), j) {
                set_bit(&mut self.buf, start + j);
            }
            j += 1;
        }
        self.bits = start + nbits;
        assert(self@ =~= before + c);
    }

    /// The packed stream.
    pub fn finish(self) -> (r: Vec<u8>)
        requires
            self.wf(),
        ensures
            packs(r@, self@),
    {
        self.buf
    }

    /// Read all the numbers of a packed stream.
    pub fn decode_all(buf: &[u8]) -> (out: Vec<u64>)
        requires
            buf@.len() <= usize::MAX / 8,
        ensures
            out@ == numbers_from(buf@, 0),
    {
        let mut out: Vec<u64> = Vec::new();
        let mut i: usize = 0;
        let mut more: bool = true;
        assert(out@ + numbers_from(buf@, 0) =~= numbers_from(buf@, 0));
        while more
            invariant
                buf@.len() <= usize::MAX / 8,
                i <= buf@.len() * 8,
                more ==> out@ + numbers_from(buf@, i as int) == numbers_from(buf@, 0),
                !more ==> out@ == numbers_from(buf@, 0),
            decreases buf@.len() * 8 - i, (if more {
                    1int
                } else {
                    0int
                }),
        {
            match decode_at(buf, i) {
                Some((v, used)) => {
                    let ghost before = out@;
                    let ghost rest = numbers_from(buf@, i + used);
                    let x: u64 = v.wrapping_sub(1);
                    out.push(x);
                    assert(x == one_below(v));
                    assert(before + (seq![x] + rest) =~= out@ + rest);
                    i += used;
                },
                None => {
                    more = false;
                    assert(out@ + numbers_from(buf@, i as int) =~= out@);
                },
            }
        }
        out
    }
}

impl Default for ZeckStream {
    fn default() -> (r: Self)
        ensures
            r.wf(),
            r@.len() == 0,
    {
        Self::new()
    }
}

proof fn lemma_no_pair(buf: Seq<u8>, i: int)
    requires
        0 <= i,
        forall|j: int| i <= j ==> !#[trigger] bit(buf, j),
    ensures
        pair_from(buf, i) is None,
    decreases buf.len() * 8 - i,
{
    if i / 8 < buf.len() {
        assert(!bit(buf, i));
        lemma_no_pair(buf, i + 1);
    }
}

proof fn lemma_codes_prefix(ns: Seq<u64>, k: nat, n: nat)
    requires
        k <= n,
    ensures
        codes(ns, k).len() <= codes(ns, n).len(),
        forall|i: int| 0 <= i < codes(ns, k).len() ==> codes(ns, n)[i] == codes(ns, k)[i],
    decreases n,
{
    if k < n {
        lemma_codes_prefix(ns, k, (n - 1) as nat);
    }
}

proof fn lemma_stream_from(buf: Seq<u8>, ns: Seq<u64>, k: nat)
    requires
        packs(buf, codes(ns, ns.len())),
        k <= ns.len(),
        forall|i: int| 0 <= i < ns.len() ==> #[trigger] ns[i] < u64::MAX,
    ensures
        numbers_from(buf, codes(ns, k).len() as int) == ns.skip(k as int),
    decreases ns.len() - k,
{
    let at = codes(ns, k).len() as int;
    let all = codes(ns, ns.len());
    if k == ns.len() {
        assert forall|j: int| at <= j implies !#[trigger] bit(buf, j) by {}
        lemma_no_pair(buf, at);
        assert(ns.skip(k as int) =~= Seq::<u64>::empty());
    } else {
        let n = (ns[k as int] + 1) as u64;
        let c = code(n as nat);
        lemma_codes_prefix(ns, k + 1, ns.len());
        assert(codes(ns, k + 1) == codes(ns, k) + c);
        assert forall|i: int| 0 <= i < c.len() implies c[i] == #[trigger] bit(buf, at + i) by {
            assert(codes(ns, k + 1)[at + i] == c[i]);
            assert(all[at + i] == codes(ns, k + 1)[at + i]);
        }
        reading_gives_back_the_number(buf, at, n);
        lemma_stream_from(buf, ns, k + 1);
        assert(ns.skip(k as int) =~= seq![ns[k as int]] + ns.skip((k + 1) as int));
    }
}

/// Reading a stream gives back the numbers that were pushed, in order.
pub proof fn a_stream_reads_back(buf: Seq<u8>, ns: Seq<u64>)
    requires
        packs(buf, codes(ns, ns.len())),
        forall|i: int| 0 <= i < ns.len() ==> #[trigger] ns[i] < u64::MAX,
    ensures
        numbers_from(buf, 0) == ns,
{
    lemma_stream_from(buf, ns, 0);
    assert(ns.skip(0) =~= ns);
}

proof fn lemma_codes_agree(a: Seq<u64>, b: Seq<u64>, n: nat)
    requires
        n <= a.len(),
        n <= b.len(),
        forall|i: int| 0 <= i < n ==> a[i] == b[i],
    ensures
        codes(a, n) == codes(b, n),
    decreases n,
{
    if n > 0 {
        lemma_codes_agree(a, b, (n - 1) as nat);
    }
}

/// A push adds its number to those that the stream reads as, and leaves the bits
/// before it.
pub proof fn a_push_adds_its_number(before: Seq<u8>, after: Seq<u8>, ns: Seq<u64>, n: u64)
    requires
        packs(before, codes(ns, ns.len())),
        packs(after, codes(ns, ns.len()) + code((n + 1) as nat)),
        forall|i: int| 0 <= i < ns.len() ==> #[trigger] ns[i] < u64::MAX,
        n < u64::MAX,
    ensures
        numbers_from(after, 0) == numbers_from(before, 0).push(n),
        forall|i: int| 0 <= i < codes(ns, ns.len()).len() ==> bit(after, i) == bit(before, i),
{
    let all = ns.push(n);
    lemma_codes_agree(ns, all, ns.len());
    assert(codes(all, all.len()) == codes(ns, ns.len()) + code((n + 1) as nat));
    a_stream_reads_back(before, ns);
    a_stream_reads_back(after, all);
}

proof fn lemma_sparse_is_small(d: Seq<bool>)
    requires
        sparse(d),
    ensures
        value(d) < fib(d.len()),
    decreases d.len(),
{
    if d.len() > 0 {
        let e = d.drop_last();
        assert(sparse(e)) by {
            assert forall|i: int, j: int| 0 <= i && j == i + 1 && j < e.len() implies !(
            #[trigger] e[i] && #[trigger] e[j]) by {
                assert(!(d[i] && d[j]));
            }
        }
        lemma_sparse_is_small(e);
        if d.len() >= 2 {
            lemma_fib_grows((d.len() - 2) as nat, (d.len() - 1) as nat);
            lemma_fib_grows((d.len() - 1) as nat, d.len());
            if d.last() {
                assert(!(d[d.len() - 2] && d[d.len() - 1]));
                let f = e.drop_last();
                assert(e.last() == d[d.len() - 2]);
                assert(sparse(f)) by {
                    assert forall|i: int, j: int| 0 <= i && j == i + 1 && j < f.len() implies !(
                    #[trigger] f[i] && #[trigger] f[j]) by {
                        assert(!(d[i] && d[j]));
                    }
                }
                lemma_sparse_is_small(f);
            }
        } else {
            assert(e.len() == 0);
            assert(fib(0) == 1 && fib(1) == 2);
        }
    }
}

/// A number is in only one way a sum of Fibonacci numbers no two of which are
/// neighbours.
pub proof fn sparse_digits_are_unique(d: Seq<bool>, e: Seq<bool>)
    requires
        sparse(d),
        sparse(e),
        d.len() == e.len(),
        value(d) == value(e),
    ensures
        d == e,
    decreases d.len(),
{
    if d.len() > 0 {
        let (x, y) = (d.drop_last(), e.drop_last());
        assert(sparse(x)) by {
            assert forall|i: int, j: int| 0 <= i && j == i + 1 && j < x.len() implies !(
            #[trigger] x[i] && #[trigger] x[j]) by {
                assert(!(d[i] && d[j]));
            }
        }
        assert(sparse(y)) by {
            assert forall|i: int, j: int| 0 <= i && j == i + 1 && j < y.len() implies !(
            #[trigger] y[i] && #[trigger] y[j]) by {
                assert(!(e[i] && e[j]));
            }
        }
        lemma_sparse_is_small(x);
        lemma_sparse_is_small(y);
        assert(d.last() == e.last());
        sparse_digits_are_unique(x, y);
        assert(d =~= x.push(d.last()));
        assert(e =~= y.push(e.last()));
    } else {
        assert(d =~= e);
    }
}

/// No two numbers share a codeword.
pub proof fn codewords_are_unique(a: u64, b: u64)
    requires
        a > 0,
        b > 0,
        code(a as nat) == code(b as nat),
    ensures
        a == b,
{
    a_codeword_says_its_number(a);
    a_codeword_says_its_number(b);
}

/// The bits of a stream fill every byte from the lowest up, byte after byte.
pub proof fn bits_fill_bytes_from_the_lowest(buf: Seq<u8>, q: int)
    requires
        0 <= q < buf.len(),
    ensures
        ({
            let b = buf[q];
            &&& bit(buf, 8 * q) <==> b % 2 == 1
            &&& bit(buf, 8 * q + 1) <==> b / 2 % 2 == 1
            &&& bit(buf, 8 * q + 2) <==> b / 4 % 2 == 1
            &&& bit(buf, 8 * q + 3) <==> b / 8 % 2 == 1
            &&& bit(buf, 8 * q + 4) <==> b / 16 % 2 == 1
            &&& bit(buf, 8 * q + 5) <==> b / 32 % 2 == 1
            &&& bit(buf, 8 * q + 6) <==> b / 64 % 2 == 1
            &&& bit(buf, 8 * q + 7) <==> b / 128 == 1
        }),
{
    let b = buf[q];
    assert(((b >> 0u8) & 1 == 1 <==> b % 2 == 1) && ((b >> 1u8) & 1 == 1 <==> b / 2 % 2 == 1) && ((b
        >> 2u8) & 1 == 1 <==> b / 4 % 2 == 1) && ((b >> 3u8) & 1 == 1 <==> b / 8 % 2 == 1) && ((b
        >> 4u8) & 1 == 1 <==> b / 16 % 2 == 1) && ((b >> 5u8) & 1 == 1 <==> b / 32 % 2 == 1) && ((b
        >> 6u8) & 1 == 1 <==> b / 64 % 2 == 1) && ((b >> 7u8) & 1 == 1 <==> b / 128 == 1))
        by (bit_vector);
    assert((8 * q) % 8 == 0 && (8 * q + 1) % 8 == 1 && (8 * q + 2) % 8 == 2 && (8 * q + 3) % 8 == 3
        && (8 * q + 4) % 8 == 4 && (8 * q + 5) % 8 == 5 && (8 * q + 6) % 8 == 6 && (8 * q + 7) % 8
        == 7);
}

} // verus!
