//! Byte-level helpers: the additive checksum and NUL-terminated text fields.

use vstd::prelude::*;

verus! {

/// The sum of all bytes of `s`, as a mathematical integer.
pub open spec fn byte_sum(s: Seq<u8>) -> nat
    decreases s.len(),
{
    if s.len() == 0 {
        0
    } else {
        byte_sum(s.drop_last()) + s.last() as nat
    }
}

/// The 16-bit checksum of `s`: the byte sum, reduced to its low 16 bits.
pub open spec fn checksum_value(s: Seq<u8>) -> u16 {
    (byte_sum(s) % 0x1_0000) as u16
}

/// The low byte of `x`, then its high byte.
pub open spec fn le_bytes(x: u16) -> Seq<u8> {
    seq![(x % 256) as u8, (x / 256) as u8]
}

/// The value whose little-endian bytes are `lo`, `hi`.
pub open spec fn le_value(lo: u8, hi: u8) -> u16 {
    (lo + 256 * hi) as u16
}

/// The four bytes of `x`, the highest first.
pub open spec fn be_bytes(x: u32) -> Seq<u8> {
    seq![
        (x / 0x100_0000) as u8,
        (x / 0x1_0000 % 256) as u8,
        (x / 0x100 % 256) as u8,
        (x % 256) as u8,
    ]
}

/// The value whose four bytes, the highest first, are `b`.
pub open spec fn be_value(b: Seq<u8>) -> u32 {
    (b[0] * 0x100_0000 + b[1] * 0x1_0000 + b[2] * 0x100 + b[3]) as u32
}

/// The byte sum of a concatenation is the sum of the parts' byte sums.
pub proof fn lemma_byte_sum_concat(a: Seq<u8>, b: Seq<u8>)
    ensures
        byte_sum(a + b) == byte_sum(a) + byte_sum(b),
    decreases b.len(),
{
    if b.len() == 0 {
        assert(a + b =~= a);
    } else {
        assert((a + b).drop_last() =~= a + b.drop_last());
        lemma_byte_sum_concat(a, b.drop_last());
    }
}

/// Two numbers less than 65536 apart that leave the same remainder on
/// division by 65536 are equal.
proof fn lemma_same_remainder(x: int, y: int)
    requires
        x % 0x1_0000 == y % 0x1_0000,
        -0x1_0000 < x - y < 0x1_0000,
    ensures
        x == y,
{
    vstd::arithmetic::div_mod::lemma_fundamental_div_mod(x, 0x1_0000);
    vstd::arithmetic::div_mod::lemma_fundamental_div_mod(y, 0x1_0000);
    let p = x / 0x1_0000;
    let q = y / 0x1_0000;
    assert(x - y == 0x1_0000 * (p - q)) by (nonlinear_arith)
        requires
            x == 0x1_0000 * p + x % 0x1_0000,
            y == 0x1_0000 * q + y % 0x1_0000,
            x % 0x1_0000 == y % 0x1_0000,
    ;
}

/// The byte sum of a single byte is that byte.
proof fn lemma_byte_sum_one(b: u8)
    ensures
        byte_sum(seq![b]) == b,
{
    let one = seq![b];
    assert(one.drop_last() =~= Seq::<u8>::empty());
    assert(byte_sum(one.drop_last()) == 0);
    assert(one.last() == b);
}

/// Changing one byte changes the byte sum by the difference of the two
/// values of that byte.
pub proof fn lemma_byte_sum_update(s: Seq<u8>, i: int, b: u8)
    requires
        0 <= i < s.len(),
    ensures
        byte_sum(s.update(i, b)) == byte_sum(s) - s[i] + b,
{
    let front = s.take(i);
    let back = s.skip(i + 1);
    assert(s =~= front + seq![s[i]] + back);
    assert(s.update(i, b) =~= front + seq![b] + back);
    lemma_byte_sum_concat(front, seq![s[i]]);
    lemma_byte_sum_concat(front + seq![s[i]], back);
    lemma_byte_sum_concat(front, seq![b]);
    lemma_byte_sum_concat(front + seq![b], back);
    lemma_byte_sum_one(s[i]);
    lemma_byte_sum_one(b);
}

/// The checksum tells every change of a single byte: a buffer that differs
/// from another in exactly one byte has another checksum.
pub proof fn lemma_checksum_tells_change(s: Seq<u8>, i: int, b: u8)
    requires
        0 <= i < s.len(),
        b != s[i],
    ensures
        checksum_value(s.update(i, b)) != checksum_value(s),
{
    lemma_byte_sum_update(s, i, b);
    if byte_sum(s.update(i, b)) % 0x1_0000 == byte_sum(s) % 0x1_0000 {
        lemma_same_remainder(byte_sum(s.update(i, b)) as int, byte_sum(s) as int);
    }
}

/// The checksum of two buffers put together does not depend on which of
/// them comes first.
pub proof fn lemma_checksum_order(a: Seq<u8>, b: Seq<u8>)
    ensures
        checksum_value(a + b) == checksum_value(b + a),
{
    lemma_byte_sum_concat(a, b);
    lemma_byte_sum_concat(b, a);
}

/// A 16-bit value is read back from its two little-endian bytes.
pub proof fn lemma_le_roundtrip(x: u16)
    ensures
        le_bytes(x).len() == 2,
        le_value(le_bytes(x)[0], le_bytes(x)[1]) == x,
{
}

/// A 32-bit value is read back from its four big-endian bytes.
pub proof fn lemma_be_roundtrip(x: u32)
    ensures
        be_bytes(x).len() == 4,
        be_value(be_bytes(x)) == x,
{
}

/// Adding a byte to a sum kept modulo 2^32 keeps it the sum modulo 2^32.
proof fn lemma_wrapped_step(total: nat, byte: nat)
    ensures
        ((total % 0x1_0000_0000) + byte) % 0x1_0000_0000 == (total + byte) % 0x1_0000_0000,
{
    let m: int = 0x1_0000_0000;
    let q: int = total as int / m;
    let r: int = total as int % m;
    vstd::arithmetic::div_mod::lemma_fundamental_div_mod(total as int, m);
    vstd::arithmetic::div_mod::lemma_mod_multiples_vanish(q, r + byte, m);
}

/// The low 16 bits of a sum kept modulo 2^32 are the low 16 bits of the sum.
proof fn lemma_low_half(total: nat)
    ensures
        (total % 0x1_0000_0000) % 0x1_0000 == total % 0x1_0000,
{
    vstd::arithmetic::div_mod::lemma_mod_mod(total as int, 0x1_0000, 0x1_0000);
}

/// Computes the 16-bit additive checksum of `bytes`, low byte first.
///
/// The bytes are summed in a 32-bit accumulator that wraps; only the low 16
/// bits of the sum are kept.
pub fn calculate_checksum(bytes: Vec<u8>) -> (sum: [u8; 2])
    ensures
        sum@ == le_bytes(checksum_value(bytes@)),
{
    let mut acc: u32 = 0;
    let mut i: usize = 0;
    while i < bytes.len()
        invariant
            i <= bytes.len(),
            acc as nat == byte_sum(bytes@.take(i as int)) % 0x1_0000_0000,
        decreases bytes.len() - i,
    {
        proof {
            assert(bytes@.take(i + 1).drop_last() =~= bytes@.take(i as int));
            lemma_wrapped_step(byte_sum(bytes@.take(i as int)), bytes@[i as int] as nat);
        }
        acc = acc.wrapping_add(bytes[i] as u32);
        i = i + 1;
    }
    proof {
        assert(bytes@.take(i as int) =~= bytes@);
        lemma_low_half(byte_sum(bytes@));
    }
    let low: u32 = acc % 0x1_0000;
    let sum: [u8; 2] = [(low % 256) as u8, (low / 256) as u8];
    assert(sum@ =~= le_bytes(checksum_value(bytes@)));
    sum
}

/// Each byte read as the character with that code point.
pub open spec fn widen(s: Seq<u8>) -> Seq<char> {
    Seq::new(s.len(), |i: int| s[i] as char)
}

/// Where the text that starts at `start` ends: the position of the first zero
/// byte at or after `start`, or the end of `s` when there is none.
pub open spec fn text_end(s: Seq<u8>, start: int) -> int
    decreases s.len() - start,
{
    if 0 <= start < s.len() && s[start] != 0 {
        text_end(s, start + 1)
    } else {
        start
    }
}

/// The text of the field that starts at `start`, without its terminator.
pub open spec fn text_at(s: Seq<u8>, start: int) -> Seq<char> {
    widen(s.subrange(start, text_end(s, start)))
}

/// `text_end` is the first position from `start` on that holds a zero byte
/// or lies past the last byte.
pub proof fn lemma_text_end(s: Seq<u8>, start: int)
    requires
        0 <= start <= s.len(),
    ensures
        start <= text_end(s, start) <= s.len(),
        forall|i: int| start <= i < text_end(s, start) ==> s[i] != 0,
        text_end(s, start) < s.len() ==> s[text_end(s, start)] == 0,
    decreases s.len() - start,
{
    if start < s.len() && s[start] != 0 {
        lemma_text_end(s, start + 1);
    }
}

/// A position that is reached over nonzero bytes only, and that holds a zero
/// byte or is the end of `s`, is `text_end`.
pub proof fn lemma_text_end_is(s: Seq<u8>, start: int, end: int)
    requires
        0 <= start <= end <= s.len(),
        forall|i: int| start <= i < end ==> s[i] != 0,
        end < s.len() ==> s[end] == 0,
    ensures
        text_end(s, start) == end,
    decreases end - start,
{
    if start < end {
        lemma_text_end_is(s, start + 1, end);
    }
}

/// `String::push`: the string afterwards is the string before with `c`
/// appended as its last character.
#[verifier::external_body]
pub(crate) fn push_char(text: &mut String, c: char)
    ensures
        final(text)@ == old(text)@.push(c),
{
    text.push(c);
}

/// The bytes of `bytes` from `start` up to `end`, each as one character.
fn widen_range(bytes: &[u8], start: usize, end: usize) -> (text: String)
    requires
        start <= end <= bytes.len(),
    ensures
        text@ == widen(bytes@.subrange(start as int, end as int)),
{
    let mut text = String::new();
    let mut i: usize = start;
    while i < end
        invariant
            start <= i <= end <= bytes.len(),
            text@ == widen(bytes@.subrange(start as int, i as int)),
        decreases end - i,
    {
        push_char(&mut text, bytes[i] as char);
        i = i + 1;
        assert(text@ =~= widen(bytes@.subrange(start as int, i as int)));
    }
    text
}

/// Reads the text at the front of `bytes`: every byte before the first zero
/// byte (or all of them, when there is none), each as one character.
pub fn extract_cstring(bytes: &[u8]) -> (text: String)
    ensures
        text@ == text_at(bytes@, 0),
{
    let (text, _) = scan_text(bytes, 0);
    text
}

/// Reads the text that starts at `start` and gives it with the position
/// where it ends: that of its terminator, or the length of `bytes`.
pub(crate) fn scan_text(bytes: &[u8], start: usize) -> (found: (String, usize))
    requires
        start <= bytes.len(),
    ensures
        found.0@ == text_at(bytes@, start as int),
        found.1 == text_end(bytes@, start as int),
        start <= found.1 <= bytes.len(),
{
    let mut end: usize = start;
    while end < bytes.len() && bytes[end] != 0x00
        invariant
            start <= end <= bytes.len(),
            text_end(bytes@, start as int) == text_end(bytes@, end as int),
        decreases bytes.len() - end,
    {
        end = end + 1;
    }
    let text = widen_range(bytes, start, end);
    (text, end)
}

/// Reads the text that starts at `start` and gives it with the offset of the
/// byte after its terminator.
///
/// When no zero byte follows `start`, the text runs to the end of `bytes` and
/// the offset is one past the length: a caller checks it before it indexes.
/// So the length of `bytes` must be less than the largest `usize`.
pub fn extract_cstring_with_offset(bytes: &[u8], start: usize) -> (found: (String, usize))
    requires
        start <= bytes.len(),
        bytes.len() < usize::MAX,
    ensures
        found.0@ == text_at(bytes@, start as int),
        found.1 == text_end(bytes@, start as int) + 1,
        start < found.1 <= bytes.len() + 1,
{
    let (text, end) = scan_text(bytes, start);
    (text, end + 1)
}

/// The text field that starts at `start` in `body`, and the offset behind
/// its terminator. A field that would start past the end of `body` is empty.
pub open spec fn field_at(body: Seq<u8>, start: int) -> (Seq<char>, int) {
    if start > body.len() {
        (Seq::empty(), start)
    } else {
        (text_at(body, start), text_end(body, start) + 1)
    }
}

/// Reads the text field that starts at `start`; a field that would start
/// past the end of `body` is empty.
pub(crate) fn read_field(body: &[u8], start: usize) -> (found: (String, usize))
    requires
        body.len() < usize::MAX,
    ensures
        (found.0@, found.1 as int) == field_at(body@, start as int),
        start <= body.len() ==> found.1 <= body.len() + 1,
        start > body.len() ==> found.0@.len() == 0,
{
    if start > body.len() {
        (String::new(), start)
    } else {
        extract_cstring_with_offset(body, start)
    }
}

/// The least position from `from` on, below `len`, at which `bad` holds;
/// `len` when there is none.
pub open spec fn first_bad(from: int, len: int, bad: spec_fn(int) -> bool) -> int
    decreases len - from,
{
    if from >= len {
        len
    } else if bad(from) {
        from
    } else {
        first_bad(from + 1, len, bad)
    }
}

/// A position before which `bad` never holds, and which is `len` or has
/// `bad` hold, is `first_bad`.
pub proof fn lemma_first_bad_is(from: int, at: int, len: int, bad: spec_fn(int) -> bool)
    requires
        from <= at <= len,
        forall|j: int| from <= j < at ==> !#[trigger] bad(j),
        at < len ==> bad(at),
    ensures
        first_bad(from, len, bad) == at,
    decreases at - from,
{
    if from < at {
        lemma_first_bad_is(from + 1, at, len, bad);
    }
}

/// `bad` holds nowhere before `first_bad`, and holds there unless that is
/// `len`.
pub proof fn lemma_first_bad(from: int, len: int, bad: spec_fn(int) -> bool)
    requires
        from <= len,
    ensures
        from <= first_bad(from, len, bad) <= len,
        forall|j: int| from <= j < first_bad(from, len, bad) ==> !#[trigger] bad(j),
        first_bad(from, len, bad) < len ==> bad(first_bad(from, len, bad)),
    decreases len - from,
{
    if from < len && !bad(from) {
        lemma_first_bad(from + 1, len, bad);
    }
}

/// Whether `x` is among the first `end` bytes of `list`.
pub(crate) fn occurs_before(list: &Vec<u8>, end: usize, x: u8) -> (found: bool)
    requires
        end <= list.len(),
    ensures
        found == list@.take(end as int).contains(x),
{
    let mut i: usize = 0;
    while i < end
        invariant
            i <= end <= list.len(),
            forall|j: int| 0 <= j < i ==> list@[j] != x,
        decreases end - i,
    {
        if list[i] == x {
            assert(list@.take(end as int)[i as int] == x);
            return true;
        }
        i = i + 1;
    }
    false
}

/// The value whose little-endian bytes are `pair`.
pub(crate) fn le_u16(pair: [u8; 2]) -> (value: u16)
    ensures
        value == le_value(pair[0], pair[1]),
{
    pair[0] as u16 + 256 * (pair[1] as u16)
}

/// The 16-bit additive checksum of `bytes` as a number.
pub(crate) fn checksum_of(bytes: Vec<u8>) -> (sum: u16)
    ensures
        sum == checksum_value(bytes@),
{
    let ghost wanted = checksum_value(bytes@);
    let pair = calculate_checksum(bytes);
    assert(pair@ == le_bytes(wanted));
    assert(pair[0] == le_bytes(wanted)[0] && pair[1] == le_bytes(wanted)[1]);
    le_u16(pair)
}

} // verus!
