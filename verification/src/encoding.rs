//! Byte-level encodings shared by the index writers: big-endian integers, octal
//! numbers, and the variable-length offsets of prefix-compressed paths.

use vstd::prelude::*;

verus! {

/// The four big-endian bytes of `v`.
pub open spec fn be32(v: u32) -> Seq<u8> {
    seq![
        (v / 0x100_0000) as u8,
        ((v / 0x1_0000) % 0x100) as u8,
        ((v / 0x100) % 0x100) as u8,
        (v % 0x100) as u8,
    ]
}

/// The two big-endian bytes of `v`.
pub open spec fn be16(v: u16) -> Seq<u8> {
    seq![(v / 0x100) as u8, (v % 0x100) as u8]
}

/// Append the big-endian bytes of `v` to `out`.
pub fn push_be32(out: &mut Vec<u8>, v: u32)
    ensures
        final(out)@ == old(out)@ + be32(v),
{
    out.push((v / 0x100_0000) as u8);
    out.push(((v / 0x1_0000) % 0x100) as u8);
    out.push(((v / 0x100) % 0x100) as u8);
    out.push((v % 0x100) as u8);
    assert(out@ =~= old(out)@ + be32(v));
}

/// Append the big-endian bytes of `v` to `out`.
pub fn push_be16(out: &mut Vec<u8>, v: u16)
    ensures
        final(out)@ == old(out)@ + be16(v),
{
    out.push((v / 0x100) as u8);
    out.push((v % 0x100) as u8);
    assert(out@ =~= old(out)@ + be16(v));
}

/// Append all of `bytes` to `out`.
pub fn push_all(out: &mut Vec<u8>, bytes: &[u8])
    ensures
        final(out)@ == old(out)@ + bytes@,
{
    let mut i: usize = 0;
    while i < bytes.len()
        invariant
            i <= bytes@.len(),
            out@ == old(out)@ + bytes@.take(i as int),
        decreases bytes.len() - i,
    {
        out.push(bytes[i]);
        i = i + 1;
        assert(out@ =~= old(out)@ + bytes@.take(i as int));
    }
    assert(bytes@.take(bytes@.len() as int) =~= bytes@);
}

/// Append `bytes[start..end]` to `out`.
pub fn push_range(out: &mut Vec<u8>, bytes: &[u8], start: usize, end: usize)
    requires
        start <= end <= bytes@.len(),
    ensures
        final(out)@ == old(out)@ + bytes@.subrange(start as int, end as int),
{
    let mut i: usize = start;
    while i < end
        invariant
            start <= i <= end <= bytes@.len(),
            out@ == old(out)@ + bytes@.subrange(start as int, i as int),
        decreases end - i,
    {
        out.push(bytes[i]);
        i = i + 1;
        assert(out@ =~= old(out)@ + bytes@.subrange(start as int, i as int));
    }
}

/// The big-endian 32-bit number in `s[i..i + 4]`, as a reader takes it.
pub open spec fn read_be32(s: Seq<u8>, i: int) -> int {
    s[i] as int * 0x100_0000 + s[i + 1] as int * 0x1_0000 + s[i + 2] as int * 0x100 + s[i + 3] as int
}

/// The big-endian 16-bit number in `s[i..i + 2]`, as a reader takes it.
pub open spec fn read_be16(s: Seq<u8>, i: int) -> int {
    s[i] as int * 0x100 + s[i + 1] as int
}

/// A big-endian number reads back as itself.
pub proof fn lemma_read_be32(v: u32)
    ensures
        be32(v).len() == 4,
        read_be32(be32(v), 0) == v,
{
    let s = be32(v);
    assert(s[0] as int == v / 0x100_0000);
    assert(s[1] as int == (v / 0x1_0000) % 0x100);
    assert(s[2] as int == (v / 0x100) % 0x100);
    assert(s[3] as int == v % 0x100);
    assert((v / 0x100_0000) * 0x100_0000 + ((v / 0x1_0000) % 0x100) * 0x1_0000 + ((v / 0x100) % 0x100)
        * 0x100 + v % 0x100 == v) by (nonlinear_arith);
}

/// A big-endian number reads back as itself.
pub proof fn lemma_read_be16(v: u16)
    ensures
        be16(v).len() == 2,
        read_be16(be16(v), 0) == v,
{
    let s = be16(v);
    assert(s[0] as int == v / 0x100);
    assert(s[1] as int == v % 0x100);
}

// ---------------------------------------------------------------------------
// Octal numbers
// ---------------------------------------------------------------------------

/// An ASCII octal digit, `'0'..='7'`.
pub open spec fn is_octal_digit(c: u8) -> bool {
    48 <= c <= 55
}

/// The value of a string of octal digits, most significant first; the empty string is 0.
pub open spec fn octal_value(s: Seq<u8>) -> nat
    decreases s.len(),
{
    if s.len() == 0 {
        0
    } else {
        octal_value(s.drop_last()) * 8 + (s.last() - 48) as nat
    }
}

/// The shortest octal spelling of `v`, as `format!("{:o}", v)` gives it.
pub open spec fn octal(v: nat) -> Seq<u8>
    decreases v,
{
    if v < 8 {
        seq![(48 + v) as u8]
    } else {
        octal(v / 8).push((48 + v % 8) as u8)
    }
}

/// `s` without one leading `+`, if it has one.
pub open spec fn without_plus(s: Seq<u8>) -> Seq<u8> {
    if s.len() > 0 && s[0] == 43 {
        s.drop_first()
    } else {
        s
    }
}

/// What parsing `s` as an unsigned 32-bit number in base 8 gives: an optional `+`
/// followed by at least one octal digit, with a value that fits in 32 bits.
pub open spec fn parse_octal_u32(s: Seq<u8>) -> Option<u32> {
    let digits = without_plus(s);
    if digits.len() > 0 && (forall|i: int| 0 <= i < digits.len() ==> is_octal_digit(#[trigger] digits[i]))
        && octal_value(digits) <= u32::MAX {
        Some(octal_value(digits) as u32)
    } else {
        None
    }
}

/// Appending digits never makes an octal value smaller.
proof fn lemma_octal_value_prefix(s: Seq<u8>, k: int)
    requires
        0 <= k <= s.len(),
        forall|i: int| 0 <= i < s.len() ==> is_octal_digit(#[trigger] s[i]),
    ensures
        octal_value(s.take(k)) <= octal_value(s),
    decreases s.len() - k,
{
    if k < s.len() {
        lemma_octal_value_prefix(s, k + 1);
        assert(s.take(k + 1).drop_last() =~= s.take(k));
    } else {
        assert(s.take(k) =~= s);
    }
}

/// The octal spelling of a number is made of digits, starts with a digit and reads back as the number.
pub proof fn lemma_octal_spelling(v: nat)
    ensures
        octal(v).len() >= 1,
        forall|i: int| 0 <= i < octal(v).len() ==> is_octal_digit(#[trigger] octal(v)[i]),
        octal_value(octal(v)) == v,
    decreases v,
{
    if v < 8 {
        let s = octal(v);
        assert(s.drop_last() =~= Seq::<u8>::empty());
        assert(octal_value(s.drop_last()) == 0);
    } else {
        lemma_octal_spelling(v / 8);
        let s = octal(v);
        assert(s.drop_last() =~= octal(v / 8));
        assert(s.last() == 48 + v % 8);
        assert(v == (v / 8) * 8 + v % 8);
        assert(octal_value(s) == octal_value(octal(v / 8)) * 8 + (s.last() - 48) as nat);
        assert forall|i: int| 0 <= i < s.len() implies is_octal_digit(#[trigger] s[i]) by {
            if i < s.len() - 1 {
                assert(s[i] == octal(v / 8)[i]);
            }
        }
    }
}

/// Reading a number back from its octal spelling gives the number.
pub proof fn lemma_parse_octal_of_octal(v: u32)
    ensures
        parse_octal_u32(octal(v as nat)) == Some(v),
{
    lemma_octal_spelling(v as nat);
    let s = octal(v as nat);
    assert(is_octal_digit(s[0]));
}

/// Append the octal spelling of `v` to `out`.
pub fn push_octal(out: &mut Vec<u8>, v: u32)
    ensures
        final(out)@ == old(out)@ + octal(v as nat),
    decreases v,
{
    if v >= 8 {
        push_octal(out, v / 8);
    }
    out.push((48 + v % 8) as u8);
    assert(out@ =~= old(out)@ + octal(v as nat));
}

/// Parse `bytes[start..end]` as an unsigned 32-bit octal number.
#[verifier::spinoff_prover]
pub fn parse_octal_range(bytes: &[u8], start: usize, end: usize) -> (v: Option<u32>)
    requires
        start <= end <= bytes@.len(),
    ensures
        v == parse_octal_u32(bytes@.subrange(start as int, end as int)),
{
    let ghost s = bytes@.subrange(start as int, end as int);
    let mut i = start;
    if i < end && bytes[i] == 43 {
        i = i + 1;
    }
    let ghost digits = bytes@.subrange(i as int, end as int);
    assert(start < end ==> s[0] == bytes@[start as int]);
    assert(digits =~= without_plus(s));
    if i == end {
        return None;
    }
    let d0 = i;
    let mut value: u32 = 0;
    while i < end
        invariant
            d0 <= i <= end <= bytes@.len(),
            digits == bytes@.subrange(d0 as int, end as int),
            digits == without_plus(s),
            digits.len() > 0,
            s == bytes@.subrange(start as int, end as int),
            forall|k: int| 0 <= k < i - d0 ==> is_octal_digit(#[trigger] digits[k]),
            value as nat == octal_value(digits.take(i - d0)),
        decreases end - i,
    {
        let c = bytes[i];
        if c < 48 || c > 55 {
            assert(!is_octal_digit(digits[i - d0]));
            return None;
        }
        assert(digits.take(i - d0 + 1).drop_last() =~= digits.take(i - d0));
        assert(digits.take(i - d0 + 1).last() == c);
        if value > (u32::MAX - (c - 48) as u32) / 8 {
            proof {
                assert(octal_value(digits.take(i - d0 + 1)) > u32::MAX) by (nonlinear_arith)
                    requires
                        octal_value(digits.take(i - d0 + 1)) == value as nat * 8 + (c - 48) as nat,
                        value > (u32::MAX - (c - 48) as u32) / 8,
                        48 <= c <= 55,
                ;
                if forall|k: int| 0 <= k < digits.len() ==> is_octal_digit(#[trigger] digits[k]) {
                    lemma_octal_value_prefix(digits, i - d0 + 1);
                }
            }
            return None;
        }
        value = value * 8 + (c - 48) as u32;
        i = i + 1;
    }
    assert(digits.take(i - d0) =~= digits);
    Some(value)
}

// ---------------------------------------------------------------------------
// Offsets of prefix-compressed paths
// ---------------------------------------------------------------------------

/// The variable-length encoding of `n` that index format 4 uses for the number of
/// bytes to strip from the previous path: seven bits per byte, most significant
/// group first, the high bit set on every byte but the last, and each leading group
/// stored one less than its value so that every number has exactly one spelling.
/// `more` is whether further bytes follow this group.
pub open spec fn offset_bytes(n: nat, more: bool) -> Seq<u8>
    decreases n,
{
    let low = (n % 128) as u8;
    let last = if more { (128 + low) as u8 } else { low };
    if n < 128 {
        seq![last]
    } else {
        offset_bytes((n / 128 - 1) as nat, true).push(last)
    }
}

/// The number that a reader of index format 4 takes from the variable-length
/// offset `s`: the low seven bits of the first byte, and for each further byte the
/// value so far plus one, shifted by seven bits, plus the byte's low seven bits.
pub open spec fn offset_value(s: Seq<u8>) -> nat
    decreases s.len(),
{
    if s.len() <= 1 {
        if s.len() == 1 {
            (s[0] % 128) as nat
        } else {
            0
        }
    } else {
        ((offset_value(s.drop_last()) + 1) * 128 + s.last() % 128) as nat
    }
}

/// A well-framed offset: the high bit is set on every byte but the last one, so a
/// reader knows where it ends.
pub open spec fn offset_framed(s: Seq<u8>) -> bool {
    &&& s.len() >= 1
    &&& s.last() < 128
    &&& forall|i: int| 0 <= i < s.len() - 1 ==> #[trigger] s[i] >= 128
}

/// `s[i]` is the first byte of `s` with the high bit clear.
pub open spec fn first_low_byte(s: Seq<u8>, i: int) -> bool {
    &&& 0 <= i < s.len()
    &&& s[i] < 128
    &&& forall|j: int| 0 <= j < i ==> s[j] >= 128
}

/// How many bytes a reader takes as the variable-length offset at the start of `s`: up to
/// and including the first byte with the high bit clear.
pub open spec fn offset_len(s: Seq<u8>) -> int {
    if exists|i: int| first_low_byte(s, i) {
        (choose|i: int| first_low_byte(s, i)) + 1
    } else {
        s.len() as int
    }
}

/// A reader takes exactly a framed offset from the start of `s`, whatever follows it.
pub proof fn lemma_offset_len_of_framed(o: Seq<u8>, rest: Seq<u8>)
    requires
        offset_framed(o),
    ensures
        offset_len(o + rest) == o.len(),
        (o + rest).take(o.len() as int) == o,
        (o + rest).skip(o.len() as int) == rest,
{
    let s = o + rest;
    let last = o.len() - 1;
    assert(first_low_byte(s, last)) by {
        assert forall|j: int| 0 <= j < last implies s[j] >= 128 by {
            assert(s[j] == o[j]);
        }
    }
    let c = choose|i: int| first_low_byte(s, i);
    if c < last {
        assert(s[c] == o[c]);
    } else if c > last {
        assert(s[last] >= 128);
    }
    assert(s.take(o.len() as int) =~= o);
    assert(s.skip(o.len() as int) =~= rest);
}

/// A variable-length offset reads back as the number it encodes, is framed so that
/// a reader stops at its last byte, and takes at most ten bytes for any `usize`.
pub proof fn lemma_offset_roundtrip(n: nat)
    ensures
        offset_value(offset_bytes(n, false)) == n,
        offset_framed(offset_bytes(n, false)),
        n <= usize::MAX ==> offset_bytes(n, false).len() <= 10,
{
    lemma_offset_parts(n, false);
    if n <= usize::MAX {
        lemma_pow128_bound();
        lemma_offset_len(n, false, 10);
    }
}

proof fn lemma_offset_parts(n: nat, more: bool)
    ensures
        offset_value(offset_bytes(n, more)) == n,
        offset_bytes(n, more).len() >= 1,
        more ==> offset_bytes(n, more).last() >= 128,
        !more ==> offset_bytes(n, more).last() < 128,
        forall|i: int|
            0 <= i < offset_bytes(n, more).len() - 1 ==> #[trigger] offset_bytes(n, more)[i] >= 128,
    decreases n,
{
    let s = offset_bytes(n, more);
    if n >= 128 {
        let m = (n / 128 - 1) as nat;
        lemma_offset_parts(m, true);
        assert(s.drop_last() =~= offset_bytes(m, true));
        assert forall|i: int| 0 <= i < s.len() - 1 implies #[trigger] s[i] >= 128 by {
            assert(s[i] == offset_bytes(m, true)[i]);
        }
    }
}

/// The offset encoding of a number below `128` to the power `k` takes at most `k` bytes, `k >= 1`.
proof fn lemma_offset_len(n: nat, more: bool, k: nat)
    requires
        k >= 1,
        n < pow128(k),
    ensures
        offset_bytes(n, more).len() <= k,
    decreases n,
{
    assert(pow128(0) == 1);
    {
        let p = pow128((k - 1) as nat);
        assert(pow128(k) == 128 * p);
        if n >= 128 {
            let m = (n / 128 - 1) as nat;
            assert(n / 128 < p) by (nonlinear_arith)
                requires
                    n < 128 * p,
            ;
            lemma_offset_len(m, true, (k - 1) as nat);
            assert(offset_bytes(n, more).len() == offset_bytes(m, true).len() + 1);
        } else {
            assert(offset_bytes(n, more).len() == 1);
        }
    }
}

/// `128` to the power `k`.
pub open spec fn pow128(k: nat) -> nat
    decreases k,
{
    if k == 0 {
        1
    } else {
        128 * pow128((k - 1) as nat)
    }
}

proof fn lemma_pow128_bound()
    ensures
        pow128(10) > usize::MAX,
{
    reveal_with_fuel(pow128, 11);
    assert(pow128(10) == 1180591620717411303424nat);
}

/// Append the variable-length offset encoding of `n` to `out`.
pub fn push_offset(out: &mut Vec<u8>, n: usize, more: bool)
    ensures
        final(out)@ == old(out)@ + offset_bytes(n as nat, more),
    decreases n,
{
    if n >= 128 {
        push_offset(out, n / 128 - 1, true);
    }
    let low = (n % 128) as u8;
    if more {
        out.push(128 + low);
    } else {
        out.push(low);
    }
    assert(out@ =~= old(out)@ + offset_bytes(n as nat, more));
}

} // verus!
