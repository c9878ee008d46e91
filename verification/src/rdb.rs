//! The serialized form of values: the format of database dumps, version 7.

use vstd::prelude::*;

use crate::adapters::checksum::{crc64_from, crc64_of};
use crate::assoc::texts;
use crate::number::{decimal_text, decimal_text_numeric, numeric, to_text};
use crate::score::{magnitude, Score, INFINITY, SIGN};

verus! {

/// The version of the format.
pub const VERSION: u8 = 7;

/// The type byte of a string.
pub const TYPE_STRING: u8 = 0;

/// The type byte of a list.
pub const TYPE_LIST: u8 = 1;

/// The type byte of a set.
pub const TYPE_SET: u8 = 2;

/// The type byte of a sorted set.
pub const TYPE_ZSET: u8 = 3;

/// The type byte of a set of integers.
pub const TYPE_SET_INTSET: u8 = 11;

/// The lowest bytes of a number in two's complement, the lowest first.
pub open spec fn le_bytes(n: int, width: nat) -> Seq<u8>
    decreases width,
{
    if width == 0 {
        Seq::empty()
    } else {
        seq![(n % 256) as u8] + le_bytes(n / 256, (width - 1) as nat)
    }
}

/// As many bytes come as are asked for.
pub proof fn lemma_le_bytes_len(n: int, width: nat)
    ensures
        le_bytes(n, width).len() == width,
    decreases width,
{
    if width > 0 {
        lemma_le_bytes_len(n / 256, (width - 1) as nat);
    }
}

/// Writes the lowest bytes of a number, the lowest first.
pub fn push_le(out: &mut Vec<u8>, n: i128, width: usize)
    ensures
        final(out)@ == old(out)@ + le_bytes(n as int, width as nat),
{
    let mut rest: i128 = n;
    let mut left: usize = width;
    let ghost start = out@;
    proof {
        assert(start + le_bytes(n as int, width as nat) =~= out@ + le_bytes(rest as int, left as nat));
    }
    while left > 0
        invariant
            start + le_bytes(n as int, width as nat) == out@ + le_bytes(rest as int, left as nat),
        decreases left,
    {
        let ghost before = out@;
        let ghost before_rest = rest;
        if rest >= 0 {
            out.push((rest % 256) as u8);
            rest = rest / 256;
        } else {
            let flipped: i128 = -1 - rest;
            out.push(255 - (flipped % 256) as u8);
            rest = -1 - flipped / 256;
        }
        left -= 1;
        proof {
            assert(out@ =~= before.push((before_rest as int % 256) as u8));
            assert(rest as int == before_rest as int / 256);
            assert(before + le_bytes(before_rest as int, (left + 1) as nat) =~= out@ + le_bytes(rest as int, left as nat));
        }
    }
    proof {
        assert(out@ + le_bytes(rest as int, 0) =~= out@);
    }
}

/// Whether a length can be written.
pub open spec fn length_fits(n: nat) -> bool {
    n < 0x1_0000_0000
}

/// A length in one, two or five bytes. The two highest bits of the first byte
/// tell which.
pub open spec fn length_code(n: nat) -> Seq<u8> {
    if n < 64 {
        seq![n as u8]
    } else if n < 16384 {
        seq![(64 + n / 256) as u8, (n % 256) as u8]
    } else {
        seq![
            128u8,
            (n / 0x100_0000) as u8,
            (n / 0x1_0000 % 256) as u8,
            (n / 0x100 % 256) as u8,
            (n % 256) as u8,
        ]
    }
}

/// Writes a length. Returns whether it can be written.
pub fn push_length(out: &mut Vec<u8>, n: usize) -> (r: bool)
    ensures
        r == length_fits(n as nat),
        r ==> final(out)@ == old(out)@ + length_code(n as nat),
        !r ==> final(out)@ == old(out)@,
{
    let n64: u64 = n as u64;
    if n64 < 64 {
        out.push(n64 as u8);
        proof {
            assert(out@ =~= old(out)@ + length_code(n as nat));
        }
        true
    } else if n64 < 16384 {
        out.push((64 + n64 / 256) as u8);
        out.push((n64 % 256) as u8);
        proof {
            assert(out@ =~= old(out)@ + length_code(n as nat));
        }
        true
    } else if n64 < 0x1_0000_0000 {
        out.push(128);
        out.push((n64 / 0x100_0000) as u8);
        out.push((n64 / 0x1_0000 % 256) as u8);
        out.push((n64 / 0x100 % 256) as u8);
        out.push((n64 % 256) as u8);
        proof {
            assert(out@ =~= old(out)@ + length_code(n as nat));
        }
        true
    } else {
        false
    }
}

/// A byte string: its length and its bytes.
pub open spec fn slice_code(s: Seq<u8>) -> Seq<u8> {
    length_code(s.len()) + s
}

/// Writes a byte string. Returns whether its length can be written.
pub fn push_slice(out: &mut Vec<u8>, s: &Vec<u8>) -> (r: bool)
    ensures
        r == length_fits(s@.len()),
        r ==> final(out)@ == old(out)@ + slice_code(s@),
        !r ==> final(out)@ == old(out)@,
{
    if !push_length(out, s.len()) {
        return false;
    }
    let ghost head = out@;
    out.extend_from_slice(s.as_slice());
    proof {
        assert(out@ =~= head + s@);
        assert(out@ =~= old(out)@ + slice_code(s@));
    }
    true
}

/// Byte strings, one after the other.
pub open spec fn slices_code(items: Seq<Seq<u8>>) -> Seq<u8>
    decreases items.len(),
{
    if items.len() == 0 {
        Seq::empty()
    } else {
        slices_code(items.drop_last()) + slice_code(items.last())
    }
}

/// Whether the lengths of all the byte strings, and their number, can be
/// written.
pub open spec fn slices_fit(items: Seq<Seq<u8>>) -> bool {
    &&& length_fits(items.len())
    &&& forall|i: int| 0 <= i < items.len() ==> length_fits(#[trigger] items[i].len())
}

/// Writes how many byte strings there are and then each of them. Returns
/// whether all the lengths can be written.
pub fn push_slices(out: &mut Vec<u8>, items: &Vec<Vec<u8>>) -> (r: bool)
    ensures
        r == slices_fit(texts(items@)),
        r ==> final(out)@ == old(out)@ + length_code(items@.len()) + slices_code(texts(items@)),
        !r ==> final(out)@ == old(out)@,
{
    let before: usize = out.len();
    let ghost start = out@;
    let ghost all = texts(items@);
    if !push_length(out, items.len()) {
        return false;
    }
    let ghost head = out@;
    let mut i: usize = 0;
    proof {
        assert(head.take(before as int) =~= start);
        assert(out@ =~= head + slices_code(all.take(0)));
    }
    while i < items.len()
        invariant
            i <= items.len(),
            all == texts(items@),
            start == old(out)@,
            before == start.len() <= head.len(),
            head.take(before as int) == start,
            out@ == head + slices_code(all.take(i as int)),
            forall|j: int| 0 <= j < i ==> length_fits(#[trigger] all[j].len()),
        decreases items.len() - i,
    {
        if !push_slice(out, &items[i]) {
            proof {
                assert(!length_fits(all[i as int].len()));
            }
            out.truncate(before);
            proof {
                assert(out@ =~= start);
            }
            return false;
        }
        i += 1;
        proof {
            assert(all.take(i as int).drop_last() =~= all.take(i - 1));
            assert(out@ =~= head + slices_code(all.take(i as int)));
        }
    }
    proof {
        assert(all.take(i as int) =~= all);
    }
    true
}

/// Whether a score can be written.
pub open spec fn score_fits(s: Score) -> bool {
    magnitude(s.bits) == INFINITY || s.text@.len() <= 252
}

/// A score: one byte for an infinite one, else the length of its text in one
/// byte and the text.
pub open spec fn score_code(s: Score) -> Seq<u8> {
    if s.bits == INFINITY {
        seq![254u8]
    } else if magnitude(s.bits) == INFINITY {
        seq![255u8]
    } else {
        seq![s.text@.len() as u8] + s.text@
    }
}

/// Writes a score. Returns whether it can be written.
pub fn push_score(out: &mut Vec<u8>, s: &Score) -> (r: bool)
    ensures
        r == score_fits(*s),
        r ==> final(out)@ == old(out)@ + score_code(*s),
        !r ==> final(out)@ == old(out)@,
{
    let ghost start = out@;
    if s.bits == INFINITY {
        out.push(254);
        proof {
            assert(out@ =~= start + score_code(*s));
        }
        true
    } else if s.bits >= SIGN && s.bits - SIGN == INFINITY {
        out.push(255);
        proof {
            assert(out@ =~= start + score_code(*s));
        }
        true
    } else if s.text.len() <= 252 {
        out.push(s.text.len() as u8);
        out.extend_from_slice(s.text.as_slice());
        proof {
            assert(out@ =~= start + score_code(*s));
        }
        true
    } else {
        false
    }
}

/// The number of bytes that each of the numbers is written in: the smallest of
/// two, four and eight that is enough for all.
pub open spec fn ints_width(items: Seq<i64>) -> nat {
    if forall|i: int| 0 <= i < items.len() ==> -0x8000 <= #[trigger] items[i] < 0x8000 {
        2
    } else if forall|i: int| 0 <= i < items.len() ==> -0x8000_0000 <= #[trigger] items[i] < 0x8000_0000 {
        4
    } else {
        8
    }
}

/// Numbers, one after the other, each in as many bytes.
pub open spec fn ints_code(items: Seq<i64>, width: nat) -> Seq<u8>
    decreases items.len(),
{
    if items.len() == 0 {
        Seq::empty()
    } else {
        ints_code(items.drop_last(), width) + le_bytes(items.last() as int, width)
    }
}

/// A set of numbers: the width in which they are written, how many there are,
/// and the numbers.
pub open spec fn intset_code(items: Seq<i64>) -> Seq<u8> {
    le_bytes(ints_width(items) as int, 4) + le_bytes(items.len() as int, 4) + ints_code(items, ints_width(items))
}

/// A set of numbers as a string of bytes.
pub fn intset_bytes(items: &Vec<i64>) -> (r: Vec<u8>)
    ensures
        r@ == intset_code(items@),
{
    let mut width: usize = 2;
    let mut i: usize = 0;
    while i < items.len()
        invariant
            i <= items.len(),
            width == ints_width(items@.take(i as int)),
        decreases items.len() - i,
    {
        let n: i64 = items[i];
        let ghost before = items@.take(i as int);
        let ghost after = items@.take(i + 1);
        if !(-0x8000_0000 <= n && n < 0x8000_0000) {
            width = 8;
        } else if width == 2 && !(-0x8000 <= n && n < 0x8000) {
            width = 4;
        }
        proof {
            assert(after =~= before.push(n));
            assert(after[i as int] == n);
            assert forall|k: int| 0 <= k < before.len() implies after[k] == #[trigger] before[k] by {}
        }
        i += 1;
    }
    proof {
        assert(items@.take(i as int) =~= items@);
    }
    let mut r: Vec<u8> = Vec::new();
    push_le(&mut r, width as i128, 4);
    push_le(&mut r, items.len() as i128, 4);
    let ghost head = r@;
    i = 0;
    proof {
        assert(r@ =~= head + ints_code(items@.take(0), width as nat));
    }
    while i < items.len()
        invariant
            i <= items.len(),
            r@ == head + ints_code(items@.take(i as int), width as nat),
        decreases items.len() - i,
    {
        push_le(&mut r, items[i] as i128, width);
        i += 1;
        proof {
            assert(items@.take(i as int).drop_last() =~= items@.take(i - 1));
            assert(r@ =~= head + ints_code(items@.take(i as int), width as nat));
        }
    }
    proof {
        assert(items@.take(i as int) =~= items@);
        assert(r@ =~= intset_code(items@));
    }
    r
}

/// A number as a string: in one, two or four bytes if it fits, else as its
/// text.
pub open spec fn integer_code(n: int) -> Seq<u8> {
    if -0x80 <= n < 0x80 {
        seq![0xc0u8] + le_bytes(n, 1)
    } else if -0x8000 <= n < 0x8000 {
        seq![0xc1u8] + le_bytes(n, 2)
    } else if -0x8000_0000 <= n < 0x8000_0000 {
        seq![0xc2u8] + le_bytes(n, 4)
    } else {
        slice_code(decimal_text(n))
    }
}

/// A number has at most as many digits as its limit allows for.
pub proof fn lemma_digits_len(n: int, limit: int, most: nat)
    requires
        0 <= n,
        limit == vstd::arithmetic::power::pow(10, most),
        n < limit,
        most > 0,
    ensures
        crate::number::digits_of(n).len() <= most,
    decreases most,
{
    if n >= 10 {
        vstd::arithmetic::power::lemma_pow1(10);
        if most == 1 {
            assert(limit == 10);
        } else {
            reveal(vstd::arithmetic::power::pow);
            assert(limit == 10 * vstd::arithmetic::power::pow(10, (most - 1) as nat));
            lemma_digits_len(n / 10, limit / 10, (most - 1) as nat);
        }
    }
}

/// Writes a number as a string.
pub fn push_integer(out: &mut Vec<u8>, n: i64)
    ensures
        final(out)@ == old(out)@ + integer_code(n as int),
{
    if -0x80 <= n && n < 0x80 {
        out.push(0xc0);
        push_le(out, n as i128, 1);
        proof {
            assert(out@ =~= old(out)@ + integer_code(n as int));
        }
    } else if -0x8000 <= n && n < 0x8000 {
        out.push(0xc1);
        push_le(out, n as i128, 2);
        proof {
            assert(out@ =~= old(out)@ + integer_code(n as int));
        }
    } else if -0x8000_0000 <= n && n < 0x8000_0000 {
        out.push(0xc2);
        push_le(out, n as i128, 4);
        proof {
            assert(out@ =~= old(out)@ + integer_code(n as int));
        }
    } else {
        let text = to_text(n);
        proof {
            assert(vstd::arithmetic::power::pow(10, 20) == 100_000_000_000_000_000_000int) by {
                reveal_with_fuel(vstd::arithmetic::power::pow, 21);
            }
            let m = if n < 0 { -(n as int) } else { n as int };
            lemma_digits_len(m, 100_000_000_000_000_000_000int, 20);
        }
        push_slice(out, &text);
    }
}

/// What a serialized value ends with, after its type and content: the version
/// of the format.
pub open spec fn versioned(s: Seq<u8>) -> Seq<u8> {
    s + seq![VERSION, 0u8]
}

/// Writes the version of the format.
pub fn push_version(out: &mut Vec<u8>)
    ensures
        final(out)@ == versioned(old(out)@),
{
    out.push(VERSION);
    out.push(0);
    proof {
        assert(out@ =~= versioned(old(out)@));
    }
}

/// A serialized value with a checksum after it.
pub open spec fn sealed(data: Seq<u8>, crc: u64) -> Seq<u8> {
    data + le_bytes(crc as int, 8)
}

/// Appends a serialized value and the given checksum. Returns how many bytes
/// that is.
pub fn seal(out: &mut Vec<u8>, data: &Vec<u8>, crc: u64) -> (r: usize)
    ensures
        final(out)@ == old(out)@ + sealed(data@, crc),
        r == sealed(data@, crc).len(),
{
    let before: usize = out.len();
    let ghost start = out@;
    out.extend_from_slice(data.as_slice());
    proof {
        assert(out@ =~= start + data@);
        lemma_le_bytes_len(crc as int, 8);
    }
    push_le(out, crc as i128, 8);
    proof {
        assert(out@ =~= start + sealed(data@, crc));
    }
    out.len() - before
}

/// Appends a serialized value and its checksum. Returns how many bytes that is.
pub fn seal_with_checksum(out: &mut Vec<u8>, data: &Vec<u8>) -> (r: usize)
    ensures
        final(out)@ == old(out)@ + sealed(data@, crc64_of(0, data@)),
        r == sealed(data@, crc64_of(0, data@)).len(),
{
    let crc: u64 = crc64_from(0, data);
    seal(out, data, crc)
}

/// The lowest bytes of a number are its digits to the base of 256, the lowest
/// first. Those that a number needs give it back as two's complement.
pub proof fn le_bytes_decode(n: int)
    ensures
        le_bytes(n, 1).len() == 1,
        le_bytes(n, 2).len() == 2,
        le_bytes(n, 4).len() == 4,
        le_bytes(n, 8).len() == 8,
        -0x80 <= n < 0x80 ==> n == {
            let b = le_bytes(n, 1);
            b[0] - if b[0] >= 0x80 { 0x100int } else { 0 }
        },
        -0x8000 <= n < 0x8000 ==> n == {
            let b = le_bytes(n, 2);
            b[0] + 0x100 * b[1] - if b[1] >= 0x80 { 0x1_0000int } else { 0 }
        },
        -0x8000_0000 <= n < 0x8000_0000 ==> n == {
            let b = le_bytes(n, 4);
            b[0] + 0x100 * b[1] + 0x1_0000 * b[2] + 0x100_0000 * b[3] - if b[3] >= 0x80 { 0x1_0000_0000int } else { 0 }
        },
        0 <= n < 0x1_0000_0000 ==> n == {
            let b = le_bytes(n, 4);
            b[0] + 0x100 * b[1] + 0x1_0000 * b[2] + 0x100_0000 * b[3]
        },
        i64::MIN <= n <= i64::MAX ==> n == {
            let b = le_bytes(n, 8);
            b[0] + 0x100 * b[1] + 0x1_0000 * b[2] + 0x100_0000 * b[3] + 0x1_0000_0000 * b[4] + 0x100_0000_0000 * b[5]
                + 0x1_0000_0000_0000 * b[6] + 0x100_0000_0000_0000 * b[7] - if b[7] >= 0x80 { 0x1_0000_0000_0000_0000int } else { 0 }
        },
        0 <= n <= u64::MAX ==> n == {
            let b = le_bytes(n, 8);
            b[0] + 0x100 * b[1] + 0x1_0000 * b[2] + 0x100_0000 * b[3] + 0x1_0000_0000 * b[4] + 0x100_0000_0000 * b[5]
                + 0x1_0000_0000_0000 * b[6] + 0x100_0000_0000_0000 * b[7]
        },
{
    let n1 = n / 256;
    let n2 = n1 / 256;
    let n3 = n2 / 256;
    let n4 = n3 / 256;
    let n5 = n4 / 256;
    let n6 = n5 / 256;
    let n7 = n6 / 256;
    lemma_le_bytes_len(n, 1);
    lemma_le_bytes_len(n, 2);
    lemma_le_bytes_len(n, 4);
    lemma_le_bytes_len(n, 8);
    assert(le_bytes(n, 1) =~= seq![(n % 256) as u8]) by {
        reveal_with_fuel(le_bytes, 2);
    }
    assert(le_bytes(n, 2) =~= seq![(n % 256) as u8, (n1 % 256) as u8]) by {
        reveal_with_fuel(le_bytes, 3);
    }
    assert(le_bytes(n4, 4) =~= seq![(n4 % 256) as u8, (n5 % 256) as u8, (n6 % 256) as u8, (n7 % 256) as u8]) by {
        reveal_with_fuel(le_bytes, 5);
    }
    assert(le_bytes(n, 4) =~= seq![(n % 256) as u8, (n1 % 256) as u8, (n2 % 256) as u8, (n3 % 256) as u8]) by {
        reveal_with_fuel(le_bytes, 5);
    }
    assert(le_bytes(n, 8) =~= seq![(n % 256) as u8, (n1 % 256) as u8, (n2 % 256) as u8, (n3 % 256) as u8] + le_bytes(n4, 4)) by {
        reveal_with_fuel(le_bytes, 5);
    }
}

/// Lengths up to the largest of four bytes can be written.
pub proof fn length_limit(n: nat)
    ensures
        length_fits(n) <==> n <= 0xffff_ffff,
{
}

/// A length is read back from its bytes: the two highest bits of the first tell
/// whether the rest of that byte is the length, or that and one more byte, or
/// four more bytes. The shortest form that is enough is taken.
pub proof fn length_decode(n: nat)
    requires
        n <= 0xffff_ffff,
    ensures
        ({
            let b = length_code(n);
            &&& b.len() == 1 || b.len() == 2 || b.len() == 5
            &&& b.len() == 1 <==> b[0] as int / 64 == 0
            &&& b.len() == 2 <==> b[0] as int / 64 == 1
            &&& b.len() == 5 <==> b[0] == 128
            &&& b.len() == 1 ==> n == b[0]
            &&& b.len() == 2 ==> n == (b[0] as int % 64) * 0x100 + b[1]
            &&& b.len() == 5 ==> n == b[1] * 0x100_0000 + b[2] * 0x1_0000 + b[3] * 0x100 + b[4]
            &&& b.len() == 1 <==> n < 0x40
            &&& b.len() == 5 <==> n >= 0x4000
        }),
{
}

/// A written byte string ends with its bytes, and in front of them stands how
/// many there are.
pub proof fn slice_layout(s: Seq<u8>)
    ensures
        slice_code(s).len() == length_code(s.len()).len() + s.len(),
        slice_code(s).take(length_code(s.len()).len() as int) == length_code(s.len()),
        slice_code(s).skip(length_code(s.len()).len() as int) == s,
{
    assert(slice_code(s).take(length_code(s.len()).len() as int) =~= length_code(s.len()));
    assert(slice_code(s).skip(length_code(s.len()).len() as int) =~= s);
}

/// Written byte strings follow each other in their order.
pub proof fn slices_by_parts(a: Seq<Seq<u8>>, b: Seq<Seq<u8>>, s: Seq<u8>)
    ensures
        slices_code(Seq::empty()) == Seq::<u8>::empty(),
        slices_code(seq![s]) == slice_code(s),
        slices_code(a + b) == slices_code(a) + slices_code(b),
    decreases b.len(),
{
    reveal_with_fuel(slices_code, 2);
    assert(seq![s].drop_last() =~= Seq::<Seq<u8>>::empty());
    assert(slices_code(seq![s]) =~= slice_code(s));
    if b.len() == 0 {
        assert(a + b =~= a);
        assert(slices_code(a) + slices_code(b) =~= slices_code(a));
    } else {
        assert((a + b).drop_last() =~= a + b.drop_last());
        slices_by_parts(a, b.drop_last(), s);
        assert(slices_code(a + b) =~= slices_code(a) + slices_code(b));
    }
}

/// Byte strings can be written if neither there are too many nor one is too
/// long.
pub proof fn slices_limit(items: Seq<Seq<u8>>)
    ensures
        slices_fit(items) <==> items.len() <= 0xffff_ffff && forall|i: int|
            0 <= i < items.len() ==> #[trigger] items[i].len() <= 0xffff_ffff,
{
    if items.len() <= 0xffff_ffff && (forall|i: int| 0 <= i < items.len() ==> #[trigger] items[i].len() <= 0xffff_ffff) {
        assert forall|i: int| 0 <= i < items.len() implies length_fits(#[trigger] items[i].len()) by {}
    }
}

/// A written score is one byte for an infinite one. Else it is a text with its
/// length in one byte, which no infinite one has.
pub proof fn score_layout(s: Score)
    ensures
        s.bits == 0x7ff0_0000_0000_0000 ==> score_code(s) == seq![254u8],
        s.bits == 0xfff0_0000_0000_0000 ==> score_code(s) == seq![255u8],
        s.bits != 0x7ff0_0000_0000_0000 && s.bits != 0xfff0_0000_0000_0000 && s.text@.len() < 253 ==> {
            &&& score_code(s).len() == 1 + s.text@.len()
            &&& score_code(s)[0] == s.text@.len()
            &&& score_code(s).skip(1) == s.text@
        },
        score_fits(s) <==> s.bits == 0x7ff0_0000_0000_0000 || s.bits == 0xfff0_0000_0000_0000 || s.text@.len() < 253,
{
    if s.text@.len() < 253 {
        assert((seq![s.text@.len() as u8] + s.text@).skip(1) =~= s.text@);
    }
}

/// The width of numbers is enough for all of them, and no smaller one is.
pub proof fn width_smallest(items: Seq<i64>)
    ensures
        ints_width(items) == 2 || ints_width(items) == 4 || ints_width(items) == 8,
        ints_width(items) == 2 <==> forall|i: int| 0 <= i < items.len() ==> -32768 <= #[trigger] items[i] <= 32767,
        ints_width(items) == 8 <==> exists|i: int|
            0 <= i < items.len() && !(-2147483648 <= #[trigger] items[i] <= 2147483647),
{
    if exists|i: int| 0 <= i < items.len() && !(-2147483648 <= #[trigger] items[i] <= 2147483647) {
        let i = choose|i: int| 0 <= i < items.len() && !(-2147483648 <= #[trigger] items[i] <= 2147483647);
        assert(!(-0x8000_0000 <= items[i] < 0x8000_0000));
        assert(!(-0x8000 <= items[i] < 0x8000));
    }
}

/// Written numbers follow each other in their order, all in as many bytes.
pub proof fn ints_by_parts(a: Seq<i64>, b: Seq<i64>, n: i64, width: nat)
    ensures
        ints_code(Seq::empty(), width) == Seq::<u8>::empty(),
        ints_code(seq![n], width) == le_bytes(n as int, width),
        ints_code(a + b, width) == ints_code(a, width) + ints_code(b, width),
    decreases b.len(),
{
    reveal_with_fuel(ints_code, 2);
    assert(seq![n].drop_last() =~= Seq::<i64>::empty());
    assert(ints_code(seq![n], width) =~= le_bytes(n as int, width));
    if b.len() == 0 {
        assert(a + b =~= a);
        assert(ints_code(a, width) + ints_code(b, width) =~= ints_code(a, width));
    } else {
        assert((a + b).drop_last() =~= a + b.drop_last());
        ints_by_parts(a, b.drop_last(), n, width);
        assert(ints_code(a + b, width) =~= ints_code(a, width) + ints_code(b, width));
    }
}

/// A written set of numbers begins with the width and the count, each in four
/// bytes, the lowest first, and ends with the numbers.
pub proof fn intset_layout(items: Seq<i64>)
    requires
        items.len() <= 0xffff_ffff,
    ensures
        ({
            let b = intset_code(items);
            &&& b.len() >= 8
            &&& b[0] == ints_width(items)
            &&& b[1] == 0 && b[2] == 0 && b[3] == 0
            &&& items.len() == b[4] + 0x100 * b[5] + 0x1_0000 * b[6] + 0x100_0000 * b[7]
            &&& b.skip(8) == ints_code(items, ints_width(items))
        }),
{
    let width = ints_width(items) as int;
    let count = items.len() as int;
    le_bytes_decode(width);
    le_bytes_decode(count);
    let b = intset_code(items);
    assert(b.subrange(0, 4) =~= le_bytes(width, 4));
    assert(b.subrange(4, 8) =~= le_bytes(count, 4));
    assert forall|i: int| 0 <= i < 4 implies b[i] == #[trigger] le_bytes(width, 4)[i] && b[i + 4] == le_bytes(count, 4)[i] by {
        assert(b[i] == b.subrange(0, 4)[i]);
        assert(b[i + 4] == b.subrange(4, 8)[i]);
    }
    assert(le_bytes(width, 4) =~= seq![width as u8, 0u8, 0u8, 0u8]) by {
        reveal_with_fuel(le_bytes, 5);
    }
    assert(b[4] == le_bytes(count, 4)[0]);
    assert(b[5] == le_bytes(count, 4)[1]);
    assert(b[6] == le_bytes(count, 4)[2]);
    assert(b[7] == le_bytes(count, 4)[3]);
    assert(b.skip(8) =~= ints_code(items, ints_width(items)));
}

/// A number that is written as a string is read back from its bytes. The first
/// byte tells the form: one, two or four bytes in two's complement, the lowest
/// first, or a text that stands for the number. The shortest form is taken.
pub proof fn integer_decode(n: i64)
    ensures
        ({
            let b = integer_code(n as int);
            &&& b.len() > 0
            &&& b[0] == 0xc0 || b[0] == 0xc1 || b[0] == 0xc2 || b[0] < 0x40
            &&& b[0] == 0xc0 ==> b.len() == 2 && n == b[1] - if b[1] >= 0x80 { 0x100int } else { 0 }
            &&& b[0] == 0xc1 ==> b.len() == 3 && n == b[1] + 0x100 * b[2] - if b[2] >= 0x80 { 0x1_0000int } else { 0 }
            &&& b[0] == 0xc2 ==> b.len() == 5 && n == b[1] + 0x100 * b[2] + 0x1_0000 * b[3] + 0x100_0000 * b[4]
                - if b[4] >= 0x80 { 0x1_0000_0000int } else { 0 }
            &&& b[0] < 0x40 ==> b[0] == b.len() - 1 && b.skip(1) == decimal_text(n as int) && numeric(b.skip(1)) == Some(n as int)
            &&& b[0] == 0xc0 <==> -128 <= n <= 127
            &&& b[0] == 0xc0 || b[0] == 0xc1 <==> -32768 <= n <= 32767
            &&& b[0] == 0xc0 || b[0] == 0xc1 || b[0] == 0xc2 <==> -2147483648 <= n <= 2147483647
        }),
{
    le_bytes_decode(n as int);
    let b = integer_code(n as int);
    if -0x80 <= n < 0x80 {
        assert(b.skip(1) =~= le_bytes(n as int, 1));
        assert(b[1] == b.skip(1)[0]);
    } else if -0x8000 <= n < 0x8000 {
        assert(b.skip(1) =~= le_bytes(n as int, 2));
        assert(b[1] == b.skip(1)[0] && b[2] == b.skip(1)[1]);
    } else if -0x8000_0000 <= n < 0x8000_0000 {
        assert(b.skip(1) =~= le_bytes(n as int, 4));
        assert(b[1] == b.skip(1)[0] && b[2] == b.skip(1)[1] && b[3] == b.skip(1)[2] && b[4] == b.skip(1)[3]);
    } else {
        let text = decimal_text(n as int);
        assert(vstd::arithmetic::power::pow(10, 20) == 100_000_000_000_000_000_000int) by {
            reveal_with_fuel(vstd::arithmetic::power::pow, 21);
        }
        let m = if n < 0 { -(n as int) } else { n as int };
        lemma_digits_len(m, 100_000_000_000_000_000_000int, 20);
        assert(text.len() <= 21);
        slice_layout(text);
        assert(b.skip(1) =~= text);
        decimal_text_numeric(n as int);
    }
}

/// No two numbers are written alike.
pub proof fn integer_injective(a: i64, b: i64)
    requires
        integer_code(a as int) == integer_code(b as int),
    ensures
        a == b,
{
    integer_decode(a);
    integer_decode(b);
}

/// The version stands behind the content in two bytes.
pub proof fn version_layout(s: Seq<u8>)
    ensures
        versioned(s) == s + seq![7u8, 0u8],
{
}

/// The checksum stands behind a serialized value in eight bytes, the lowest
/// first.
pub proof fn seal_layout(data: Seq<u8>, crc: u64)
    ensures
        ({
            let b = sealed(data, crc);
            let c = b.skip(data.len() as int);
            &&& b.len() == data.len() + 8
            &&& b.take(data.len() as int) == data
            &&& crc == c[0] + 0x100 * c[1] + 0x1_0000 * c[2] + 0x100_0000 * c[3] + 0x1_0000_0000 * c[4] + 0x100_0000_0000 * c[5]
                + 0x1_0000_0000_0000 * c[6] + 0x100_0000_0000_0000 * c[7]
        }),
{
    le_bytes_decode(crc as int);
    let b = sealed(data, crc);
    assert(b.take(data.len() as int) =~= data);
    assert(b.skip(data.len() as int) =~= le_bytes(crc as int, 8));
}

} // verus!
