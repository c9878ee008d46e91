//! Strings: byte strings, of which those that are the text of a number are
//! kept as the number.

use vstd::arithmetic::power2::{lemma2_to64, pow2};
use vstd::prelude::*;

use crate::dbutil::{between, bounds, first_index, lemma_between};
use crate::error::OperationError;
use crate::lex::copy;
use crate::number::{decimal_text, number_of_text, numeric, parse_i64, to_text};
use crate::rdb::{integer_code, length_fits, push_integer, push_slice, push_version, slice_code, versioned, TYPE_STRING};

verus! {

/// A string: a number that stands for its decimal text, or bytes.
#[derive(PartialEq, Debug)]
pub enum ValueString {
    Integer(i64),
    Data(Vec<u8>),
}

/// The bytes, filled up with null bytes to a length.
pub open spec fn padded(s: Seq<u8>, len: int) -> Seq<u8> {
    if s.len() < len {
        s + Seq::new((len - s.len()) as nat, |i: int| 0u8)
    } else {
        s
    }
}

/// The bytes with some of them replaced by data that begins at an index.
pub open spec fn overwritten(s: Seq<u8>, at: int, data: Seq<u8>) -> Seq<u8> {
    let room = padded(s, at + data.len());
    room.take(at) + data + room.skip(at + data.len() as int)
}

/// The bit of a byte that has the given place, where place 0 is the highest.
pub open spec fn byte_bit(byte: u8, place: int) -> bool {
    byte & (0x80u8 >> (place as u8)) != 0
}

/// The byte with the bit at the given place turned on or off.
pub open spec fn byte_with_bit(byte: u8, place: int, on: bool) -> u8 {
    if on {
        byte | (0x80u8 >> (place as u8))
    } else {
        byte & !(0x80u8 >> (place as u8))
    }
}

/// The bit at an offset. Bits past the end are off.
pub open spec fn bit_at(s: Seq<u8>, offset: int) -> bool {
    offset / 8 < s.len() && byte_bit(s[offset / 8], offset % 8)
}

/// The bytes with the bit at an offset turned on or off.
pub open spec fn with_bit(s: Seq<u8>, offset: int, on: bool) -> Seq<u8> {
    let room = padded(s, offset / 8 + 1);
    room.update(offset / 8, byte_with_bit(room[offset / 8], offset % 8, on))
}

/// Turning a bit on or off in a byte changes that bit alone.
pub proof fn lemma_byte_with_bit(byte: u8, place: int, on: bool, other: int)
    requires
        0 <= place < 8,
        0 <= other < 8,
    ensures
        byte_bit(byte_with_bit(byte, place, on), other) == if other == place {
            on
        } else {
            byte_bit(byte, other)
        },
{
    let p = place as u8;
    let q = other as u8;
    assert(p < 8 && q < 8 ==> ((byte | (0x80u8 >> p)) & (0x80u8 >> q) != 0) == (p == q || byte & (0x80u8 >> q) != 0))
        by (bit_vector);
    assert(p < 8 && q < 8 ==> ((byte & !(0x80u8 >> p)) & (0x80u8 >> q) != 0) == (p != q && byte & (0x80u8 >> q) != 0))
        by (bit_vector);
}

/// A bit that was turned on or off reads so, and every other bit as before.
pub proof fn with_bit_then_bit_at(s: Seq<u8>, offset: int, on: bool, other: int)
    requires
        offset >= 0,
        other >= 0,
    ensures
        bit_at(with_bit(s, offset, on), other) == if other == offset {
            on
        } else {
            bit_at(s, other)
        },
{
    let room = padded(s, offset / 8 + 1);
    assert(byte_bit(0u8, other % 8) == false) by {
        let q = (other % 8) as u8;
        assert(0u8 & (0x80u8 >> q) == 0) by (bit_vector);
    }
    if other / 8 == offset / 8 {
        lemma_byte_with_bit(room[offset / 8], offset % 8, on, other % 8);
    }
}

/// Turning a bit on or off keeps the length, or makes it just enough.
pub proof fn with_bit_len(s: Seq<u8>, offset: int, on: bool)
    requires
        offset >= 0,
    ensures
        with_bit(s, offset, on).len() == if offset / 8 < s.len() {
            s.len() as int
        } else {
            offset / 8 + 1
        },
{
}

/// What was written over a string can be read from there, all before it and
/// after it is as it was, and what was filled up is null.
pub proof fn overwritten_then_read(s: Seq<u8>, at: int, data: Seq<u8>)
    requires
        at >= 0,
    ensures
        overwritten(s, at, data).len() == if at + data.len() < s.len() {
            s.len() as int
        } else {
            at + data.len()
        },
        overwritten(s, at, data).subrange(at, at + data.len()) == data,
        forall|i: int|
            0 <= i < overwritten(s, at, data).len() && !(at <= i < at + data.len()) ==> #[trigger] overwritten(
                s,
                at,
                data,
            )[i] == if i < s.len() {
                s[i]
            } else {
                0u8
            },
{
    assert(overwritten(s, at, data).subrange(at, at + data.len()) =~= data);
}

/// Fills up the bytes with null bytes to a length.
fn pad(d: &mut Vec<u8>, len: usize)
    ensures
        final(d)@ == padded(old(d)@, len as int),
{
    let ghost before = d@;
    while d.len() < len
        invariant
            d.len() < len ==> padded(d@, len as int) == padded(before, len as int),
            d.len() >= len ==> d@ == padded(before, len as int),
        decreases len - d.len(),
    {
        let ghost now = d@;
        d.push(0);
        proof {
            assert(padded(d@, len as int) =~= padded(now, len as int));
        }
    }
}

impl View for ValueString {
    type V = Seq<u8>;

    open spec fn view(&self) -> Seq<u8> {
        match self {
            ValueString::Integer(n) => decimal_text(*n as int),
            ValueString::Data(d) => d@,
        }
    }
}

impl ValueString {
    /// The serialized string. There is none if its length cannot be written.
    pub open spec fn serialized(&self) -> Option<Seq<u8>> {
        match self {
            ValueString::Integer(n) => Some(versioned(seq![TYPE_STRING] + integer_code(*n as int))),
            ValueString::Data(d) => if length_fits(d@.len()) {
                Some(versioned(seq![TYPE_STRING] + slice_code(d@)))
            } else {
                None
            },
        }
    }

    /// The string of the given bytes. It is kept as a number if the bytes are
    /// the text that stands for it.
    pub fn new(newvalue: Vec<u8>) -> (r: ValueString)
        ensures
            r@ == newvalue@,
            r is Integer <==> exists|n: i64| #[trigger] decimal_text(n as int) == newvalue@,
    {
        match number_of_text(&newvalue) {
            Some(n) => ValueString::Integer(n),
            None => ValueString::Data(newvalue),
        }
    }

    /// The bytes of the string.
    pub fn to_vec(&self) -> (r: Vec<u8>)
        ensures
            r@ == self@,
    {
        match self {
            ValueString::Integer(n) => to_text(*n),
            ValueString::Data(d) => copy(d),
        }
    }

    /// The number of bytes.
    pub fn strlen(&self) -> (r: usize)
        ensures
            r == self@.len(),
    {
        match self {
            ValueString::Integer(n) => to_text(*n).len(),
            ValueString::Data(d) => d.len(),
        }
    }

    /// Keeps the string as bytes from now on, and gives access to them.
    fn to_data(&mut self) -> (r: &mut Vec<u8>)
        ensures
            r@ == old(self)@,
            *final(self) == ValueString::Data(*final(r)),
    {
        if let ValueString::Integer(n) = self {
            let text = to_text(*n);
            *self = ValueString::Data(text);
        }
        match self {
            ValueString::Data(d) => d,
            ValueString::Integer(_) => vstd::pervasive::unreached(),
        }
    }

    /// Appends bytes. The string is kept as bytes from then on.
    pub fn append(&mut self, newvalue: Vec<u8>)
        ensures
            final(self)@ == old(self)@ + newvalue@,
            *final(self) is Data,
    {
        let mut rest: Vec<u8> = newvalue;
        let d = self.to_data();
        d.append(&mut rest);
    }

    /// Adds to the number that the bytes stand for. Fails if they stand for
    /// none or for one that is too large, or if the result is too large.
    pub fn incr(&mut self, incr: i64) -> (r: Result<i64, OperationError>)
        ensures
            match (numeric(old(self)@), r) {
                (Some(n), Ok(m)) => i64::MIN <= n <= i64::MAX && m == n + incr && *final(self) == ValueString::Integer(m),
                (Some(n), Err(e)) => if i64::MIN <= n <= i64::MAX {
                    !(i64::MIN <= n + incr <= i64::MAX) && e == OperationError::OverflowError
                } else {
                    e == OperationError::ValueError
                },
                (None, Ok(_)) => false,
                (None, Err(e)) => e == OperationError::ValueError,
            },
            r is Err ==> *final(self) == *old(self),
    {
        let n: i64 = match self {
            ValueString::Integer(n) => {
                proof {
                    crate::number::decimal_text_numeric(*n as int);
                }
                *n
            },
            ValueString::Data(d) => match parse_i64(d) {
                Some(n) => n,
                None => return Err(OperationError::ValueError),
            },
        };
        match n.checked_add(incr) {
            Some(m) => {
                *self = ValueString::Integer(m);
                Ok(m)
            },
            None => Err(OperationError::OverflowError),
        }
    }

    /// The bytes between two positions, both included. A negative position
    /// counts from the end.
    pub fn getrange(&self, start: i64, stop: i64) -> (r: Vec<u8>)
        ensures
            r@ == between(self@, start as int, stop as int),
    {
        let all = self.to_vec();
        let (low, high) = bounds(start, stop, all.len());
        let mut r: Vec<u8> = Vec::new();
        r.extend_from_slice(vstd::slice::slice_subrange(all.as_slice(), low, high));
        proof {
            lemma_between(self@, start as int, stop as int, low as int, high as int);
            assert(r@ =~= self@.subrange(low as int, high as int));
        }
        r
    }

    /// Writes data over the string from an index on. A negative index counts
    /// from the end; one before the start is the start. The string is filled up
    /// with null bytes if it is too short, and kept as bytes from then on.
    /// Returns its length.
    pub fn setrange(&mut self, index: i64, data: Vec<u8>) -> (r: usize)
        requires
            first_index(index as int, old(self)@.len()) + data@.len() <= usize::MAX,
        ensures
            final(self)@ == overwritten(old(self)@, first_index(index as int, old(self)@.len()), data@),
            *final(self) is Data,
            r == final(self)@.len(),
    {
        let ghost before = self@;
        let d = self.to_data();
        let at: usize = if index >= 0 {
            index as usize
        } else if (index as i128) + (d.len() as i128) < 0 {
            0
        } else {
            ((index as i128) + (d.len() as i128)) as usize
        };
        let past: usize = at + data.len();
        pad(d, past);
        let ghost room = d@;
        let mut i: usize = 0;
        while i < data.len()
            invariant
                i <= data.len(),
                past == at + data.len(),
                past <= room.len(),
                d@ == room.take(at as int) + data@.take(i as int) + room.skip(at + i),
            decreases data.len() - i,
        {
            d[at + i] = data[i];
            i += 1;
            proof {
                assert(d@ =~= room.take(at as int) + data@.take(i as int) + room.skip(at + i));
            }
        }
        proof {
            assert(data@.take(i as int) =~= data@);
            assert(d@ =~= overwritten(before, at as int, data@));
        }
        d.len()
    }

    /// Turns the bit at an offset on or off. The string is filled up with null
    /// bytes if it is too short, and kept as bytes from then on. Returns what
    /// the bit was.
    pub fn setbit(&mut self, bitoffset: usize, on: bool) -> (r: bool)
        ensures
            r == bit_at(old(self)@, bitoffset as int),
            final(self)@ == with_bit(old(self)@, bitoffset as int, on),
            *final(self) is Data,
    {
        let was: bool = self.getbit(bitoffset);
        let ghost before = self@;
        let d = self.to_data();
        let at: usize = bitoffset / 8;
        let mask: u8 = 0x80u8 >> ((bitoffset % 8) as u8);
        pad(d, at + 1);
        let byte: u8 = d[at];
        d[at] = if on { byte | mask } else { byte & !mask };
        proof {
            assert(d@ =~= with_bit(before, bitoffset as int, on));
        }
        was
    }

    /// The bit at an offset. Bits past the end are off.
    pub fn getbit(&self, bitoffset: usize) -> (r: bool)
        ensures
            r == bit_at(self@, bitoffset as int),
    {
        let all = self.to_vec();
        let at: usize = bitoffset / 8;
        if at < all.len() {
            all[at] & (0x80u8 >> ((bitoffset % 8) as u8)) != 0
        } else {
            false
        }
    }

    /// Serializes the string. Fails if its length cannot be written.
    pub fn dump(&self) -> (r: Result<Vec<u8>, OperationError>)
        ensures
            match r {
                Ok(v) => self.serialized() == Some(v@),
                Err(e) => self.serialized() is None && e == OperationError::OverflowError,
            },
    {
        let mut out: Vec<u8> = Vec::new();
        out.push(TYPE_STRING);
        proof {
            assert(out@ =~= seq![TYPE_STRING]);
        }
        match self {
            ValueString::Integer(n) => push_integer(&mut out, *n),
            ValueString::Data(d) => {
                if !push_slice(&mut out, d) {
                    return Err(OperationError::OverflowError);
                }
            },
        }
        push_version(&mut out);
        Ok(out)
    }
}

/// A bit is a binary digit of its byte, the highest first: in arithmetic, the
/// byte divided by a power of two is odd. Past the end there are none.
pub proof fn bit_is_binary_digit(s: Seq<u8>, offset: int)
    requires
        offset >= 0,
    ensures
        offset >= 8 * s.len() ==> !bit_at(s, offset),
        offset < 8 * s.len() ==> (bit_at(s, offset) <==> (s[offset / 8] as int / pow2((7 - offset % 8) as nat) as int) % 2 == 1),
{
    if offset < 8 * s.len() {
        let byte = s[offset / 8];
        let k = offset % 8;
        lemma2_to64();
        assert(byte & (0x80u8 >> 0u8) != 0 <==> byte / 128 % 2 == 1) by (bit_vector);
        assert(byte & (0x80u8 >> 1u8) != 0 <==> byte / 64 % 2 == 1) by (bit_vector);
        assert(byte & (0x80u8 >> 2u8) != 0 <==> byte / 32 % 2 == 1) by (bit_vector);
        assert(byte & (0x80u8 >> 3u8) != 0 <==> byte / 16 % 2 == 1) by (bit_vector);
        assert(byte & (0x80u8 >> 4u8) != 0 <==> byte / 8 % 2 == 1) by (bit_vector);
        assert(byte & (0x80u8 >> 5u8) != 0 <==> byte / 4 % 2 == 1) by (bit_vector);
        assert(byte & (0x80u8 >> 6u8) != 0 <==> byte / 2 % 2 == 1) by (bit_vector);
        assert(byte & (0x80u8 >> 7u8) != 0 <==> byte / 1 % 2 == 1) by (bit_vector);
    }
}

/// A string that is kept as a number stands for it, and one that is kept as
/// bytes is those bytes.
pub proof fn string_reads(n: i64, d: Vec<u8>)
    ensures
        numeric(ValueString::Integer(n)@) == Some(n as int),
        ValueString::Data(d)@ == d@,
{
    crate::number::decimal_text_numeric(n as int);
}

/// Where data is written the bytes are those of the data, and elsewhere they
/// stay. A gap between the old end and the data is filled with null bytes.
pub proof fn overwritten_elements(s: Seq<u8>, at: int, data: Seq<u8>, i: int)
    requires
        at >= 0,
        0 <= i,
        i < s.len() || i < at + data.len(),
    ensures
        overwritten(s, at, data).len() == if s.len() < at + data.len() {
            at + data.len()
        } else {
            s.len() as int
        },
        overwritten(s, at, data)[i] == if at <= i < at + data.len() {
            data[i - at]
        } else if i < s.len() {
            s[i]
        } else {
            0u8
        },
{
}

/// A serialized string is a type byte, the number or the bytes, and the version
/// in two bytes.
pub proof fn string_layout(n: i64, d: Vec<u8>)
    ensures
        ValueString::Integer(n).serialized() == Some(seq![0u8] + integer_code(n as int) + seq![7u8, 0u8]),
        d@.len() <= 0xffff_ffff ==> ValueString::Data(d).serialized() == Some(seq![0u8] + slice_code(d@) + seq![7u8, 0u8]),
        d@.len() > 0xffff_ffff ==> ValueString::Data(d).serialized() is None,
{
}

} // verus!
