//! What one call gives back of another.

use std::sync::mpsc::Sender;
use vstd::prelude::*;

use crate::adapters::checksum::crc64_of;
use crate::assoc::texts;
use crate::byteset::ByteSet;
use crate::database::{oversized, Database};
use crate::dbutil::normalize_position;
use crate::error::OperationError;
use crate::number::numeric;
use crate::pubsub::PubsubEvent;
use crate::rdb::{seal_layout, sealed};
use crate::score::{scaled, score_ranked_by_bits, Score};
use crate::set::is_number_text;
use crate::value::Value;

verus! {

/// What is set is read back and has its own length, whatever the value was.
pub proof fn set_is_read(v: &mut Value, data: Vec<u8>, r: Result<(), OperationError>, read: Result<Vec<u8>, OperationError>, len: Result<usize, OperationError>)
    ensures
        call_ensures(Value::set, (v, data), r) ==> {
            &&& r is Ok
            &&& call_ensures(Value::get, (&*final(v),), read) ==> (read matches Ok(d) && d@ == data@)
            &&& call_ensures(Value::strlen, (&*final(v),), len) ==> (len matches Ok(n) && n == data@.len())
        },
{
}

/// What is appended is read behind what was read before, and the length that
/// comes back is that of both.
pub proof fn append_is_read(
    v: &mut Value,
    data: Vec<u8>,
    r: Result<usize, OperationError>,
    before: Vec<u8>,
    read: Result<Vec<u8>, OperationError>,
)
    ensures
        call_ensures(Value::get, (&*old(v),), Ok(before)) && call_ensures(Value::append, (v, data), r) && call_ensures(
            Value::get,
            (&*final(v),),
            read,
        ) ==> {
            &&& r matches Ok(n) && n == before@.len() + data@.len()
            &&& read matches Ok(d) && d@ == before@ + data@
        },
{
}

/// A number is raised by what is added to it, and the result is read back. A
/// text that is no number is left alone, and so is a number for which the result
/// would be too large.
pub proof fn incr_is_read(v: &mut Value, by: i64, r: Result<i64, OperationError>, before: Vec<u8>, read: Result<Vec<u8>, OperationError>)
    ensures
        call_ensures(Value::get, (&*old(v),), Ok(before)) && !(*old(v) is Nil) && call_ensures(Value::incr, (v, by), r) && call_ensures(
            Value::get,
            (&*final(v),),
            read,
        ) ==> {
            &&& read is Ok
            &&& match r {
                Ok(m) => numeric(before@) == Some(m - by) && numeric(read->Ok_0@) == Some(m as int),
                Err(e) => {
                    &&& read->Ok_0@ == before@
                    &&& e == if numeric(before@) is None || numeric(before@)->0 < i64::MIN || numeric(before@)->0 > i64::MAX {
                        OperationError::ValueError
                    } else {
                        OperationError::OverflowError
                    }
                    &&& e == OperationError::OverflowError ==> numeric(before@)->0 + by > i64::MAX || numeric(before@)->0 + by < i64::MIN
                },
            }
        },
        *old(v) is Nil && call_ensures(Value::incr, (v, by), r) && call_ensures(Value::get, (&*final(v),), read) ==> {
            &&& r == Ok::<i64, OperationError>(by)
            &&& read is Ok && numeric(read->Ok_0@) == Some(by as int)
        },
{
    if let Ok(m) = r {
        crate::number::decimal_text_numeric(m as int);
    }
    crate::number::decimal_text_numeric(by as int);
}

/// Turning a bit on or off gives back how it was read before, and it is then
/// read as it was turned. Other bits are read as before.
pub proof fn bit_is_read(v: &mut Value, offset: usize, on: bool, was: Result<bool, OperationError>, other: usize, before: bool, after: Result<bool, OperationError>)
    ensures
        call_ensures(Value::getbit, (&*old(v), other), Ok(before)) && call_ensures(Value::setbit, (v, offset, on), was) && call_ensures(
            Value::getbit,
            (&*final(v), other),
            after,
        ) ==> {
            &&& was is Ok
            &&& other == offset ==> was == Ok::<bool, OperationError>(before) && after == Ok::<bool, OperationError>(on)
            &&& other != offset ==> after == Ok::<bool, OperationError>(before)
        },
{
    if old(v).text() is Some {
        crate::string::with_bit_then_bit_at(old(v).text()->0, offset as int, on, other as int);
    }
}

/// What is pushed to a list is popped from the same side, and leaves it as it
/// was.
pub proof fn pushed_is_popped(
    v: &mut Value,
    w: &mut Value,
    el: Vec<u8>,
    right: bool,
    len: Result<usize, OperationError>,
    popped: Result<Option<Vec<u8>>, OperationError>,
)
    ensures
        old(v).items() is Some && *old(w) == *final(v) && call_ensures(Value::push, (v, el, right), len) && call_ensures(
            Value::pop,
            (w, right),
            popped,
        ) ==> {
            &&& len matches Ok(n) && n == old(v).items()->0.len() + 1
            &&& popped matches Ok(Some(x)) && x@ == el@
            &&& final(w).items() == old(v).items()
        },
{
    if old(v).items() is Some && *old(w) == *final(v) && call_ensures(Value::push, (v, el, right), len) && call_ensures(
        Value::pop,
        (w, right),
        popped,
    ) {
        if let Ok(Some(x)) = popped {
            crate::list::push_then_pop(old(v).items()->0, el@, right, final(w).items()->0, x@);
        }
    }
}

/// What is pushed to a list is at its end: at the first index or at the last.
pub proof fn pushed_is_indexed(v: &mut Value, el: Vec<u8>, right: bool, len: Result<usize, OperationError>, found: Result<Option<&Vec<u8>>, OperationError>)
    ensures
        old(v).items() is Some && call_ensures(Value::push, (v, el, right), len) && call_ensures(
            Value::lindex,
            (
                &*final(v),
                if right {
                    -1i64
                } else {
                    0i64
                },
            ),
            found,
        ) ==> (found matches Ok(Some(x)) && x@ == el@),
{
}

/// What is set at an index is found there. Other indexes, from the start, find
/// what they did.
pub proof fn lset_is_indexed(
    v: &mut Value,
    index: i64,
    el: Vec<u8>,
    r: Result<(), OperationError>,
    other: i64,
    before: Result<Option<&Vec<u8>>, OperationError>,
    after: Result<Option<&Vec<u8>>, OperationError>,
)
    ensures
        call_ensures(Value::lset, (v, index, el), r) && call_ensures(Value::lindex, (&*old(v), other), before) && call_ensures(
            Value::lindex,
            (&*final(v), other),
            after,
        ) ==> {
            &&& r is Ok && other == index ==> (after matches Ok(Some(x)) && x@ == el@) && (before matches Ok(Some(_)))
            &&& r is Ok && index >= 0 && other >= 0 && other != index ==> match (before, after) {
                (Ok(Some(x)), Ok(Some(y))) => x@ == y@,
                (Ok(None), Ok(None)) => true,
                _ => false,
            }
            &&& r is Err && *old(v) is List && other == index ==> (before matches Ok(None)) && r
                == Err::<(), OperationError>(OperationError::OutOfBoundsError)
        },
{
}

/// As many elements go from a list as are told, and no more than the limit if
/// there is one.
pub proof fn lrem_counts(v: &mut Value, left: bool, limit: usize, el: Vec<u8>, r: Result<usize, OperationError>, before: usize, after: Result<usize, OperationError>)
    ensures
        call_ensures(Value::llen, (&*old(v),), Ok(before)) && call_ensures(Value::lrem, (v, left, limit, el), r) && call_ensures(
            Value::llen,
            (&*final(v),),
            after,
        ) ==> {
            &&& r is Ok && after is Ok
            &&& before == r->Ok_0 + after->Ok_0
            &&& limit > 0 ==> r->Ok_0 <= limit
        },
{
    if old(v).items() is Some {
        crate::list::stripped_len(old(v).items()->0, el@, left, limit as nat);
    }
}

/// A member that is added is there, and is new if it was not. A member that is
/// taken out is not there. All others are as they were.
pub proof fn membership_changes(
    v: &mut Value,
    el: Vec<u8>,
    limit: usize,
    added: Result<bool, OperationError>,
    taken: Result<bool, OperationError>,
    other: Vec<u8>,
    before: bool,
    after: Result<bool, OperationError>,
)
    ensures
        call_ensures(Value::sismember, (&*old(v), &other), Ok(before)) && call_ensures(Value::sismember, (&*final(v), &other), after) ==> {
            &&& call_ensures(Value::sadd, (v, el, limit), added) ==> {
                &&& added is Ok && after is Ok
                &&& other@ == el@ ==> added->Ok_0 == !before && after->Ok_0
                &&& other@ != el@ ==> after->Ok_0 == before
            }
            &&& call_ensures(Value::srem, (v, &el), taken) ==> {
                &&& taken is Ok && after is Ok
                &&& other@ == el@ ==> taken->Ok_0 == before && !after->Ok_0
                &&& other@ != el@ ==> after->Ok_0 == before
            }
        },
{
}

/// What is popped from a set was there and is there no longer, and what is not
/// popped stays.
pub proof fn popped_are_gone(v: &mut Value, count: usize, popped: Vec<Vec<u8>>, other: Vec<u8>, before: bool, after: Result<bool, OperationError>)
    ensures
        call_ensures(Value::sismember, (&*old(v), &other), Ok(before)) && call_ensures(Value::spop, (v, count), Ok(popped)) && call_ensures(
            Value::sismember,
            (&*final(v), &other),
            after,
        ) ==> {
            &&& after is Ok
            &&& texts(popped@).contains(other@) ==> before && !after->Ok_0
            &&& !texts(popped@).contains(other@) ==> after->Ok_0 == before
            &&& popped.len() <= count
        },
{
    let all = texts(popped@);
    if call_ensures(Value::spop, (v, count), Ok(popped)) && all.contains(other@) {
        let i = all.index_of(other@);
        assert(all[i] == other@);
        assert(popped[i]@ == other@);
        assert(all.to_set().contains(other@));
    }
}

/// A set that is made of byte strings has these as members.
pub proof fn created_set_is_read(v: &mut Value, set: ByteSet, el: Vec<u8>, r: (), there: Result<bool, OperationError>)
    ensures
        call_ensures(Value::create_set, (v, set), r) && call_ensures(Value::sismember, (&*final(v), &el), there) ==> (there matches Ok(b) && b
            == set@.contains(el@)),
{
}

/// A member of a sorted set that is taken out has no score, and others keep
/// theirs.
pub proof fn zrem_is_read(
    v: &mut Value,
    member: Vec<u8>,
    r: Result<bool, OperationError>,
    other: Vec<u8>,
    before: Option<&Score>,
    after: Result<Option<&Score>, OperationError>,
)
    ensures
        call_ensures(Value::zscore, (&*old(v), other), Ok(before)) && call_ensures(Value::zrem, (v, member), r) && call_ensures(
            Value::zscore,
            (&*final(v), other),
            after,
        ) ==> {
            &&& r is Ok && after is Ok
            &&& other@ == member@ ==> r->Ok_0 == (before is Some) && after->Ok_0 is None
            &&& other@ != member@ ==> after->Ok_0 == before
        },
{
}

/// A score that is given to a member is read back unless the addition is
/// refused, and others keep theirs. A member that is there is refused if only
/// new ones are wanted, and one that is not there if only present ones are.
pub proof fn zadd_is_read<F: Fn(&Score, &Score) -> Score>(
    v: &mut Value,
    s: Score,
    el: Vec<u8>,
    nx: bool,
    xx: bool,
    ch: bool,
    sum: F,
    r: Result<bool, OperationError>,
    other: Vec<u8>,
    before: Option<&Score>,
    after: Result<Option<&Score>, OperationError>,
)
    ensures
        call_ensures(Value::zscore, (&*old(v), other), Ok(before)) && call_ensures(
            Value::zadd::<F>,
            (v, s, el, nx, xx, ch, false, sum),
            r,
        ) && call_ensures(Value::zscore, (&*final(v), other), after) ==> {
            &&& r is Ok && after is Ok
            &&& other@ != el@ ==> after->Ok_0 == before
            &&& other@ == el@ ==> match before {
                Some(own) => if nx {
                    after->Ok_0 == before && !r->Ok_0
                } else {
                    &&& after->Ok_0 is Some && *(after->Ok_0->0) == s
                    &&& r->Ok_0 == (ch && scaled(s.bits) != scaled(own.bits))
                },
                None => if xx {
                    after->Ok_0 is None && !r->Ok_0
                } else {
                    after->Ok_0 is Some && *(after->Ok_0->0) == s && r->Ok_0
                },
            }
        },
{
    if before is Some {
        score_ranked_by_bits(s, *(before->0));
        score_ranked_by_bits(*(before->0), s);
    }
}

/// With the score to be added to that of a member, a member that is there gets
/// what the sum of both is, and one that is not there gets the score as it is.
/// The score that comes back is the one that is then read.
pub proof fn zincrby_is_read<F: Fn(&Score, &Score) -> Score>(
    v: &mut Value,
    s: Score,
    el: Vec<u8>,
    sum: F,
    r: Result<Score, OperationError>,
    before: Option<&Score>,
    after: Result<Option<&Score>, OperationError>,
)
    ensures
        call_ensures(Value::zscore, (&*old(v), el), Ok(before)) && call_ensures(Value::zincrby::<F>, (v, s, el, sum), r) && call_ensures(
            Value::zscore,
            (&*final(v), el),
            after,
        ) ==> {
            &&& r is Ok && after is Ok && after->Ok_0 is Some
            &&& r->Ok_0.bits == after->Ok_0->0.bits && r->Ok_0.text@ == after->Ok_0->0.text@
            &&& match before {
                Some(own) => call_ensures(sum, (&s, own), *(after->Ok_0->0)),
                None => *(after->Ok_0->0) == s,
            }
        },
{
}

/// What is no string is not changed as one, and the refusal says so. One that
/// is not there is taken for an empty string.
pub proof fn only_strings(
    v: &mut Value,
    data: Vec<u8>,
    n: i64,
    offset: usize,
    on: bool,
    a: Result<usize, OperationError>,
    b: Result<i64, OperationError>,
    c: Result<bool, OperationError>,
)
    ensures
        *old(v) is List || *old(v) is PlainSet || *old(v) is SortedSet ==> {
            &&& call_ensures(Value::append, (v, data), a) ==> *final(v) == *old(v) && a == Err::<usize, OperationError>(
                OperationError::WrongTypeError,
            )
            &&& call_ensures(Value::setrange, (v, n, data), a) ==> *final(v) == *old(v) && a == Err::<usize, OperationError>(
                OperationError::WrongTypeError,
            )
            &&& call_ensures(Value::incr, (v, n), b) ==> *final(v) == *old(v) && b == Err::<i64, OperationError>(
                OperationError::WrongTypeError,
            )
            &&& call_ensures(Value::setbit, (v, offset, on), c) ==> *final(v) == *old(v) && c == Err::<bool, OperationError>(
                OperationError::WrongTypeError,
            )
        },
        *old(v) is Nil || *old(v) is String ==> {
            &&& call_ensures(Value::append, (v, data), a) ==> a is Ok && *final(v) is String
            &&& call_ensures(Value::setrange, (v, n, data), a) ==> a is Ok && *final(v) is String
            &&& call_ensures(Value::setbit, (v, offset, on), c) ==> c is Ok && *final(v) is String
        },
{
}

/// What is no list is not changed as one, and the refusal says so. One that is
/// not there is taken for an empty list where it may be one.
pub proof fn only_lists(
    v: &mut Value,
    el: Vec<u8>,
    other: Vec<u8>,
    side: bool,
    limit: usize,
    n: i64,
    m: i64,
    a: Result<usize, OperationError>,
    b: Result<Option<Vec<u8>>, OperationError>,
    c: Result<Option<usize>, OperationError>,
    d: Result<(), OperationError>,
)
    ensures
        *old(v) is String || *old(v) is PlainSet || *old(v) is SortedSet ==> {
            &&& call_ensures(Value::push, (v, el, side), a) ==> *final(v) == *old(v) && a == Err::<usize, OperationError>(
                OperationError::WrongTypeError,
            )
            &&& call_ensures(Value::pop, (v, side), b) ==> *final(v) == *old(v) && b == Err::<Option<Vec<u8>>, OperationError>(
                OperationError::WrongTypeError,
            )
            &&& call_ensures(Value::linsert, (v, side, el, other), c) ==> *final(v) == *old(v) && c == Err::<
                Option<usize>,
                OperationError,
            >(OperationError::WrongTypeError)
            &&& call_ensures(Value::lrem, (v, side, limit, el), a) ==> *final(v) == *old(v) && a == Err::<usize, OperationError>(
                OperationError::WrongTypeError,
            )
            &&& call_ensures(Value::lset, (v, n, el), d) ==> *final(v) == *old(v) && d == Err::<(), OperationError>(
                OperationError::WrongTypeError,
            )
            &&& call_ensures(Value::ltrim, (v, n, m), d) ==> *final(v) == *old(v) && d == Err::<(), OperationError>(
                OperationError::WrongTypeError,
            )
        },
        *old(v) is Nil || *old(v) is List ==> {
            &&& call_ensures(Value::push, (v, el, side), a) ==> a is Ok && *final(v) is List
            &&& call_ensures(Value::pop, (v, side), b) ==> b is Ok
            &&& call_ensures(Value::linsert, (v, side, el, other), c) ==> c is Ok
            &&& call_ensures(Value::lrem, (v, side, limit, el), a) ==> a is Ok
        },
        *old(v) is Nil ==> {
            &&& call_ensures(Value::lset, (v, n, el), d) ==> *final(v) is Nil && d == Err::<(), OperationError>(
                OperationError::UnknownKeyError,
            )
            &&& call_ensures(Value::ltrim, (v, n, m), d) ==> *final(v) is Nil && d == Err::<(), OperationError>(
                OperationError::WrongTypeError,
            )
        },
        *old(v) is List && call_ensures(Value::ltrim, (v, n, m), d) ==> d is Ok && *final(v) is List,
{
}

/// What is no set, or no sorted set, is not changed as one, and the refusal says
/// so. One that is not there is taken for an empty one.
pub proof fn only_sets(
    v: &mut Value,
    el: Vec<u8>,
    n: usize,
    a: Result<bool, OperationError>,
    b: Result<Vec<Vec<u8>>, OperationError>,
)
    ensures
        *old(v) is String || *old(v) is List || *old(v) is SortedSet ==> {
            &&& call_ensures(Value::sadd, (v, el, n), a) ==> *final(v) == *old(v) && a == Err::<bool, OperationError>(
                OperationError::WrongTypeError,
            )
            &&& call_ensures(Value::srem, (v, &el), a) ==> *final(v) == *old(v) && a == Err::<bool, OperationError>(
                OperationError::WrongTypeError,
            )
            &&& call_ensures(Value::spop, (v, n), b) ==> *final(v) == *old(v) && b == Err::<Vec<Vec<u8>>, OperationError>(
                OperationError::WrongTypeError,
            )
        },
        *old(v) is Nil || *old(v) is PlainSet ==> {
            &&& call_ensures(Value::sadd, (v, el, n), a) ==> a is Ok && *final(v) is PlainSet
            &&& call_ensures(Value::srem, (v, &el), a) ==> a is Ok
            &&& call_ensures(Value::spop, (v, n), b) ==> b is Ok
        },
        *old(v) is String || *old(v) is List || *old(v) is PlainSet ==> {
            &&& call_ensures(Value::zrem, (v, el), a) ==> *final(v) == *old(v) && a == Err::<bool, OperationError>(
                OperationError::WrongTypeError,
            )
        },
        *old(v) is Nil || *old(v) is SortedSet ==> {
            &&& call_ensures(Value::zrem, (v, el), a) ==> a is Ok
        },
{
}

/// A set of numbers stays one as long as only texts of numbers are added and
/// there are no more than the limit, and once it is none it stays so.
pub proof fn numbers_up_to_the_limit(v: &mut Value, el: Vec<u8>, limit: usize, added: bool)
    ensures
        old(v).wf() && *old(v) is PlainSet && call_ensures(Value::sadd, (v, el, limit), Ok(added)) ==> {
            &&& *final(v) is PlainSet
            &&& old(v)->PlainSet_0 is Data ==> final(v)->PlainSet_0 is Data
            &&& !is_number_text(el@) ==> final(v)->PlainSet_0 is Data
            &&& old(v)->PlainSet_0 is Integer && is_number_text(el@) && !added ==> final(v)->PlainSet_0 is Integer
            &&& old(v)->PlainSet_0 is Integer && is_number_text(el@) && added ==> (final(v)->PlainSet_0 is Integer <==> final(v)->PlainSet_0@.len()
                <= limit)
        },
{
    if old(v).wf() && *old(v) is PlainSet {
        old(v)->PlainSet_0.lemma_members();
    }
}

/// What is written of a value is told by its length, begins with the serialized
/// value, and ends with the checksum of this in eight bytes, the lowest first.
/// Nothing is written of one that is not there, nor of one that cannot be.
pub proof fn dump_is_sealed(v: Value, out: &mut Vec<u8>, r: Result<usize, OperationError>)
    ensures
        call_ensures(Value::dump, (&v, out), r) ==> {
            &&& v is Nil ==> r == Ok::<usize, OperationError>(0) && final(out)@ == old(out)@
            &&& !(v is Nil) && v.serialized() is None ==> r == Err::<usize, OperationError>(OperationError::OverflowError) && final(out)@
                == old(out)@
            &&& !(v is Nil) && v.serialized() is Some ==> {
                let data = v.serialized()->0;
                let c = final(out)@.skip((old(out)@.len() + data.len()) as int);
                &&& r is Ok && r->Ok_0 == data.len() + 8
                &&& final(out)@.len() == old(out)@.len() + data.len() + 8
                &&& final(out)@.take(old(out)@.len() as int) == old(out)@
                &&& final(out)@.subrange(old(out)@.len() as int, (old(out)@.len() + data.len()) as int) == data
                &&& crc64_of(0, data) == c[0] + 0x100 * c[1] + 0x1_0000 * c[2] + 0x100_0000 * c[3] + 0x1_0000_0000 * c[4] + 0x100_0000_0000
                    * c[5] + 0x1_0000_0000_0000 * c[6] + 0x100_0000_0000_0000 * c[7]
            }
        },
{
    if call_ensures(Value::dump, (&v, out), r) && !(v is Nil) && v.serialized() is Some {
        let data = v.serialized()->0;
        let b = sealed(data, crc64_of(0, data));
        seal_layout(data, crc64_of(0, data));
        assert(final(out)@.take(old(out)@.len() as int) =~= old(out)@);
        assert(final(out)@.skip((old(out)@.len() + data.len()) as int) =~= b.skip(data.len() as int));
        assert(final(out)@.subrange(old(out)@.len() as int, (old(out)@.len() + data.len()) as int) =~= b.take(data.len() as int));
    }
}

/// A position counts from the start, or from the end if it is negative, and is
/// outside if there is nothing: before the start or behind the end.
pub proof fn positions_normalized(position: i64, len: usize, r: Result<usize, bool>)
    ensures
        call_ensures(normalize_position, (position, len), r) ==> match r {
            Ok(i) => i < len && (i == position || i == len + position),
            Err(after) => after == (position >= 0) && (position >= len || position < -len),
        },
        call_ensures(normalize_position, (position, len), r) && 0 <= position < len ==> r == Ok::<usize, bool>(position as usize),
        call_ensures(normalize_position, (position, len), r) && -len <= position < 0 ==> r == Ok::<usize, bool>((len + position) as usize),
{
}

/// Keys of scores compare as the numbers do.
pub proof fn keys_compare(a: Score, b: Score, x: i64, y: i64)
    ensures
        call_ensures(Score::rank_key, (&a,), x) && call_ensures(Score::rank_key, (&b,), y) ==> {
            &&& x < y <==> scaled(a.bits) < scaled(b.bits)
            &&& x == y <==> scaled(a.bits) == scaled(b.bits)
        },
{
    score_ranked_by_bits(a, b);
    score_ranked_by_bits(b, a);
}

/// A table is large for what it holds if it has room for more than five sixths
/// of that.
pub proof fn oversized_exactly(len: usize, capacity: usize, r: bool)
    ensures
        call_ensures(oversized, (len, capacity), r) ==> r == (5 * len < 6 * capacity),
{
}

/// A time that is set for a key is told, and is when its value expires. Once it
/// is taken back the value does not expire.
pub proof fn expiration_is_read(
    db: &mut Database,
    index: usize,
    key: Vec<u8>,
    ms: i64,
    r: (),
    taken: Option<i64>,
    now: i64,
    before: bool,
    after: bool,
)
    ensures
        0 <= index < old(db)@.expirations.len() && call_ensures(Database::is_expired_at, (&*old(db), index, &key, now), before) && call_ensures(
            Database::is_expired_at,
            (&*final(db), index, &key, now),
            after,
        ) ==> {
            &&& call_ensures(Database::set_msexpiration, (db, index, key, ms), r) ==> after == (now >= ms)
            &&& call_ensures(Database::remove_msexpiration, (db, index, &key), taken) ==> {
                &&& !after
                &&& taken is None ==> !before
                &&& taken is Some ==> before == (now >= taken->0)
            }
        },
{
}

/// What is taken out is what was found, and nothing is found under the key after
/// that. Under other keys what was found is found.
pub proof fn removed_is_gone(
    db: &mut Database,
    index: usize,
    key: Vec<u8>,
    now: i64,
    r: Option<Value>,
    at: usize,
    other: Vec<u8>,
    before: Option<&Value>,
    after: Option<&Value>,
)
    ensures
        0 <= index < old(db)@.data.len() && 0 <= index < old(db)@.expirations.len() && call_ensures(
            Database::get_at,
            (&*old(db), at, &other, now),
            before,
        ) && call_ensures(Database::get_at, (&*final(db), at, &other, now), after) && call_ensures(
            Database::remove_at,
            (db, index, &key, now),
            r,
        ) ==> {
            &&& at == index && other@ == key@ ==> after is None && match (before, r) {
                (Some(x), Some(y)) => *x == y,
                (None, None) => true,
                _ => false,
            }
            &&& at < old(db)@.data.len() && at < old(db)@.expirations.len() && (at != index || other@ != key@) ==> match (before, after) {
                (Some(x), Some(y)) => *x == *y,
                (None, None) => true,
                _ => false,
            }
        },
{
}

/// In a database that is cleared nothing is found, and in others what was.
pub proof fn cleared_is_empty(db: &mut Database, index: usize, r: (), at: usize, key: Vec<u8>, now: i64, before: Option<&Value>, after: Option<&Value>)
    ensures
        index < old(db)@.data.len() && at < old(db)@.data.len() && call_ensures(Database::get_at, (&*old(db), at, &key, now), before) && call_ensures(
            Database::get_at,
            (&*final(db), at, &key, now),
            after,
        ) ==> {
            &&& call_ensures(Database::clear, (db, index), r) ==> {
                &&& at == index ==> after is None
                &&& at != index ==> match (before, after) {
                    (Some(x), Some(y)) => *x == *y,
                    (None, None) => true,
                    _ => false,
                }
            }
            &&& call_ensures(Database::clearall, (db,), r) ==> after is None
        },
{
}

/// Who has begun to listen can be made to stop once, by the number that came
/// back, and the next who begins gets the next number.
pub proof fn subscription_ends_once(
    a: &mut Database,
    b: &mut Database,
    c: &mut Database,
    name: Vec<u8>,
    sender: Sender<Option<PubsubEvent>>,
    id: usize,
    first: bool,
    second: bool,
    next: usize,
)
    ensures
        old(a).subscriber_id < usize::MAX && *old(b) == *final(a) && *old(c) == *final(b) ==> {
            &&& call_ensures(Database::subscribe, (a, name, sender), id) && call_ensures(Database::unsubscribe, (b, name, id), first)
                && call_ensures(Database::unsubscribe, (c, name, id), second) ==> first && !second
            &&& call_ensures(Database::psubscribe, (a, name, sender), id) && call_ensures(Database::punsubscribe, (b, name, id), first)
                && call_ensures(Database::punsubscribe, (c, name, id), second) ==> first && !second
            &&& call_ensures(Database::subscribe, (a, name, sender), id) && call_ensures(Database::psubscribe, (b, name, sender), next) ==> next
                == id + 1
            &&& call_ensures(Database::psubscribe, (a, name, sender), id) && call_ensures(Database::subscribe, (b, name, sender), next) ==> next
                == id + 1
        },
{
}

} // verus!
