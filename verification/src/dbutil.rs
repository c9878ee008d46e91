//! Positions in a sequence, counted from its start or from its end.

use vstd::prelude::*;

verus! {

/// The place that a position names in a sequence of the given length. A
/// negative position counts from the end.
pub open spec fn place(position: int, len: nat) -> int {
    if position < 0 {
        position + len
    } else {
        position
    }
}

/// The first index that a range from this position can have.
pub open spec fn first_index(start: int, len: nat) -> int {
    if place(start, len) < 0 {
        0
    } else {
        place(start, len)
    }
}

/// The first index past a range to this position.
pub open spec fn past_index(stop: int, len: nat) -> int {
    if place(stop, len) >= len {
        len as int
    } else {
        place(stop, len) + 1
    }
}

/// The elements between two positions, both included. Positions outside the
/// sequence name no element.
pub open spec fn between<A>(s: Seq<A>, start: int, stop: int) -> Seq<A> {
    if first_index(start, s.len()) < past_index(stop, s.len()) {
        s.subrange(first_index(start, s.len()), past_index(stop, s.len()))
    } else {
        Seq::empty()
    }
}

/// The index of the place that a position names. The error says whether the
/// place is after the end, and not before the start.
pub fn normalize_position(position: i64, len: usize) -> (r: Result<usize, bool>)
    ensures
        match r {
            Ok(i) => i < len && i == place(position as int, len as nat),
            Err(after) => if after {
                place(position as int, len as nat) >= len
            } else {
                place(position as int, len as nat) < 0
            },
        },
{
    let at: i128 = if position < 0 { position as i128 + len as i128 } else { position as i128 };
    if at < 0 {
        Err(false)
    } else if at >= len as i128 {
        Err(true)
    } else {
        Ok(at as usize)
    }
}

/// Where the elements between two positions begin and end. The end is not
/// included.
pub fn bounds(start: i64, stop: i64, len: usize) -> (r: (usize, usize))
    ensures
        r.0 <= r.1 <= len,
        first_index(start as int, len as nat) < past_index(stop as int, len as nat) ==> r.0 == first_index(
            start as int,
            len as nat,
        ) && r.1 == past_index(stop as int, len as nat),
        first_index(start as int, len as nat) >= past_index(stop as int, len as nat) ==> r.0 == r.1,
{
    let low: usize = match normalize_position(start, len) {
        Ok(i) => i,
        Err(after) => if after {
            len
        } else {
            0
        },
    };
    let high: usize = match normalize_position(stop, len) {
        Ok(i) => i + 1,
        Err(after) => if after {
            len
        } else {
            0
        },
    };
    if low < high {
        (low, high)
    } else {
        (low, low)
    }
}

/// The bounds of a range of positions cut out the elements between them.
pub proof fn lemma_between<A>(s: Seq<A>, start: int, stop: int, low: int, high: int)
    requires
        0 <= low <= high <= s.len(),
        first_index(start, s.len()) < past_index(stop, s.len()) ==> low == first_index(start, s.len()) && high
            == past_index(stop, s.len()),
        first_index(start, s.len()) >= past_index(stop, s.len()) ==> low == high,
    ensures
        between(s, start, stop) == s.subrange(low, high),
{
    assert(between(s, start, stop) =~= s.subrange(low, high));
}

/// From the first position to the last is the whole sequence.
pub proof fn between_whole<A>(s: Seq<A>)
    ensures
        between(s, 0, -1) == s,
{
    assert(between(s, 0, -1) =~= s);
}

/// Between the same position twice is the one element that it names.
pub proof fn between_single<A>(s: Seq<A>, position: int)
    requires
        0 <= place(position, s.len()) < s.len(),
    ensures
        between(s, position, position) == seq![s[place(position, s.len())]],
{
    assert(between(s, position, position) =~= seq![s[place(position, s.len())]]);
}

/// A range that stops before it starts is empty.
pub proof fn between_reversed<A>(s: Seq<A>, start: int, stop: int)
    requires
        place(stop, s.len()) < place(start, s.len()),
    ensures
        between(s, start, stop) == Seq::<A>::empty(),
{
}

/// A position that is not negative names the index that it is, and one that is
/// negative counts from the end.
pub proof fn place_counts(position: int, len: nat)
    ensures
        position >= 0 ==> place(position, len) == position,
        position < 0 ==> place(position, len) == len + position,
        position < 0 && len + position < 0 ==> first_index(position, len) == 0,
        position < 0 && len + position >= 0 ==> first_index(position, len) == len + position,
        position >= 0 ==> first_index(position, len) == position,
{
}

/// The elements between two positions are, one after the other, all from the
/// first position to the last, both included, that the sequence has.
pub proof fn between_elements<A>(s: Seq<A>, start: int, stop: int, i: int)
    requires
        0 <= i < s.len(),
    ensures
        ({
            let low = if start >= 0 { start } else if s.len() + start >= 0 { s.len() + start } else { 0 };
            let high = if stop >= 0 { stop } else { s.len() + stop };
            let last = if high < s.len() { high } else { s.len() - 1 };
            &&& low <= last ==> between(s, start, stop).len() == last - low + 1
            &&& low > last ==> between(s, start, stop).len() == 0
            &&& low <= i <= high ==> between(s, start, stop)[i - low] == s[i]
        }),
{
}

/// No sequence has elements between positions if it has none at all.
pub proof fn between_of_none<A>(s: Seq<A>, start: int, stop: int)
    requires
        s.len() == 0,
    ensures
        between(s, start, stop).len() == 0,
{
}

/// A position from the end is the same as that from the start.
pub proof fn between_from_the_end<A>(s: Seq<A>, start: int, stop: int)
    requires
        -s.len() <= start < 0,
        -s.len() <= stop < 0,
    ensures
        between(s, start, stop) == between(s, start + s.len(), stop + s.len()),
        between(s, start, stop) == s.subrange(
            start + s.len(),
            if start <= stop {
                stop + s.len() + 1
            } else {
                start + s.len()
            },
        ),
{
    assert(between(s, start, stop) =~= s.subrange(
        start + s.len(),
        if start <= stop {
            stop + s.len() + 1
        } else {
            start + s.len()
        },
    ));
}

/// The stretch up to a position ends behind it, and not behind the end.
pub proof fn past_counts(stop: int, len: nat)
    ensures
        0 <= stop < len ==> past_index(stop, len) == stop + 1,
        stop >= len ==> past_index(stop, len) == len,
        -len <= stop < 0 ==> past_index(stop, len) == len + stop + 1,
        stop < -len ==> past_index(stop, len) <= 0,
{
}

} // verus!
