//! Glob patterns over byte strings.
//!
//! `*` stands for any bytes, `?` for any one byte, and a class in brackets for
//! one byte out of it. A class lists bytes and ranges of bytes, and with `^` in
//! front it stands for one byte that it does not list. A backslash takes the
//! byte after it for itself, in a class and outside.

use vstd::prelude::*;

verus! {

/// `*`
pub const STAR: u8 = 42;

/// `?`
pub const QUESTION: u8 = 63;

/// `[`
pub const OPEN: u8 = 91;

/// `]`
pub const CLOSE: u8 = 93;

/// The backslash.
pub const ESCAPE: u8 = 92;

/// `^`
pub const CARET: u8 = 94;

/// `-`
pub const DASH: u8 = 45;

/// Whether a byte lies between two others, in whichever order they are given.
pub open spec fn in_range(a: u8, b: u8, c: u8) -> bool {
    (a <= c && c <= b) || (b <= c && c <= a)
}

/// Whether the rest of a class lists a byte, and what of the pattern comes
/// after the class. A class that is not closed ends with the pattern.
pub open spec fn class_rest(p: Seq<u8>, c: u8) -> (bool, Seq<u8>)
    decreases p.len(),
{
    if p.len() == 0 {
        (false, p)
    } else if p[0] == CLOSE {
        (false, p.skip(1))
    } else if p[0] == ESCAPE && p.len() >= 2 {
        let (listed, after) = class_rest(p.skip(2), c);
        (p[1] == c || listed, after)
    } else if p.len() >= 3 && p[1] == DASH {
        let (listed, after) = class_rest(p.skip(3), c);
        (in_range(p[0], p[2], c) || listed, after)
    } else {
        let (listed, after) = class_rest(p.skip(1), c);
        (p[0] == c || listed, after)
    }
}

/// Whether a class stands for a byte, and what of the pattern comes after the
/// class. The pattern is given from behind the opening bracket on.
pub open spec fn class(p: Seq<u8>, c: u8) -> (bool, Seq<u8>) {
    if p.len() > 0 && p[0] == CARET {
        let (listed, after) = class_rest(p.skip(1), c);
        (!listed, after)
    } else {
        class_rest(p, c)
    }
}

/// What comes after a class is no longer than the pattern.
pub proof fn lemma_class_rest_len(p: Seq<u8>, c: u8)
    ensures
        class_rest(p, c).1.len() <= p.len(),
    decreases p.len(),
{
    if p.len() > 0 && p[0] != CLOSE {
        if p[0] == ESCAPE && p.len() >= 2 {
            lemma_class_rest_len(p.skip(2), c);
        } else if p.len() >= 3 && p[1] == DASH {
            lemma_class_rest_len(p.skip(3), c);
        } else {
            lemma_class_rest_len(p.skip(1), c);
        }
    }
}

/// Whether a pattern stands for a byte string.
pub open spec fn glob(p: Seq<u8>, s: Seq<u8>) -> bool
    decreases p.len() + s.len(),
{
    if p.len() == 0 {
        s.len() == 0
    } else if p[0] == STAR {
        glob(p.skip(1), s) || (s.len() > 0 && glob(p, s.skip(1)))
    } else if s.len() == 0 {
        false
    } else if p[0] == QUESTION {
        glob(p.skip(1), s.skip(1))
    } else if p[0] == OPEN {
        let (fits, after) = class(p.skip(1), s[0]);
        proof {
            lemma_class_rest_len(p.skip(1), s[0]);
            lemma_class_rest_len(p.skip(1).skip(1), s[0]);
        }
        fits && glob(after, s.skip(1))
    } else if p[0] == ESCAPE && p.len() >= 2 {
        p[1] == s[0] && glob(p.skip(2), s.skip(1))
    } else {
        p[0] == s[0] && glob(p.skip(1), s.skip(1))
    }
}

/// Whether a pattern has no byte with a meaning of its own.
pub open spec fn is_literal(p: Seq<u8>) -> bool {
    forall|i: int|
        0 <= i < p.len() ==> (#[trigger] p[i]) != STAR && p[i] != QUESTION && p[i] != OPEN && p[i] != ESCAPE
}

/// A pattern that has no byte with a meaning of its own stands for itself and
/// nothing else.
pub proof fn literal_pattern(p: Seq<u8>, s: Seq<u8>)
    requires
        is_literal(p),
    ensures
        glob(p, s) == (p == s),
    decreases p.len(),
{
    if p.len() == 0 {
        if s.len() == 0 {
            assert(p =~= s);
        }
    } else if s.len() > 0 {
        assert forall|i: int| 0 <= i < p.skip(1).len() implies (#[trigger] p.skip(1)[i]) != STAR && p.skip(1)[i] != QUESTION
            && p.skip(1)[i] != OPEN && p.skip(1)[i] != ESCAPE by {
            assert(p.skip(1)[i] == p[i + 1]);
        }
        assert(p[0] != STAR && p[0] != QUESTION && p[0] != OPEN && p[0] != ESCAPE);
        literal_pattern(p.skip(1), s.skip(1));
        if p[0] == s[0] && p.skip(1) == s.skip(1) {
            assert(p =~= seq![p[0]] + p.skip(1));
            assert(s =~= seq![s[0]] + s.skip(1));
        }
    }
}

/// A star alone stands for every byte string.
pub proof fn star_pattern(s: Seq<u8>)
    ensures
        glob(seq![STAR], s),
    decreases s.len(),
{
    if s.len() > 0 {
        star_pattern(s.skip(1));
    } else {
        assert(seq![STAR].skip(1) =~= Seq::<u8>::empty());
        assert(glob(seq![STAR].skip(1), s));
    }
}

/// A star in front of a pattern stands for any bytes in front of what the
/// pattern stands for.
pub proof fn star_prefix(p: Seq<u8>, front: Seq<u8>, s: Seq<u8>)
    requires
        glob(p, s),
    ensures
        glob(seq![STAR] + p, front + s),
    decreases front.len(),
{
    let q = seq![STAR] + p;
    assert(q.skip(1) =~= p);
    if front.len() == 0 {
        assert(front + s =~= s);
    } else {
        star_prefix(p, front.skip(1), s);
        assert((front + s).skip(1) =~= front.skip(1) + s);
    }
}

/// Reads a class from an index of the pattern on, behind the opening bracket.
/// Returns whether it stands for the byte, and where the class ends.
fn class_at(p: &Vec<u8>, from: usize, c: u8) -> (r: (bool, usize))
    requires
        from <= p.len(),
    ensures
        from <= r.1 <= p.len(),
        class(p@.skip(from as int), c) == (r.0, p@.skip(r.1 as int)),
{
    let negated: bool = from < p.len() && p[from] == CARET;
    let ghost whole = p@.skip(from as int);
    let mut i: usize = if negated { from + 1 } else { from };
    let mut listed: bool = false;
    let ghost inner = p@.skip(i as int);
    proof {
        if negated {
            assert(whole.skip(1) =~= inner);
        }
    }
    while i < p.len() && p[i] != CLOSE
        invariant
            from <= i <= p.len(),
            class_rest(inner, c) == ({
                let (more, after) = class_rest(p@.skip(i as int), c);
                (listed || more, after)
            }),
        decreases p.len() - i,
    {
        let ghost here = p@.skip(i as int);
        if p[i] == ESCAPE && p.len() - i >= 2 {
            proof {
                assert(here.skip(2) =~= p@.skip(i + 2));
            }
            if p[i + 1] == c {
                listed = true;
            }
            i += 2;
        } else if p.len() - i >= 3 && p[i + 1] == DASH {
            proof {
                assert(here.skip(3) =~= p@.skip(i + 3));
            }
            let a: u8 = p[i];
            let b: u8 = p[i + 2];
            if (a <= c && c <= b) || (b <= c && c <= a) {
                listed = true;
            }
            i += 3;
        } else {
            proof {
                assert(here.skip(1) =~= p@.skip(i + 1));
            }
            if p[i] == c {
                listed = true;
            }
            i += 1;
        }
    }
    let ghost here = p@.skip(i as int);
    let end: usize = if i < p.len() { i + 1 } else { i };
    proof {
        if i < p.len() {
            assert(here.skip(1) =~= p@.skip(i + 1));
        }
    }
    (listed != negated, end)
}

/// Whether the rest of a pattern stands for the rest of a byte string.
fn glob_at(p: &Vec<u8>, from: usize, s: &Vec<u8>, start: usize) -> (r: bool)
    requires
        from <= p.len(),
        start <= s.len(),
    ensures
        r == glob(p@.skip(from as int), s@.skip(start as int)),
    decreases p.len() - from,
{
    let ghost want = glob(p@.skip(from as int), s@.skip(start as int));
    let mut i: usize = from;
    let mut j: usize = start;
    while i < p.len()
        invariant
            from <= i <= p.len(),
            j <= s.len(),
            want == glob(p@.skip(from as int), s@.skip(start as int)),
            want == glob(p@.skip(i as int), s@.skip(j as int)),
        decreases p.len() - i,
    {
        let ghost pattern = p@.skip(i as int);
        let ghost rest = s@.skip(j as int);
        proof {
            assert(pattern.skip(1) =~= p@.skip(i + 1));
            if j < s.len() {
                assert(rest.skip(1) =~= s@.skip(j + 1));
            }
        }
        if p[i] == STAR {
            let mut k: usize = j;
            loop
                invariant
                    from <= i < p.len(),
                    k <= s.len(),
                    pattern == p@.skip(i as int),
                    pattern.skip(1) == p@.skip(i + 1),
                    p@[i as int] == STAR,
                    want == glob(p@.skip(from as int), s@.skip(start as int)),
                    want == glob(pattern, s@.skip(k as int)),
                decreases s.len() - k,
            {
                proof {
                    if k < s.len() {
                        assert(s@.skip(k as int).skip(1) =~= s@.skip(k + 1));
                    }
                }
                if glob_at(p, i + 1, s, k) {
                    return true;
                }
                if k == s.len() {
                    return false;
                }
                k += 1;
            }
        }
        if j == s.len() {
            return false;
        }
        if p[i] == QUESTION {
            i += 1;
        } else if p[i] == OPEN {
            let (fits, end) = class_at(p, i + 1, s[j]);
            if !fits {
                return false;
            }
            i = end;
        } else if p[i] == ESCAPE && p.len() - i >= 2 {
            proof {
                assert(pattern.skip(2) =~= p@.skip(i + 2));
            }
            if p[i + 1] != s[j] {
                return false;
            }
            i += 2;
        } else {
            if p[i] != s[j] {
                return false;
            }
            i += 1;
        }
        j += 1;
    }
    j == s.len()
}

/// Whether a pattern stands for a byte string.
pub fn glob_match(pattern: &Vec<u8>, element: &Vec<u8>) -> (r: bool)
    ensures
        r == glob(pattern@, element@),
{
    proof {
        assert(pattern@.skip(0) =~= pattern@);
        assert(element@.skip(0) =~= element@);
    }
    glob_at(pattern, 0, element, 0)
}

/// No pattern at all stands for the empty byte string alone.
pub proof fn empty_pattern(s: Seq<u8>)
    ensures
        glob(Seq::empty(), s) <==> s.len() == 0,
{
}

/// `?` takes any one byte, and the rest of the pattern stands for the rest.
pub proof fn question_first(p: Seq<u8>, s: Seq<u8>)
    ensures
        glob(seq![63u8] + p, s) <==> s.len() > 0 && glob(p, s.skip(1)),
{
    assert((seq![63u8] + p).skip(1) =~= p);
}

/// `*` takes any number of bytes, none and all of them among these, and the
/// rest of the pattern stands for the rest.
pub proof fn star_first(p: Seq<u8>, s: Seq<u8>)
    ensures
        glob(seq![42u8] + p, s) <==> exists|k: int| 0 <= k <= s.len() && glob(p, #[trigger] s.skip(k)),
    decreases s.len(),
{
    let q = seq![42u8] + p;
    assert(q.skip(1) =~= p);
    assert(s.skip(0) =~= s);
    if s.len() > 0 {
        let t = s.skip(1);
        star_first(p, t);
        if exists|k: int| 0 <= k <= t.len() && glob(p, #[trigger] t.skip(k)) {
            let k = choose|k: int| 0 <= k <= t.len() && glob(p, #[trigger] t.skip(k));
            assert(t.skip(k) =~= s.skip(k + 1));
        }
        if exists|k: int| 0 <= k <= s.len() && glob(p, #[trigger] s.skip(k)) {
            let k = choose|k: int| 0 <= k <= s.len() && glob(p, #[trigger] s.skip(k));
            if k > 0 {
                assert(t.skip(k - 1) =~= s.skip(k));
            }
        }
    } else if exists|k: int| 0 <= k <= s.len() && glob(p, #[trigger] s.skip(k)) {
        let k = choose|k: int| 0 <= k <= s.len() && glob(p, #[trigger] s.skip(k));
        assert(k == 0);
    }
}

/// A byte with no meaning of its own takes itself, and the rest of the pattern
/// stands for the rest.
pub proof fn plain_first(b: u8, p: Seq<u8>, s: Seq<u8>)
    requires
        b != 42,
        b != 63,
        b != 91,
        b != 92,
    ensures
        glob(seq![b] + p, s) <==> s.len() > 0 && s[0] == b && glob(p, s.skip(1)),
{
    assert((seq![b] + p).skip(1) =~= p);
}

/// A backslash makes any byte take itself. At the end of the pattern it takes
/// itself.
pub proof fn escape_first(b: u8, p: Seq<u8>, s: Seq<u8>)
    ensures
        glob(seq![92u8, b] + p, s) <==> s.len() > 0 && s[0] == b && glob(p, s.skip(1)),
        glob(seq![92u8], s) <==> s == seq![92u8],
{
    assert((seq![92u8, b] + p).skip(2) =~= p);
    assert(seq![92u8].skip(1) =~= Seq::<u8>::empty());
    empty_pattern(s.skip(1));
    if s.len() > 0 && s.skip(1).len() == 0 && s[0] == 92 {
        assert(s =~= seq![92u8]);
    }
}

/// A class takes one byte that it lists or, with `^` in front, one that it does
/// not list. The rest of the pattern, behind the class, stands for the rest.
pub proof fn class_first(p: Seq<u8>, s: Seq<u8>)
    ensures
        glob(seq![91u8, 94u8] + p, s) <==> {
            &&& s.len() > 0
            &&& !class_rest(p, s[0]).0
            &&& glob(class_rest(p, s[0]).1, s.skip(1))
        },
        p.len() == 0 || p[0] != 94 ==> (glob(seq![91u8] + p, s) <==> {
            &&& s.len() > 0
            &&& class_rest(p, s[0]).0
            &&& glob(class_rest(p, s[0]).1, s.skip(1))
        }),
{
    assert((seq![91u8] + p).skip(1) =~= p);
    let q = seq![94u8] + p;
    assert((seq![91u8, 94u8] + p).skip(1) =~= q);
    assert(q.skip(1) =~= p);
}

/// What a class lists: bytes, bytes behind a backslash, and ranges with both of
/// their ends, up to the closing bracket or else the end of the pattern.
pub proof fn class_lists(b: u8, last: u8, p: Seq<u8>, c: u8)
    ensures
        class_rest(Seq::empty(), c) == (false, Seq::<u8>::empty()),
        class_rest(seq![93u8] + p, c) == (false, p),
        class_rest(seq![92u8, b] + p, c) == (c == b || class_rest(p, c).0, class_rest(p, c).1),
        class_rest(seq![92u8], c) == (c == 92, Seq::<u8>::empty()),
        b != 92 && b != 93 ==> class_rest(seq![b, 45u8, last] + p, c) == (
            b <= c <= last || last <= c <= b || class_rest(p, c).0,
            class_rest(p, c).1,
        ),
        b != 92 && b != 93 && (p.len() < 2 || p[0] != 45) ==> class_rest(seq![b] + p, c) == (
            c == b || class_rest(p, c).0,
            class_rest(p, c).1,
        ),
{
    reveal_with_fuel(class_rest, 2);
    assert((seq![93u8] + p).skip(1) =~= p);
    assert((seq![92u8, b] + p).skip(2) =~= p);
    assert(seq![92u8].skip(1) =~= Seq::<u8>::empty());
    assert((seq![b, 45u8, last] + p).skip(3) =~= p);
    assert((seq![b] + p).skip(1) =~= p);
}

/// A class with one range stands for the bytes from the first to the last, both
/// included, in whichever order the ends are given. With `^` in front it stands
/// for all other bytes.
pub proof fn range_pattern(low: u8, high: u8, c: u8)
    requires
        low != CLOSE,
        low != ESCAPE,
    ensures
        low <= high && low != CARET ==> (glob(seq![OPEN, low, DASH, high, CLOSE], seq![c]) <==> low <= c <= high),
        high <= low && low != CARET ==> (glob(seq![OPEN, low, DASH, high, CLOSE], seq![c]) <==> high <= c <= low),
        low <= high ==> (glob(seq![OPEN, CARET, low, DASH, high, CLOSE], seq![c]) <==> c < low || high < c),
        high <= low ==> (glob(seq![OPEN, CARET, low, DASH, high, CLOSE], seq![c]) <==> c < high || low < c),
{
    let none = Seq::<u8>::empty();
    let close = seq![93u8];
    assert(close + none =~= close);
    class_lists(low, high, none, c);
    class_lists(low, high, close, c);
    let inner = seq![low, 45u8, high] + close;
    class_first(inner, seq![c]);
    assert(seq![c].skip(1) =~= none);
    assert(seq![91u8] + inner =~= seq![OPEN, low, DASH, high, CLOSE]);
    assert(seq![91u8, 94u8] + inner =~= seq![OPEN, CARET, low, DASH, high, CLOSE]);
    empty_pattern(none);
}

/// A class that lists bytes with no meaning of their own in it stands for these
/// and no others.
pub proof fn class_of_bytes(listed: Seq<u8>, p: Seq<u8>, c: u8)
    requires
        forall|i: int| 0 <= i < listed.len() ==> (#[trigger] listed[i]) != 93 && listed[i] != 92 && listed[i] != 45,
        p.len() > 0 && p[0] == 93,
    ensures
        class_rest(listed + p, c) == (listed.contains(c), p.skip(1)),
    decreases listed.len(),
{
    if listed.len() == 0 {
        assert(listed + p =~= p);
        assert(p =~= seq![93u8] + p.skip(1));
    } else {
        let more = listed.skip(1);
        assert forall|i: int| 0 <= i < more.len() implies (#[trigger] more[i]) != 93 && more[i] != 92 && more[i] != 45 by {
            assert(more[i] == listed[i + 1]);
        }
        assert(listed[0] != 93 && listed[0] != 92);
        class_of_bytes(more, p, c);
        assert(listed + p =~= seq![listed[0]] + (more + p));
        assert((more + p)[0] == if more.len() > 0 { listed[1] } else { p[0] });
        if more.len() > 0 {
            assert(listed[1] != 45);
        }
        class_lists(listed[0], 0, more + p, c);
        if listed.contains(c) {
            let i = listed.index_of(c);
            assert(listed[i] == c);
            if i > 0 {
                assert(more[i - 1] == c);
            }
        }
        if more.contains(c) {
            let i = more.index_of(c);
            assert(more[i] == c);
            assert(listed[i + 1] == c);
        }
    }
}

/// Only the four bytes that begin something have a meaning of their own.
pub proof fn literal_bytes(p: Seq<u8>)
    ensures
        is_literal(p) <==> !p.contains(42) && !p.contains(63) && !p.contains(91) && !p.contains(92),
{
    if !p.contains(42) && !p.contains(63) && !p.contains(91) && !p.contains(92) {
        assert forall|i: int| 0 <= i < p.len() implies (#[trigger] p[i]) != STAR && p[i] != QUESTION && p[i] != OPEN && p[i] != ESCAPE by {
            assert(p.contains(p[i]));
        }
    }
}

} // verus!
