//! Whole numbers written in decimal digits.

use vstd::arithmetic::power::pow;
use vstd::prelude::*;

verus! {

/// Whether the bytes are decimal digits, at least one.
pub open spec fn is_digits(s: Seq<u8>) -> bool {
    &&& s.len() > 0
    &&& forall|i: int| 0 <= i < s.len() ==> 48 <= #[trigger] s[i] <= 57
}

/// The number that decimal digits stand for.
pub open spec fn digits_value(s: Seq<u8>) -> int
    decreases s.len(),
{
    if s.len() == 0 {
        0
    } else {
        digits_value(s.drop_last()) * 10 + (s.last() - 48)
    }
}

/// The number that a text stands for: digits, with a sign before them or not.
pub open spec fn numeric(s: Seq<u8>) -> Option<int> {
    if s.len() > 0 && s[0] == 45 {
        if is_digits(s.skip(1)) {
            Some(-digits_value(s.skip(1)))
        } else {
            None
        }
    } else if s.len() > 0 && s[0] == 43 {
        if is_digits(s.skip(1)) {
            Some(digits_value(s.skip(1)))
        } else {
            None
        }
    } else if is_digits(s) {
        Some(digits_value(s))
    } else {
        None
    }
}

/// The digits of a number that is not negative, without leading zeros.
pub open spec fn digits_of(n: int) -> Seq<u8>
    decreases n,
{
    if n < 10 {
        seq![(48 + n) as u8]
    } else {
        digits_of(n / 10).push((48 + n % 10) as u8)
    }
}

/// The text of a number: its digits, after a minus sign if it is negative.
pub open spec fn decimal_text(n: int) -> Seq<u8> {
    if n < 0 {
        seq![45u8] + digits_of(-n)
    } else {
        digits_of(n)
    }
}

/// The digits of a number stand for it.
pub proof fn lemma_digits_of(n: int)
    requires
        n >= 0,
    ensures
        is_digits(digits_of(n)),
        digits_value(digits_of(n)) == n,
    decreases n,
{
    if n < 10 {
        let s = seq![(48 + n) as u8];
        assert(s.drop_last() =~= Seq::<u8>::empty());
        assert(digits_value(s.drop_last()) == 0);
    } else {
        lemma_digits_of(n / 10);
        let s = digits_of(n);
        assert(s.drop_last() =~= digits_of(n / 10));
    }
}

/// The text of a number stands for that number.
pub proof fn decimal_text_numeric(n: int)
    ensures
        numeric(decimal_text(n)) == Some(n),
{
    if n < 0 {
        lemma_digits_of(-n);
        assert(decimal_text(n).skip(1) =~= digits_of(-n));
    } else {
        lemma_digits_of(n);
    }
}

/// Different numbers have different texts.
pub proof fn decimal_text_injective(a: int, b: int)
    requires
        decimal_text(a) == decimal_text(b),
    ensures
        a == b,
{
    decimal_text_numeric(a);
    decimal_text_numeric(b);
}

/// More digits stand for a number that is no smaller.
proof fn lemma_digits_value_grows(s: Seq<u8>, n: int)
    requires
        is_digits(s),
        0 <= n <= s.len(),
    ensures
        0 <= digits_value(s.take(n)) <= digits_value(s),
    decreases s.len(),
{
    if n == s.len() {
        assert(s.take(n) =~= s);
        if n > 1 {
            lemma_digits_value_grows(s.drop_last(), n - 1);
            assert(s.drop_last().take(n - 1) =~= s.drop_last());
        } else {
            assert(s.drop_last() =~= Seq::<u8>::empty());
            assert(digits_value(s.drop_last()) == 0);
        }
    } else if s.len() > 1 {
        lemma_digits_value_grows(s.drop_last(), n);
        assert(s.drop_last().take(n) =~= s.take(n));
    } else {
        assert(s.take(n) =~= Seq::<u8>::empty());
        assert(digits_value(s.take(n)) == 0);
        assert(s.drop_last() =~= Seq::<u8>::empty());
        assert(digits_value(s.drop_last()) == 0);
    }
}

/// The largest magnitude of a 64-bit number.
const LIMIT: u64 = 0x8000_0000_0000_0000;

/// Reads digits from an index to the end. There is no result for what is not
/// digits, nor for numbers beyond the largest magnitude.
fn parse_digits(v: &Vec<u8>, from: usize) -> (r: Option<u64>)
    requires
        from <= v.len(),
    ensures
        match r {
            Some(n) => is_digits(v@.skip(from as int)) && n == digits_value(v@.skip(from as int)) && n <= LIMIT,
            None => is_digits(v@.skip(from as int)) ==> digits_value(v@.skip(from as int)) > LIMIT,
        },
{
    if from == v.len() {
        return None;
    }
    let ghost s = v@.skip(from as int);
    let mut value: u64 = 0;
    let mut i: usize = from;
    proof {
        assert(s.take(0) =~= Seq::<u8>::empty());
        assert(digits_value(s.take(0)) == 0);
    }
    while i < v.len()
        invariant
            from <= i <= v.len(),
            from < v.len(),
            s == v@.skip(from as int),
            forall|j: int| 0 <= j < i - from ==> 48 <= #[trigger] s[j] <= 57,
            value == digits_value(s.take(i - from)),
            value <= LIMIT,
        decreases v.len() - i,
    {
        let byte: u8 = v[i];
        proof {
            assert(byte == s[i - from]);
            assert(s.take(i + 1 - from).drop_last() =~= s.take(i - from));
        }
        if byte < 48 || byte > 57 {
            return None;
        }
        let next: u128 = value as u128 * 10 + (byte - 48) as u128;
        proof {
            assert(next == digits_value(s.take(i + 1 - from)));
        }
        if next > LIMIT as u128 {
            proof {
                if is_digits(s) {
                    lemma_digits_value_grows(s, i + 1 - from);
                }
            }
            return None;
        }
        value = next as u64;
        i += 1;
    }
    proof {
        assert(s.take(i - from) =~= s);
    }
    Some(value)
}

/// Reads a number with its sign. There is no result for what does not stand
/// for a number, nor for numbers that do not fit.
pub fn parse_i64(v: &Vec<u8>) -> (r: Option<i64>)
    ensures
        match r {
            Some(n) => numeric(v@) == Some(n as int),
            None => match numeric(v@) {
                Some(n) => n < i64::MIN || n > i64::MAX,
                None => true,
            },
        },
{
    if v.len() > 0 && v[0] == 45 {
        match parse_digits(v, 1) {
            Some(n) => {
                if n == LIMIT {
                    Some(i64::MIN)
                } else {
                    let m: i64 = n as i64;
                    Some(-m)
                }
            },
            None => None,
        }
    } else if v.len() > 0 && v[0] == 43 {
        match parse_digits(v, 1) {
            Some(n) => {
                if n < LIMIT {
                    Some(n as i64)
                } else {
                    None
                }
            },
            None => None,
        }
    } else {
        proof {
            assert(v@.skip(0) =~= v@);
        }
        match parse_digits(v, 0) {
            Some(n) => {
                if n < LIMIT {
                    Some(n as i64)
                } else {
                    None
                }
            },
            None => None,
        }
    }
}

/// Writes the digits of a number at the end of a text.
fn push_digits(out: &mut Vec<u8>, n: u64)
    ensures
        final(out)@ == old(out)@ + digits_of(n as int),
    decreases n,
{
    if n >= 10 {
        push_digits(out, n / 10);
    }
    out.push(48 + (n % 10) as u8);
    proof {
        if n < 10 {
            assert(out@ =~= old(out)@ + digits_of(n as int));
        } else {
            assert(out@ =~= old(out)@ + digits_of(n as int / 10).push((48 + n as int % 10) as u8));
        }
    }
}

/// The text of a number.
pub fn to_text(n: i64) -> (r: Vec<u8>)
    ensures
        r@ == decimal_text(n as int),
{
    let mut r: Vec<u8> = Vec::new();
    if n < 0 {
        r.push(45);
        let m: u64 = if n == i64::MIN { LIMIT } else { (-n) as u64 };
        push_digits(&mut r, m);
        proof {
            assert(r@ =~= decimal_text(n as int));
        }
    } else {
        push_digits(&mut r, n as u64);
        proof {
            assert(r@ =~= decimal_text(n as int));
        }
    }
    r
}

/// The number of which the bytes are the text.
pub fn number_of_text(v: &Vec<u8>) -> (r: Option<i64>)
    ensures
        match r {
            Some(n) => decimal_text(n as int) == v@,
            None => forall|n: i64| #[trigger] decimal_text(n as int) != v@,
        },
{
    match parse_i64(v) {
        Some(n) => {
            let text = to_text(n);
            if crate::lex::same(&text, v) {
                Some(n)
            } else {
                proof {
                    assert forall|k: i64| #[trigger] decimal_text(k as int) != v@ by {
                        decimal_text_numeric(k as int);
                    }
                }
                None
            }
        },
        None => {
            proof {
                assert forall|k: i64| #[trigger] decimal_text(k as int) != v@ by {
                    decimal_text_numeric(k as int);
                }
            }
            None
        },
    }
}

/// Bytes stand for a number only if they are digits, with one sign before them
/// at most and at least one digit.
pub proof fn numeric_only_digits(s: Seq<u8>)
    requires
        numeric(s) is Some,
    ensures
        s.len() > 0,
        48 <= s[0] <= 57 || ((s[0] == 43 || s[0] == 45) && s.len() > 1),
        forall|i: int| 0 < i < s.len() ==> 48 <= #[trigger] s[i] <= 57,
{
    assert forall|i: int| 0 < i < s.len() implies 48 <= #[trigger] s[i] <= 57 by {
        if s[0] == 43 || s[0] == 45 {
            assert(s.skip(1)[i - 1] == s[i]);
        }
    }
    if s[0] == 43 || s[0] == 45 {
        assert(s.skip(1).len() > 0);
    }
}

/// Digits stand for the number that they make up, a plus sign before them
/// changes nothing, and a minus sign makes the number negative.
pub proof fn numeric_signs(d: Seq<u8>)
    requires
        d.len() > 0,
        forall|i: int| 0 <= i < d.len() ==> 48 <= #[trigger] d[i] <= 57,
    ensures
        numeric(d) == Some(digits_value(d)),
        numeric(seq![43u8] + d) == Some(digits_value(d)),
        numeric(seq![45u8] + d) == Some(-digits_value(d)),
        digits_value(d) >= 0,
{
    assert((seq![43u8] + d).skip(1) =~= d);
    assert((seq![45u8] + d).skip(1) =~= d);
    lemma_digits_value_grows(d, 0);
}

/// Digits make up a number by their places: those in front count ten times for
/// each that follows.
pub proof fn digits_by_place(a: Seq<u8>, b: Seq<u8>, c: u8)
    ensures
        digits_value(Seq::<u8>::empty()) == 0,
        digits_value(seq![c]) == c - 48,
        digits_value(a + b) == digits_value(a) * pow(10, b.len()) + digits_value(b),
    decreases b.len(),
{
    assert(seq![c].drop_last() =~= Seq::<u8>::empty());
    assert(digits_value(seq![c].drop_last()) == 0);
    reveal(pow);
    if b.len() == 0 {
        assert(a + b =~= a);
        assert(pow(10, 0) == 1);
    } else {
        let front = b.drop_last();
        digits_by_place(a, front, c);
        assert((a + b).drop_last() =~= a + front);
        let p = pow(10, front.len());
        let x = digits_value(a);
        assert(x * p * 10 == x * (10 * p)) by (nonlinear_arith);
    }
}

/// The text of a number has a minus sign if it is negative and no sign if not,
/// and begins with a zero only if it is zero.
pub proof fn decimal_text_shortest(n: int)
    ensures
        decimal_text(n).len() > 0,
        n < 0 <==> decimal_text(n)[0] == 45,
        n >= 0 ==> 48 <= decimal_text(n)[0] <= 57,
        n > 0 ==> decimal_text(n)[0] != 48,
        n < 0 ==> decimal_text(n).len() > 1 && decimal_text(n)[1] != 48,
        n == 0 ==> decimal_text(n) == seq![48u8],
{
    lemma_leading_digit(if n < 0 { -n } else { n });
    if n < 0 {
        lemma_digits_of(-n);
    } else {
        lemma_digits_of(n);
    }
}

/// The digits of a number begin with a zero only if it is zero.
proof fn lemma_leading_digit(n: int)
    requires
        n >= 0,
    ensures
        digits_of(n).len() > 0,
        n > 0 ==> digits_of(n)[0] != 48,
    decreases n,
{
    if n >= 10 {
        lemma_leading_digit(n / 10);
    }
}

} // verus!
