//! The lexicographic order of byte strings.

use vstd::prelude::*;

verus! {

/// How one value stands to another in a total order.
#[derive(Clone, Copy, Debug, PartialEq, Eq, Structural)]
pub enum Order {
    Less,
    Equal,
    Greater,
}

/// Whether `a` comes strictly before `b`: at the first place where they
/// differ the byte of `a` is smaller, or `a` is a proper prefix of `b`.
pub open spec fn lex_less(a: Seq<u8>, b: Seq<u8>) -> bool
    decreases a.len(),
{
    if b.len() == 0 {
        false
    } else if a.len() == 0 {
        true
    } else if a[0] != b[0] {
        a[0] < b[0]
    } else {
        lex_less(a.skip(1), b.skip(1))
    }
}

/// No byte string comes before itself.
pub proof fn lex_less_irreflexive(a: Seq<u8>)
    ensures
        !lex_less(a, a),
    decreases a.len(),
{
    if a.len() > 0 {
        lex_less_irreflexive(a.skip(1));
    }
}

/// The order is transitive.
pub proof fn lex_less_transitive(a: Seq<u8>, b: Seq<u8>, c: Seq<u8>)
    requires
        lex_less(a, b),
        lex_less(b, c),
    ensures
        lex_less(a, c),
    decreases a.len(),
{
    if a.len() > 0 && a[0] == b[0] && b[0] == c[0] {
        lex_less_transitive(a.skip(1), b.skip(1), c.skip(1));
    }
}

/// Of two different byte strings one comes before the other.
pub proof fn lex_less_total(a: Seq<u8>, b: Seq<u8>)
    ensures
        a == b || lex_less(a, b) || lex_less(b, a),
    decreases a.len(),
{
    if a.len() > 0 && b.len() > 0 && a[0] == b[0] {
        lex_less_total(a.skip(1), b.skip(1));
        if a.skip(1) == b.skip(1) {
            assert(a =~= seq![a[0]] + a.skip(1));
            assert(b =~= seq![b[0]] + b.skip(1));
        }
    } else if a.len() == 0 && b.len() == 0 {
        assert(a =~= b);
    }
}

/// Compares two byte strings.
pub fn compare(a: &Vec<u8>, b: &Vec<u8>) -> (order: Order)
    ensures
        order is Less <==> lex_less(a@, b@),
        order is Equal <==> a@ == b@,
        order is Greater <==> lex_less(b@, a@),
{
    let mut i: usize = 0;
    proof {
        lex_less_total(a@, b@);
        assert(a@.skip(0) =~= a@);
        assert(b@.skip(0) =~= b@);
        if lex_less(a@, b@) {
            lex_less_irreflexive(a@);
            if lex_less(b@, a@) {
                lex_less_transitive(a@, b@, a@);
            }
        }
        lex_less_irreflexive(b@);
    }
    while i < a.len() && i < b.len()
        invariant
            i <= a.len(),
            i <= b.len(),
            a@.take(i as int) == b@.take(i as int),
            lex_less(a@, b@) == lex_less(a@.skip(i as int), b@.skip(i as int)),
            lex_less(b@, a@) == lex_less(b@.skip(i as int), a@.skip(i as int)),
            a@ == b@ ==> !lex_less(a@, b@),
            !(lex_less(a@, b@) && lex_less(b@, a@)),
        decreases a.len() - i,
    {
        if a[i] < b[i] {
            return Order::Less;
        }
        if b[i] < a[i] {
            return Order::Greater;
        }
        proof {
            assert(a@.skip(i as int).skip(1) =~= a@.skip(i + 1));
            assert(b@.skip(i as int).skip(1) =~= b@.skip(i + 1));
            assert(a@.take(i + 1) =~= a@.take(i as int).push(a@[i as int]));
            assert(b@.take(i + 1) =~= b@.take(i as int).push(b@[i as int]));
        }
        i += 1;
    }
    if a.len() < b.len() {
        Order::Less
    } else if b.len() < a.len() {
        Order::Greater
    } else {
        proof {
            assert(a@.take(i as int) =~= a@);
            assert(b@.take(i as int) =~= b@);
        }
        Order::Equal
    }
}

/// Whether two byte strings are equal.
pub fn same(a: &Vec<u8>, b: &Vec<u8>) -> (r: bool)
    ensures
        r == (a@ == b@),
{
    let r: bool = a == b;
    proof {
        if r {
            assert(a@ =~= b@);
        }
    }
    r
}

/// A copy of a byte string.
pub fn copy(a: &Vec<u8>) -> (r: Vec<u8>)
    ensures
        r@ == a@,
{
    let r: Vec<u8> = a.clone();
    proof {
        assert(r@ =~= a@);
    }
    r
}

/// At the first place where byte strings differ the smaller byte decides.
pub proof fn lex_first_difference(a: Seq<u8>, b: Seq<u8>, n: int)
    requires
        0 <= n < a.len(),
        n < b.len(),
        forall|i: int| 0 <= i < n ==> a[i] == b[i],
        a[n] != b[n],
    ensures
        lex_less(a, b) <==> a[n] < b[n],
    decreases n,
{
    if n > 0 {
        lex_first_difference(a.skip(1), b.skip(1), n - 1);
    }
}

/// A byte string comes before all longer ones that begin with it.
pub proof fn lex_prefix_first(a: Seq<u8>, more: Seq<u8>)
    ensures
        lex_less(a, a + more) <==> more.len() > 0,
        !lex_less(a + more, a),
    decreases a.len(),
{
    if a.len() > 0 {
        assert((a + more).skip(1) =~= a.skip(1) + more);
        lex_prefix_first(a.skip(1), more);
    }
}

} // verus!
