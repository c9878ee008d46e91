//! Random choices, and what is chosen by them.

use vstd::prelude::*;

use crate::adapters::random::{choose_below, random_choice};
use crate::assoc::texts;
use crate::lex::copy;

verus! {

/// Whether numbers can each choose one of the elements that the numbers before
/// have left: the first of all `n`, the second of one fewer, and so on.
pub open spec fn drawable(draws: Seq<usize>, n: nat) -> bool {
    &&& draws.len() <= n
    &&& forall|i: int| 0 <= i < draws.len() ==> (#[trigger] draws[i]) < n - i
}

/// The elements that the numbers choose. One that is chosen is not there for
/// the next number.
pub open spec fn drawn<A>(pool: Seq<A>, draws: Seq<usize>) -> Seq<A>
    decreases draws.len(),
{
    if draws.len() == 0 {
        Seq::empty()
    } else {
        seq![pool[draws[0] as int]] + drawn(pool.remove(draws[0] as int), draws.skip(1))
    }
}

/// The elements at the given indexes.
pub open spec fn picked<A>(pool: Seq<A>, draws: Seq<usize>) -> Seq<A> {
    Seq::new(draws.len(), |i: int| pool[draws[i] as int])
}

/// Whether the generator has given the numbers, each to choose one of the
/// elements that the numbers before have left.
pub open spec fn drawn_at_random(draws: Seq<usize>, n: nat) -> bool {
    &&& drawable(draws, n)
    &&& forall|i: int| 0 <= i < draws.len() ==> random_choice((n - i) as usize, #[trigger] draws[i])
}

/// Whether the generator has given the numbers, each to choose one of all
/// elements.
pub open spec fn picked_at_random(draws: Seq<usize>, n: nat) -> bool {
    forall|i: int| 0 <= i < draws.len() ==> (#[trigger] draws[i]) < n && random_choice(n as usize, draws[i])
}

/// Whether elements are those that numbers of the generator choose, each once
/// at most or any as often as it comes.
pub open spec fn chosen_at_random<A>(pool: Seq<A>, allow_duplicates: bool, chosen: Seq<A>) -> bool {
    if allow_duplicates {
        exists|draws: Seq<usize>| #[trigger] picked_at_random(draws, pool.len()) && chosen == picked(pool, draws)
    } else {
        exists|draws: Seq<usize>| #[trigger] drawn_at_random(draws, pool.len()) && chosen == drawn(pool, draws)
    }
}

/// Elements that are all different are chosen once at most, one by each number.
pub proof fn drawn_distinct<A>(pool: Seq<A>, draws: Seq<usize>)
    requires
        pool.no_duplicates(),
        drawable(draws, pool.len()),
    ensures
        drawn(pool, draws).len() == draws.len(),
        drawn(pool, draws).no_duplicates(),
        forall|i: int| 0 <= i < draws.len() ==> pool.contains(#[trigger] drawn(pool, draws)[i]),
    decreases draws.len(),
{
    if draws.len() > 0 {
        let at = draws[0] as int;
        let rest = pool.remove(at);
        let others = drawn(rest, draws.skip(1));
        assert(rest.no_duplicates()) by {
            assert forall|i: int, j: int| 0 <= i < rest.len() && 0 <= j < rest.len() && i != j implies rest[i] != rest[j] by {
                let i1 = if i < at { i } else { i + 1 };
                let j1 = if j < at { j } else { j + 1 };
                assert(rest[i] == pool[i1] && rest[j] == pool[j1]);
            }
        }
        assert forall|i: int| 0 <= i < draws.skip(1).len() implies (#[trigger] draws.skip(1)[i]) < rest.len() - i by {
            assert(draws.skip(1)[i] == draws[i + 1]);
        }
        drawn_distinct(rest, draws.skip(1));
        let all = drawn(pool, draws);
        assert(all =~= seq![pool[at]] + others);
        assert forall|i: int| 0 <= i < others.len() implies pool.contains(#[trigger] others[i]) && others[i] != pool[at] by {
            assert(rest.contains(others[i]));
            let j = rest.index_of(others[i]);
            assert(rest[j] == others[i]);
            let j1 = if j < at { j } else { j + 1 };
            assert(pool[j1] == others[i]);
        }
        assert forall|i: int| 0 <= i < draws.len() implies pool.contains(#[trigger] all[i]) by {
            if i == 0 {
                assert(all[0] == pool[at]);
            } else {
                assert(all[i] == others[i - 1]);
            }
        }
        assert forall|i: int, j: int| 0 <= i < all.len() && 0 <= j < all.len() && i != j implies all[i] != all[j] by {
            if i > 0 {
                assert(all[i] == others[i - 1]);
            }
            if j > 0 {
                assert(all[j] == others[j - 1]);
            }
        }
    }
}

/// Chooses by the given numbers, each of what the ones before have left.
pub fn draw(pool: Vec<Vec<u8>>, draws: &Vec<usize>) -> (r: Vec<Vec<u8>>)
    requires
        drawable(draws@, pool@.len()),
    ensures
        texts(r@) == drawn(texts(pool@), draws@),
{
    let ghost all = texts(pool@);
    let mut left: Vec<Vec<u8>> = pool;
    let mut r: Vec<Vec<u8>> = Vec::new();
    let mut i: usize = 0;
    proof {
        assert(draws@.skip(0) =~= draws@);
        assert(texts(r@) + drawn(texts(left@), draws@.skip(0)) =~= drawn(all, draws@));
    }
    while i < draws.len()
        invariant
            i <= draws.len(),
            left.len() + i == all.len(),
            drawable(draws@, all.len()),
            texts(r@) + drawn(texts(left@), draws@.skip(i as int)) == drawn(all, draws@),
        decreases draws.len() - i,
    {
        let at: usize = draws[i];
        let ghost pool_before = texts(left@);
        let ghost r_before = texts(r@);
        let ghost rest = draws@.skip(i as int);
        proof {
            assert(draws@[i as int] < all.len() - i);
        }
        let el = left.remove(at);
        r.push(el);
        i += 1;
        proof {
            assert(rest.skip(1) =~= draws@.skip(i as int));
            assert(texts(left@) =~= pool_before.remove(at as int));
            assert(texts(r@) =~= r_before.push(pool_before[at as int]));
            assert(r_before + (seq![pool_before[at as int]] + drawn(texts(left@), rest.skip(1))) =~= texts(r@) + drawn(
                texts(left@),
                rest.skip(1),
            ));
        }
    }
    proof {
        assert(texts(r@) + drawn(texts(left@), draws@.skip(i as int)) =~= texts(r@));
    }
    r
}

/// Copies the elements at the given indexes.
pub fn pick(pool: &Vec<Vec<u8>>, draws: &Vec<usize>) -> (r: Vec<Vec<u8>>)
    requires
        forall|i: int| 0 <= i < draws.len() ==> #[trigger] draws[i] < pool.len(),
    ensures
        texts(r@) == picked(texts(pool@), draws@),
{
    let mut r: Vec<Vec<u8>> = Vec::new();
    let mut i: usize = 0;
    while i < draws.len()
        invariant
            i <= draws.len(),
            r.len() == i,
            forall|j: int| 0 <= j < draws.len() ==> #[trigger] draws[j] < pool.len(),
            forall|j: int| 0 <= j < i ==> (#[trigger] r[j])@ == pool[draws[j] as int]@,
        decreases draws.len() - i,
    {
        r.push(copy(&pool[draws[i]]));
        i += 1;
    }
    proof {
        assert(texts(r@) =~= picked(texts(pool@), draws@));
    }
    r
}

/// Random numbers that choose up to `count` of `n` elements, none twice.
pub fn random_draws(count: usize, n: usize) -> (r: Vec<usize>)
    ensures
        drawn_at_random(r@, n as nat),
        r.len() == if count < n {
            count
        } else {
            n
        },
{
    let most: usize = if count < n { count } else { n };
    let mut r: Vec<usize> = Vec::new();
    while r.len() < most
        invariant
            r.len() <= most <= n,
            drawn_at_random(r@, n as nat),
        decreases most - r.len(),
    {
        let next: usize = choose_below(n - r.len());
        r.push(next);
    }
    r
}

/// As many random indexes into `n` elements.
pub fn random_indexes(count: usize, n: usize) -> (r: Vec<usize>)
    requires
        n > 0,
    ensures
        r.len() == count,
        picked_at_random(r@, n as nat),
{
    let mut r: Vec<usize> = Vec::new();
    while r.len() < count
        invariant
            n > 0,
            r.len() <= count,
            picked_at_random(r@, n as nat),
        decreases count - r.len(),
    {
        r.push(choose_below(n));
    }
    r
}

/// The first number chooses the element at its place, and the others choose of
/// what is left.
pub proof fn drawn_first<A>(a: Seq<A>, x: A, b: Seq<A>, rest: Seq<usize>)
    requires
        a.len() <= usize::MAX,
    ensures
        drawn(a + seq![x] + b, seq![a.len() as usize] + rest) == seq![x] + drawn(a + b, rest),
        drawn(a, Seq::empty()) == Seq::<A>::empty(),
{
    let pool = a + seq![x] + b;
    let draws = seq![a.len() as usize] + rest;
    assert(draws.skip(1) =~= rest);
    assert(pool.remove(a.len() as int) =~= a + b);
    assert(pool[a.len() as int] == x);
}

/// Indexes pick the elements that stand there, in the order of the indexes.
pub proof fn picked_elements<A>(pool: Seq<A>, draws: Seq<usize>, i: int)
    requires
        0 <= i < draws.len(),
    ensures
        picked(pool, draws).len() == draws.len(),
        picked(pool, draws)[i] == pool[draws[i] as int],
{
}

/// Numbers can choose elements, and are such of the generator, if the first is
/// one for all elements and the others are such for one element fewer.
pub proof fn draws_by_first(d: usize, rest: Seq<usize>, n: nat)
    requires
        0 < n <= usize::MAX,
    ensures
        drawable(Seq::empty(), n),
        drawable(Seq::empty(), 0),
        !drawable(seq![d] + rest, 0),
        drawable(seq![d] + rest, n) <==> d < n && drawable(rest, (n - 1) as nat),
        drawn_at_random(Seq::empty(), n),
        drawn_at_random(Seq::empty(), 0),
        drawn_at_random(seq![d] + rest, n) <==> d < n && random_choice(n as usize, d) && drawn_at_random(rest, (n - 1) as nat),
        picked_at_random(Seq::empty(), n),
        picked_at_random(seq![d] + rest, n) <==> d < n && random_choice(n as usize, d) && picked_at_random(rest, n),
{
    let all = seq![d] + rest;
    assert(all[0] == d);
    assert forall|i: int| 0 <= i < rest.len() implies all[i + 1] == #[trigger] rest[i] by {}
    if drawable(all, n) {
        assert forall|i: int| 0 <= i < rest.len() implies (#[trigger] rest[i]) < (n - 1) - i by {
            assert(all[i + 1] < n - (i + 1));
        }
    }
    if d < n && drawable(rest, (n - 1) as nat) {
        assert forall|i: int| 0 <= i < all.len() implies (#[trigger] all[i]) < n - i by {
            if i > 0 {
                assert(rest[i - 1] < (n - 1) - (i - 1));
            }
        }
    }
    if drawn_at_random(all, n) {
        assert forall|i: int| 0 <= i < rest.len() implies random_choice(((n - 1) as nat - i) as usize, #[trigger] rest[i]) by {
            assert(random_choice((n - (i + 1)) as usize, all[i + 1]));
        }
        assert(random_choice((n - 0) as usize, all[0]));
    }
    if d < n && random_choice(n as usize, d) && drawn_at_random(rest, (n - 1) as nat) {
        assert forall|i: int| 0 <= i < all.len() implies random_choice((n - i) as usize, #[trigger] all[i]) by {
            if i > 0 {
                assert(random_choice(((n - 1) as nat - (i - 1)) as usize, rest[i - 1]));
            }
        }
    }
    if picked_at_random(all, n) {
        assert forall|i: int| 0 <= i < rest.len() implies (#[trigger] rest[i]) < n && random_choice(n as usize, rest[i]) by {
            assert(all[i + 1] < n);
        }
    }
    if d < n && random_choice(n as usize, d) && picked_at_random(rest, n) {
        assert forall|i: int| 0 <= i < all.len() implies (#[trigger] all[i]) < n && random_choice(n as usize, all[i]) by {
            if i > 0 {
                assert(rest[i - 1] < n);
            }
        }
    }
}

/// What is chosen is chosen one by one: the first is an element that a number
/// of the generator points at, and the others are chosen of what may come then:
/// of all elements again, or of those that are left.
pub proof fn chosen_by_first<A>(pool: Seq<A>, allow_duplicates: bool, chosen: Seq<A>)
    requires
        chosen_at_random(pool, allow_duplicates, chosen),
        chosen.len() > 0,
        pool.len() <= usize::MAX,
    ensures
        exists|d: usize| {
            &&& d < pool.len()
            &&& #[trigger] random_choice(pool.len() as usize, d)
            &&& chosen[0] == pool[d as int]
            &&& chosen_at_random(
                if allow_duplicates {
                    pool
                } else {
                    pool.remove(d as int)
                },
                allow_duplicates,
                chosen.skip(1),
            )
        },
{
    let n = pool.len();
    if allow_duplicates {
        let draws = choose|draws: Seq<usize>| #[trigger] picked_at_random(draws, n) && chosen == picked(pool, draws);
        let d = draws[0];
        let rest = draws.skip(1);
        assert(draws =~= seq![d] + rest);
        assert(draws[0] < n);
        draws_by_first(d, rest, n);
        assert(chosen.skip(1) =~= picked(pool, rest));
        assert(picked_at_random(rest, n));
        assert(random_choice(n as usize, d));
    } else {
        let draws = choose|draws: Seq<usize>| #[trigger] drawn_at_random(draws, n) && chosen == drawn(pool, draws);
        let d = draws[0];
        let rest = draws.skip(1);
        let left = pool.remove(d as int);
        assert(draws =~= seq![d] + rest);
        assert(draws[0] < n - 0);
        draws_by_first(d, rest, n);
        assert(chosen.skip(1) =~= drawn(left, rest));
        assert(drawn_at_random(rest, left.len()));
        assert(random_choice(n as usize, d));
    }
}

} // verus!
