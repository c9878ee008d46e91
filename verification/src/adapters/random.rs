//! `rand`.

use rand::Rng;
use vstd::prelude::*;

verus! {

/// `rand::Rng::gen_range` on `rand::thread_rng()`, from zero on: some number
/// below the given one. It panics if there is none.
#[verifier::external_body]
pub(crate) fn random_below(limit: usize) -> (r: usize)
    requires
        limit > 0,
    ensures
        r < limit,
{
    rand::thread_rng().gen_range(0, limit)
}

/// Whether the generator has given a number when asked for one below a limit.
pub closed spec fn random_choice(limit: usize, r: usize) -> bool {
    call_ensures(random_below, (limit,), r)
}

/// A number below the given one, as the generator gives it.
pub(crate) fn choose_below(limit: usize) -> (r: usize)
    requires
        limit > 0,
    ensures
        r < limit,
        random_choice(limit, r),
{
    random_below(limit)
}

} // verus!
