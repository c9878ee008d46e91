//! Replies to clients.

use vstd::prelude::*;

verus! {

/// A reply to a client.
#[derive(PartialEq, Debug)]
pub enum Response {
    Data(Vec<u8>),
    Integer(i64),
    Array(Vec<Response>),
}

/// What a reply says that is no array.
pub enum Part {
    Data(Seq<u8>),
    Integer(i64),
}

/// Whether a reply says a part.
pub open spec fn says(response: Response, part: Part) -> bool {
    match (response, part) {
        (Response::Data(d), Part::Data(s)) => d@ == s,
        (Response::Integer(n), Part::Integer(m)) => n == m,
        _ => false,
    }
}

/// Whether a reply is an array that says one part after the other.
pub open spec fn says_all(response: Response, parts: Seq<Part>) -> bool {
    match response {
        Response::Array(items) => {
            &&& items@.len() == parts.len()
            &&& forall|i: int| 0 <= i < parts.len() ==> says(#[trigger] items@[i], parts[i])
        },
        _ => false,
    }
}

/// A reply says bytes if it has these, and a number if it is this one. It says
/// neither if it is of another sort.
pub proof fn says_exactly(d: Vec<u8>, n: i64, items: Vec<Response>, s: Seq<u8>, m: i64)
    ensures
        says(Response::Data(d), Part::Data(s)) <==> d@ == s,
        says(Response::Integer(n), Part::Integer(m)) <==> n == m,
        !says(Response::Data(d), Part::Integer(m)),
        !says(Response::Integer(n), Part::Data(s)),
        !says(Response::Array(items), Part::Data(s)),
        !says(Response::Array(items), Part::Integer(m)),
{
}

/// A reply that says parts is an array with one reply for each, in their order.
pub proof fn says_all_exactly(response: Response, parts: Seq<Part>, i: int)
    requires
        says_all(response, parts),
        0 <= i < parts.len(),
    ensures
        response matches Response::Array(items) && items@.len() == parts.len() && says(items@[i], parts[i]),
{
}

/// Nothing is said by an empty array alone.
pub proof fn says_nothing(response: Response)
    ensures
        says_all(response, Seq::empty()) <==> (response matches Response::Array(items) && items@.len() == 0),
{
}

} // verus!
