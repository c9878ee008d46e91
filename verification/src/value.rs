//! The values of the database.

use vstd::prelude::*;

use crate::adapters::checksum::crc64_of;
use crate::assoc::texts;
use crate::byteset::ByteSet;
use crate::dbutil::{between, first_index, place};
use crate::draw::chosen_at_random;
use crate::error::OperationError;
use crate::list::{pushed, put_beside, referred, stripped, ValueList};
use crate::number::numeric;
use crate::rdb::{seal_with_checksum, sealed};
use crate::score::Score;
use crate::set::{contents, difference_of, intersection_of, is_number_text, union_of, ValueSet};
use crate::string::{bit_at, overwritten, with_bit, ValueString};
use crate::zset::{directed, listing, page, within, zadd_refused, Bound, ValueSortedSet};

verus! {

/// Any value that the database can store.
#[derive(PartialEq, Debug)]
pub enum Value {
    /// Not stored on purpose: what a key has until it gets a value.
    Nil,
    String(ValueString),
    List(ValueList),
    PlainSet(ValueSet),
    SortedSet(ValueSortedSet),
}

/// Whether each value is a set or not there.
pub open spec fn all_sets(values: Seq<&Value>) -> bool {
    forall|i: int| 0 <= i < values.len() ==> (#[trigger] values[i]).members() is Some
}

/// The members of each value.
pub open spec fn members_of(values: Seq<&Value>) -> Seq<Set<Seq<u8>>> {
    Seq::new(values.len(), |i: int| values[i].members()->0)
}

impl Value {
    /// The bytes of a string. A value that is not there reads as an empty one.
    pub open spec fn text(&self) -> Option<Seq<u8>> {
        match self {
            Value::Nil => Some(Seq::empty()),
            Value::String(s) => Some(s@),
            _ => None,
        }
    }

    /// The elements of a list. A value that is not there reads as an empty one.
    pub open spec fn items(&self) -> Option<Seq<Seq<u8>>> {
        match self {
            Value::Nil => Some(Seq::empty()),
            Value::List(l) => Some(l@),
            _ => None,
        }
    }

    /// The members of a set. A value that is not there reads as an empty one.
    pub open spec fn members(&self) -> Option<Set<Seq<u8>>> {
        match self {
            Value::Nil => Some(Set::empty()),
            Value::PlainSet(s) => Some(s@),
            _ => None,
        }
    }

    /// The members of a sorted set with their scores. A value that is not there
    /// reads as an empty one.
    pub open spec fn scores(&self) -> Option<Map<Seq<u8>, Score>> {
        match self {
            Value::Nil => Some(Map::empty()),
            Value::SortedSet(z) => Some(z@),
            _ => None,
        }
    }

    /// The ranking of a sorted set. A value that is not there reads as an empty
    /// one.
    pub open spec fn ranked(&self) -> Seq<(i64, Seq<u8>)> {
        match self {
            Value::SortedSet(z) => z.ranked(),
            _ => Seq::empty(),
        }
    }

    /// The serialized value, without its checksum. There is none if a part of
    /// it cannot be written.
    pub open spec fn serialized(&self) -> Option<Seq<u8>> {
        match self {
            Value::Nil => None,
            Value::String(s) => s.serialized(),
            Value::List(l) => l.serialized(),
            Value::PlainSet(s) => s.serialized(),
            Value::SortedSet(z) => z.serialized(),
        }
    }

    /// The inner value is valid.
    pub open spec fn wf(&self) -> bool {
        match self {
            Value::PlainSet(s) => s.wf(),
            Value::SortedSet(z) => z.wf(),
            _ => true,
        }
    }

    /// Whether there is no value.
    pub fn is_nil(&self) -> (r: bool)
        ensures
            r == (self is Nil),
    {
        match self {
            Value::Nil => true,
            _ => false,
        }
    }

    /// Whether the value is a string.
    pub fn is_string(&self) -> (r: bool)
        ensures
            r == (self is String),
    {
        match self {
            Value::String(_) => true,
            _ => false,
        }
    }

    /// Whether the value is a list.
    pub fn is_list(&self) -> (r: bool)
        ensures
            r == (self is List),
    {
        match self {
            Value::List(_) => true,
            _ => false,
        }
    }

    /// Whether the value is a set.
    pub fn is_set(&self) -> (r: bool)
        ensures
            r == (self is PlainSet),
    {
        match self {
            Value::PlainSet(_) => true,
            _ => false,
        }
    }

    /// Makes the value a string, whatever it was. The string is kept as a
    /// number if the bytes are the text that stands for it.
    pub fn set(&mut self, newvalue: Vec<u8>) -> (r: Result<(), OperationError>)
        ensures
            r is Ok,
            *final(self) is String,
            final(self).text() == Some(newvalue@),
            final(self)->String_0 is Integer <==> is_number_text(newvalue@),
    {
        *self = Value::String(ValueString::new(newvalue));
        Ok(())
    }

    /// The bytes of the string. Fails if the value is not a string.
    pub fn get(&self) -> (r: Result<Vec<u8>, OperationError>)
        ensures
            match r {
                Ok(v) => self.text() == Some(v@),
                Err(e) => self.text() is None && e == OperationError::WrongTypeError,
            },
    {
        match self {
            Value::Nil => {
                let v: Vec<u8> = Vec::new();
                proof {
                    assert(v@ =~= Seq::<u8>::empty());
                }
                Ok(v)
            },
            Value::String(value) => Ok(value.to_vec()),
            _ => Err(OperationError::WrongTypeError),
        }
    }

    /// The number of bytes in the string. Fails if the value is not a string.
    pub fn strlen(&self) -> (r: Result<usize, OperationError>)
        ensures
            match r {
                Ok(n) => self.text() is Some && n == self.text()->0.len(),
                Err(e) => self.text() is None && e == OperationError::WrongTypeError,
            },
    {
        match self {
            Value::Nil => Ok(0),
            Value::String(value) => Ok(value.strlen()),
            _ => Err(OperationError::WrongTypeError),
        }
    }

    /// Appends bytes to the string, which is made if it is not there. Fails if
    /// the value is not a string. Returns the number of bytes that it then has.
    pub fn append(&mut self, newvalue: Vec<u8>) -> (r: Result<usize, OperationError>)
        ensures
            match r {
                Ok(n) => {
                    &&& old(self).text() is Some
                    &&& *final(self) is String
                    &&& final(self).text() == Some(old(self).text()->0 + newvalue@)
                    &&& n == final(self).text()->0.len()
                    &&& final(self)->String_0 is Integer <==> *old(self) is Nil && is_number_text(newvalue@)
                },
                Err(e) => old(self).text() is None && *final(self) == *old(self) && e == OperationError::WrongTypeError,
            },
    {
        match self {
            Value::Nil => {
                let len: usize = newvalue.len();
                proof {
                    assert(Seq::<u8>::empty() + newvalue@ =~= newvalue@);
                }
                *self = Value::String(ValueString::new(newvalue));
                Ok(len)
            },
            Value::String(value) => {
                value.append(newvalue);
                Ok(value.strlen())
            },
            _ => Err(OperationError::WrongTypeError),
        }
    }

    /// Adds to the number that the string stands for. A string is made if it is
    /// not there. Fails if the value is not a string, if the string stands for
    /// no number, or if a number is too large.
    pub fn incr(&mut self, incr: i64) -> (r: Result<i64, OperationError>)
        ensures
            match *old(self) {
                Value::Nil => r == Ok::<i64, OperationError>(incr) && *final(self) == Value::String(ValueString::Integer(incr)),
                Value::String(s) => match (numeric(s@), r) {
                    (Some(n), Ok(m)) => i64::MIN <= n <= i64::MAX && m == n + incr && *final(self) == Value::String(
                        ValueString::Integer(m),
                    ),
                    (Some(n), Err(e)) => if i64::MIN <= n <= i64::MAX {
                        !(i64::MIN <= n + incr <= i64::MAX) && e == OperationError::OverflowError
                    } else {
                        e == OperationError::ValueError
                    },
                    (None, Ok(_)) => false,
                    (None, Err(e)) => e == OperationError::ValueError,
                },
                _ => r == Err::<i64, OperationError>(OperationError::WrongTypeError),
            },
            r is Err ==> *final(self) == *old(self),
    {
        match self {
            Value::Nil => {
                *self = Value::String(ValueString::Integer(incr));
                Ok(incr)
            },
            Value::String(value) => value.incr(incr),
            _ => Err(OperationError::WrongTypeError),
        }
    }

    /// The bytes between two positions of the string, both included. Negative
    /// positions count from the end. Fails if the value is not a string.
    pub fn getrange(&self, start: i64, stop: i64) -> (r: Result<Vec<u8>, OperationError>)
        ensures
            match r {
                Ok(v) => self.text() is Some && v@ == between(self.text()->0, start as int, stop as int),
                Err(e) => self.text() is None && e == OperationError::WrongTypeError,
            },
    {
        match self {
            Value::Nil => {
                let v: Vec<u8> = Vec::new();
                proof {
                    assert(v@ =~= between(Seq::<u8>::empty(), start as int, stop as int));
                }
                Ok(v)
            },
            Value::String(value) => Ok(value.getrange(start, stop)),
            _ => Err(OperationError::WrongTypeError),
        }
    }

    /// Writes data over the string from an index on. A negative index counts
    /// from the end. The string is made if it is not there, and filled up with
    /// null bytes if it is too short. Fails if the value is not a string.
    /// Returns the number of bytes that it then has.
    pub fn setrange(&mut self, index: i64, data: Vec<u8>) -> (r: Result<usize, OperationError>)
        requires
            old(self).text() is Some ==> first_index(index as int, old(self).text()->0.len()) + data@.len() <= usize::MAX,
        ensures
            match r {
                Ok(n) => {
                    &&& old(self).text() is Some
                    &&& *final(self) is String
                    &&& final(self)->String_0 is Data
                    &&& final(self).text() == Some(
                        overwritten(old(self).text()->0, first_index(index as int, old(self).text()->0.len()), data@),
                    )
                    &&& n == final(self).text()->0.len()
                },
                Err(e) => old(self).text() is None && *final(self) == *old(self) && e == OperationError::WrongTypeError,
            },
    {
        if let Value::Nil = self {
            let empty: Vec<u8> = Vec::new();
            proof {
                assert(empty@ =~= Seq::<u8>::empty());
            }
            *self = Value::String(ValueString::Data(empty));
        }
        match self {
            Value::String(value) => Ok(value.setrange(index, data)),
            _ => Err(OperationError::WrongTypeError),
        }
    }

    /// Turns the bit at an offset of the string on or off. The string is made
    /// if it is not there, and filled up with null bytes if it is too short.
    /// Fails if the value is not a string. Returns what the bit was.
    pub fn setbit(&mut self, bitoffset: usize, on: bool) -> (r: Result<bool, OperationError>)
        ensures
            match r {
                Ok(was) => {
                    &&& old(self).text() is Some
                    &&& was == bit_at(old(self).text()->0, bitoffset as int)
                    &&& *final(self) is String
                    &&& final(self)->String_0 is Data
                    &&& final(self).text() == Some(with_bit(old(self).text()->0, bitoffset as int, on))
                },
                Err(e) => old(self).text() is None && *final(self) == *old(self) && e == OperationError::WrongTypeError,
            },
    {
        if let Value::Nil = self {
            let empty: Vec<u8> = Vec::new();
            proof {
                assert(empty@ =~= Seq::<u8>::empty());
            }
            *self = Value::String(ValueString::Data(empty));
        }
        match self {
            Value::String(value) => Ok(value.setbit(bitoffset, on)),
            _ => Err(OperationError::WrongTypeError),
        }
    }

    /// The bit at an offset of the string. Fails if the value is not a string.
    pub fn getbit(&self, bitoffset: usize) -> (r: Result<bool, OperationError>)
        ensures
            match r {
                Ok(on) => self.text() is Some && on == bit_at(self.text()->0, bitoffset as int),
                Err(e) => self.text() is None && e == OperationError::WrongTypeError,
            },
    {
        match self {
            Value::Nil => Ok(false),
            Value::String(value) => Ok(value.getbit(bitoffset)),
            _ => Err(OperationError::WrongTypeError),
        }
    }

    /// Adds an element at the end or at the start of the list, which is made if
    /// it is not there. Fails if the value is not a list. Returns the number of
    /// elements that it then has.
    pub fn push(&mut self, el: Vec<u8>, right: bool) -> (r: Result<usize, OperationError>)
        ensures
            match r {
                Ok(n) => {
                    &&& old(self).items() is Some
                    &&& *final(self) is List
                    &&& final(self).items() == Some(pushed(old(self).items()->0, el@, right))
                    &&& n == final(self).items()->0.len()
                },
                Err(e) => old(self).items() is None && *final(self) == *old(self) && e == OperationError::WrongTypeError,
            },
    {
        match self {
            Value::Nil => {
                let mut list = ValueList::new();
                list.push(el, right);
                *self = Value::List(list);
                Ok(1)
            },
            Value::List(list) => {
                list.push(el, right);
                Ok(list.llen())
            },
            _ => Err(OperationError::WrongTypeError),
        }
    }

    /// Takes the element at the end or at the start of the list. Fails if the
    /// value is not a list.
    pub fn pop(&mut self, right: bool) -> (r: Result<Option<Vec<u8>>, OperationError>)
        ensures
            match r {
                Ok(taken) => {
                    &&& old(self).items() is Some
                    &&& final(self).items() is Some
                    &&& *final(self) is Nil <==> *old(self) is Nil
                    &&& match taken {
                        Some(el) => old(self).items()->0 == pushed(final(self).items()->0, el@, right),
                        None => old(self).items()->0.len() == 0 && final(self).items() == old(self).items(),
                    }
                },
                Err(e) => old(self).items() is None && *final(self) == *old(self) && e == OperationError::WrongTypeError,
            },
    {
        match self {
            Value::Nil => Ok(None),
            Value::List(list) => Ok(list.pop(right)),
            _ => Err(OperationError::WrongTypeError),
        }
    }

    /// The element at a position of the list. A negative position counts from
    /// the end. Fails if the value is not a list.
    pub fn lindex(&self, index: i64) -> (r: Result<Option<&Vec<u8>>, OperationError>)
        ensures
            match (*self, r) {
                (Value::List(l), Ok(Some(el))) => 0 <= place(index as int, l@.len()) < l@.len() && el@ == l@[place(
                    index as int,
                    l@.len(),
                )],
                (Value::List(l), Ok(None)) => !(0 <= place(index as int, l@.len()) < l@.len()),
                (Value::List(_), Err(_)) => false,
                (_, Ok(_)) => false,
                (_, Err(e)) => e == OperationError::WrongTypeError,
            },
    {
        match self {
            Value::List(value) => Ok(value.lindex(index)),
            _ => Err(OperationError::WrongTypeError),
        }
    }

    /// Puts an element into the list before or after the first that is equal to
    /// the pivot. Fails if the value is not a list. Returns the number of
    /// elements that the list then has, or nothing if there is no such element.
    pub fn linsert(&mut self, before: bool, pivot: Vec<u8>, newvalue: Vec<u8>) -> (r: Result<Option<usize>, OperationError>)
        ensures
            match r {
                Ok(found) => {
                    &&& old(self).items() is Some
                    &&& final(self).items() is Some
                    &&& *final(self) is Nil <==> *old(self) is Nil
                    &&& match found {
                        Some(n) => {
                            &&& n == final(self).items()->0.len()
                            &&& put_beside(old(self).items()->0, pivot@, before, newvalue@, final(self).items()->0)
                        },
                        None => !old(self).items()->0.contains(pivot@) && final(self).items() == old(self).items(),
                    }
                },
                Err(e) => old(self).items() is None && *final(self) == *old(self) && e == OperationError::WrongTypeError,
            },
    {
        match self {
            Value::Nil => Ok(None),
            Value::List(value) => Ok(value.linsert(before, pivot, newvalue)),
            _ => Err(OperationError::WrongTypeError),
        }
    }

    /// The number of elements of the list. Fails if the value is not a list.
    pub fn llen(&self) -> (r: Result<usize, OperationError>)
        ensures
            match r {
                Ok(n) => self.items() is Some && n == self.items()->0.len(),
                Err(e) => self.items() is None && e == OperationError::WrongTypeError,
            },
    {
        match self {
            Value::Nil => Ok(0),
            Value::List(value) => Ok(value.llen()),
            _ => Err(OperationError::WrongTypeError),
        }
    }

    /// The elements between two positions of the list, both included. Fails if
    /// the value is not a list.
    pub fn lrange(&self, start: i64, stop: i64) -> (r: Result<Vec<&Vec<u8>>, OperationError>)
        ensures
            match r {
                Ok(v) => self.items() is Some && referred(v@) == between(self.items()->0, start as int, stop as int),
                Err(e) => self.items() is None && e == OperationError::WrongTypeError,
            },
    {
        match self {
            Value::Nil => {
                let v: Vec<&Vec<u8>> = Vec::new();
                proof {
                    assert(referred(v@) =~= between(Seq::<Seq<u8>>::empty(), start as int, stop as int));
                }
                Ok(v)
            },
            Value::List(value) => Ok(value.lrange(start, stop)),
            _ => Err(OperationError::WrongTypeError),
        }
    }

    /// Takes elements out of the list that are equal to the given one, from the
    /// start or from the end, up to a limit. A limit of zero is none. Fails if
    /// the value is not a list. Returns how many were taken out.
    pub fn lrem(&mut self, left: bool, limit: usize, newvalue: Vec<u8>) -> (r: Result<usize, OperationError>)
        ensures
            match r {
                Ok(n) => {
                    &&& old(self).items() is Some
                    &&& final(self).items() == Some(stripped(old(self).items()->0, newvalue@, left, limit as nat))
                    &&& n == old(self).items()->0.len() - final(self).items()->0.len()
                    &&& *final(self) is Nil <==> *old(self) is Nil
                },
                Err(e) => old(self).items() is None && *final(self) == *old(self) && e == OperationError::WrongTypeError,
            },
    {
        match self {
            Value::Nil => {
                proof {
                    let none = Seq::<Seq<u8>>::empty();
                    assert(none.reverse() =~= none);
                    assert(stripped(none, newvalue@, left, limit as nat) =~= none);
                }
                Ok(0)
            },
            Value::List(value) => Ok(value.lrem(left, limit, newvalue)),
            _ => Err(OperationError::WrongTypeError),
        }
    }

    /// Replaces the element at a position of the list. Fails if there is no
    /// value, if it is not a list, or if the list has no such position.
    pub fn lset(&mut self, index: i64, newvalue: Vec<u8>) -> (r: Result<(), OperationError>)
        ensures
            match *old(self) {
                Value::Nil => r == Err::<(), OperationError>(OperationError::UnknownKeyError),
                Value::List(l) => if 0 <= place(index as int, l@.len()) < l@.len() {
                    &&& r is Ok
                    &&& *final(self) is List
                    &&& final(self).items() == Some(l@.update(place(index as int, l@.len()), newvalue@))
                } else {
                    &&& r == Err::<(), OperationError>(OperationError::OutOfBoundsError)
                    &&& *final(self) is List
                },
                _ => r == Err::<(), OperationError>(OperationError::WrongTypeError),
            },
            r is Err ==> final(self).items() == old(self).items(),
            r is Err && !(*old(self) is List) ==> *final(self) == *old(self),
    {
        match self {
            Value::Nil => Err(OperationError::UnknownKeyError),
            Value::List(value) => value.lset(index, newvalue),
            _ => Err(OperationError::WrongTypeError),
        }
    }

    /// Keeps the elements between two positions of the list, both included, and
    /// no other. Fails if the value is not a list.
    pub fn ltrim(&mut self, start: i64, stop: i64) -> (r: Result<(), OperationError>)
        ensures
            match *old(self) {
                Value::List(l) => {
                    &&& r is Ok
                    &&& *final(self) is List
                    &&& final(self).items() == Some(between(l@, start as int, stop as int))
                },
                _ => r == Err::<(), OperationError>(OperationError::WrongTypeError) && *final(self) == *old(self),
            },
    {
        match self {
            Value::List(value) => value.ltrim(start, stop),
            _ => Err(OperationError::WrongTypeError),
        }
    }

    /// Adds a member to the set, which is made if it is not there. A set of
    /// numbers is kept as such if the member is the text of a number and there
    /// are fewer members than the given limit. Fails if the value is not a set.
    /// Returns whether the member was not there before.
    pub fn sadd(&mut self, el: Vec<u8>, set_max_intset_entries: usize) -> (r: Result<bool, OperationError>)
        requires
            old(self).wf(),
        ensures
            final(self).wf(),
            match r {
                Ok(added) => {
                    &&& old(self).members() is Some
                    &&& *final(self) is PlainSet
                    &&& final(self).members() == Some(old(self).members()->0.insert(el@))
                    &&& added == !old(self).members()->0.contains(el@)
                    &&& final(self)->PlainSet_0 is Integer <==> {
                        &&& *old(self) is Nil || old(self)->PlainSet_0 is Integer
                        &&& is_number_text(el@)
                        &&& !added || old(self).members()->0.len() < set_max_intset_entries
                    }
                },
                Err(e) => old(self).members() is None && *final(self) == *old(self) && e == OperationError::WrongTypeError,
            },
    {
        match self {
            Value::Nil => {
                let mut value = ValueSet::new();
                value.sadd(el, set_max_intset_entries);
                *self = Value::PlainSet(value);
                Ok(true)
            },
            Value::PlainSet(value) => Ok(value.sadd(el, set_max_intset_entries)),
            _ => Err(OperationError::WrongTypeError),
        }
    }

    /// Takes a member out of the set. Fails if the value is not a set. Returns
    /// whether the member was there.
    pub fn srem(&mut self, el: &Vec<u8>) -> (r: Result<bool, OperationError>)
        requires
            old(self).wf(),
        ensures
            final(self).wf(),
            match r {
                Ok(removed) => {
                    &&& old(self).members() is Some
                    &&& final(self).members() == Some(old(self).members()->0.remove(el@))
                    &&& removed == old(self).members()->0.contains(el@)
                    &&& *final(self) is Nil <==> *old(self) is Nil
                    &&& *old(self) is PlainSet ==> (final(self)->PlainSet_0 is Integer <==> old(self)->PlainSet_0 is Integer)
                },
                Err(e) => old(self).members() is None && *final(self) == *old(self) && e == OperationError::WrongTypeError,
            },
    {
        match self {
            Value::Nil => {
                proof {
                    assert(Set::<Seq<u8>>::empty().remove(el@) =~= Set::<Seq<u8>>::empty());
                }
                Ok(false)
            },
            Value::PlainSet(value) => Ok(value.srem(el)),
            _ => Err(OperationError::WrongTypeError),
        }
    }

    /// Whether a byte string is a member of the set. Fails if the value is not
    /// a set.
    pub fn sismember(&self, el: &Vec<u8>) -> (r: Result<bool, OperationError>)
        requires
            self.wf(),
        ensures
            match r {
                Ok(b) => self.members() is Some && b == self.members()->0.contains(el@),
                Err(e) => self.members() is None && e == OperationError::WrongTypeError,
            },
    {
        match self {
            Value::Nil => Ok(false),
            Value::PlainSet(value) => Ok(value.sismember(el)),
            _ => Err(OperationError::WrongTypeError),
        }
    }

    /// The number of members of the set. Fails if the value is not a set.
    pub fn scard(&self) -> (r: Result<usize, OperationError>)
        requires
            self.wf(),
        ensures
            match r {
                Ok(n) => self.members() is Some && self.members()->0.finite() && n == self.members()->0.len(),
                Err(e) => self.members() is None && e == OperationError::WrongTypeError,
            },
    {
        match self {
            Value::Nil => Ok(0),
            Value::PlainSet(value) => Ok(value.scard()),
            _ => Err(OperationError::WrongTypeError),
        }
    }

    /// All members of the set, each once. Fails if the value is not a set.
    pub fn smembers(&self) -> (r: Result<Vec<Vec<u8>>, OperationError>)
        requires
            self.wf(),
        ensures
            match r {
                Ok(v) => {
                    &&& self.members() is Some
                    &&& texts(v@).to_set() == self.members()->0
                    &&& texts(v@).no_duplicates()
                    &&& v.len() == self.members()->0.len()
                },
                Err(e) => self.members() is None && e == OperationError::WrongTypeError,
            },
    {
        match self {
            Value::Nil => {
                let v: Vec<Vec<u8>> = Vec::new();
                proof {
                    assert(texts(v@).to_set() =~= Set::<Seq<u8>>::empty());
                }
                Ok(v)
            },
            Value::PlainSet(value) => Ok(value.smembers()),
            _ => Err(OperationError::WrongTypeError),
        }
    }

    /// Random members of the set: as many as asked for if a member may come
    /// more than once, else up to as many as there are. Fails if the value is
    /// not a set.
    pub fn srandmember(&self, count: usize, allow_duplicates: bool) -> (r: Result<Vec<Vec<u8>>, OperationError>)
        requires
            self.wf(),
        ensures
            match r {
                Ok(v) => {
                    &&& self.members() is Some
                    &&& forall|i: int| 0 <= i < v.len() ==> self.members()->0.contains((#[trigger] v[i])@)
                    &&& allow_duplicates ==> v.len() == if self.members()->0.len() == 0 {
                        0
                    } else {
                        count as nat
                    }
                    &&& !allow_duplicates ==> texts(v@).no_duplicates() && v.len() == if count < self.members()->0.len() {
                        count as nat
                    } else {
                        self.members()->0.len()
                    }
                    &&& *self is PlainSet ==> chosen_at_random(
                        self->PlainSet_0.members(),
                        allow_duplicates,
                        texts(v@),
                    )
                },
                Err(e) => self.members() is None && e == OperationError::WrongTypeError,
            },
    {
        match self {
            Value::Nil => Ok(Vec::new()),
            Value::PlainSet(value) => Ok(value.srandmember(count, allow_duplicates)),
            _ => Err(OperationError::WrongTypeError),
        }
    }

    /// Takes random members out of the set: as many as asked for, or all. Fails
    /// if the value is not a set.
    pub fn spop(&mut self, count: usize) -> (r: Result<Vec<Vec<u8>>, OperationError>)
        requires
            old(self).wf(),
        ensures
            final(self).wf(),
            match r {
                Ok(v) => {
                    &&& old(self).members() is Some
                    &&& forall|i: int| 0 <= i < v.len() ==> old(self).members()->0.contains((#[trigger] v[i])@)
                    &&& texts(v@).no_duplicates()
                    &&& v.len() == if count < old(self).members()->0.len() {
                        count as nat
                    } else {
                        old(self).members()->0.len()
                    }
                    &&& final(self).members() == Some(old(self).members()->0.difference(texts(v@).to_set()))
                    &&& *old(self) is PlainSet ==> chosen_at_random(old(self)->PlainSet_0.members(), false, texts(v@))
                    &&& *final(self) is Nil <==> *old(self) is Nil
                    &&& *old(self) is PlainSet ==> (final(self)->PlainSet_0 is Integer <==> old(self)->PlainSet_0 is Integer)
                },
                Err(e) => old(self).members() is None && *final(self) == *old(self) && e == OperationError::WrongTypeError,
            },
    {
        match self {
            Value::Nil => {
                let v: Vec<Vec<u8>> = Vec::new();
                proof {
                    assert(Set::<Seq<u8>>::empty().difference(texts(v@).to_set()) =~= Set::<Seq<u8>>::empty());
                }
                Ok(v)
            },
            Value::PlainSet(value) => Ok(value.spop(count)),
            _ => Err(OperationError::WrongTypeError),
        }
    }

    /// The sets that the values are. One that is not there stands for the
    /// default. Fails if any of the values is not a set.
    pub fn get_set_list<'a>(&'a self, set_values: &Vec<&'a Value>, default: &'a ValueSet) -> (r: Result<Vec<&'a ValueSet>, OperationError>)
        ensures
            match r {
                Ok(sets) => {
                    &&& all_sets(set_values@)
                    &&& sets.len() == set_values.len()
                    &&& forall|i: int|
                        0 <= i < sets.len() ==> *(#[trigger] sets[i]) == match *set_values[i] {
                            Value::PlainSet(s) => s,
                            _ => *default,
                        }
                },
                Err(e) => !all_sets(set_values@) && e == OperationError::WrongTypeError,
            },
    {
        let mut sets: Vec<&'a ValueSet> = Vec::new();
        let mut i: usize = 0;
        while i < set_values.len()
            invariant
                i <= set_values.len(),
                sets.len() == i,
                forall|j: int| 0 <= j < i ==> (#[trigger] set_values@[j]).members() is Some,
                forall|j: int|
                    0 <= j < i ==> *(#[trigger] sets[j]) == match *set_values[j] {
                        Value::PlainSet(s) => s,
                        _ => *default,
                    },
            decreases set_values.len() - i,
        {
            let value: &'a Value = set_values[i];
            match value {
                Value::Nil => sets.push(default),
                Value::PlainSet(set) => sets.push(set),
                _ => {
                    proof {
                        assert(set_values@[i as int].members() is None);
                    }
                    return Err(OperationError::WrongTypeError);
                },
            }
            i += 1;
        }
        Ok(sets)
    }

    /// The members of the set that are in none of the other sets. Fails if the
    /// value or any of the others is not a set.
    pub fn sdiff(&self, set_values: &Vec<&Value>) -> (r: Result<ByteSet, OperationError>)
        requires
            self.wf(),
            forall|i: int| 0 <= i < set_values.len() ==> (#[trigger] set_values[i]).wf(),
        ensures
            match r {
                Ok(set) => {
                    &&& self.members() is Some
                    &&& all_sets(set_values@)
                    &&& set.wf()
                    &&& set@ == difference_of(self.members()->0, members_of(set_values@))
                },
                Err(e) => !(self.members() is Some && all_sets(set_values@)) && e == OperationError::WrongTypeError,
            },
    {
        let emptyset = ValueSet::new();
        let sets = match self.get_set_list(set_values, &emptyset) {
            Ok(sets) => sets,
            Err(e) => return Err(e),
        };
        match self {
            Value::Nil => {
                let none = ByteSet::new();
                proof {
                    assert(none@ =~= difference_of(Set::empty(), members_of(set_values@)));
                }
                Ok(none)
            },
            Value::PlainSet(value) => {
                proof {
                    assert(contents(sets@) =~= members_of(set_values@));
                }
                Ok(value.sdiff(sets))
            },
            _ => Err(OperationError::WrongTypeError),
        }
    }

    /// The members of the set that are in all of the other sets. Fails if the
    /// value or any of the others is not a set.
    pub fn sinter(&self, set_values: &Vec<&Value>) -> (r: Result<ByteSet, OperationError>)
        requires
            self.wf(),
            forall|i: int| 0 <= i < set_values.len() ==> (#[trigger] set_values[i]).wf(),
        ensures
            match r {
                Ok(set) => {
                    &&& self.members() is Some
                    &&& all_sets(set_values@)
                    &&& set.wf()
                    &&& set@ == intersection_of(self.members()->0, members_of(set_values@))
                },
                Err(e) => !(self.members() is Some && all_sets(set_values@)) && e == OperationError::WrongTypeError,
            },
    {
        let emptyset = ValueSet::new();
        let sets = match self.get_set_list(set_values, &emptyset) {
            Ok(sets) => sets,
            Err(e) => return Err(e),
        };
        match self {
            Value::Nil => {
                let none = ByteSet::new();
                proof {
                    assert(none@ =~= intersection_of(Set::empty(), members_of(set_values@)));
                }
                Ok(none)
            },
            Value::PlainSet(value) => {
                proof {
                    assert(contents(sets@) =~= members_of(set_values@));
                }
                Ok(value.sinter(sets))
            },
            _ => Err(OperationError::WrongTypeError),
        }
    }

    /// The members of the set and of all the other sets. Fails if the value or
    /// any of the others is not a set.
    pub fn sunion(&self, set_values: &Vec<&Value>) -> (r: Result<ByteSet, OperationError>)
        requires
            self.wf(),
            forall|i: int| 0 <= i < set_values.len() ==> (#[trigger] set_values[i]).wf(),
        ensures
            match r {
                Ok(set) => {
                    &&& self.members() is Some
                    &&& all_sets(set_values@)
                    &&& set.wf()
                    &&& set@ == union_of(self.members()->0, members_of(set_values@))
                },
                Err(e) => !(self.members() is Some && all_sets(set_values@)) && e == OperationError::WrongTypeError,
            },
    {
        let emptyset = ValueSet::new();
        let sets = match self.get_set_list(set_values, &emptyset) {
            Ok(sets) => sets,
            Err(e) => return Err(e),
        };
        match self {
            Value::Nil => {
                proof {
                    assert(contents(sets@) =~= members_of(set_values@));
                }
                Ok(emptyset.sunion(sets))
            },
            Value::PlainSet(value) => {
                proof {
                    assert(contents(sets@) =~= members_of(set_values@));
                }
                Ok(value.sunion(sets))
            },
            _ => Err(OperationError::WrongTypeError),
        }
    }

    /// Makes the value a set of the given byte strings, whatever it was.
    pub fn create_set(&mut self, set: ByteSet)
        requires
            set.wf(),
        ensures
            final(self).wf(),
            *final(self) == Value::PlainSet(ValueSet::Data(set)),
            final(self).members() == Some(set@),
    {
        *self = Value::PlainSet(ValueSet::create_with_hashset(set));
    }

    /// Takes a member out of the sorted set. Fails if the value is not a sorted
    /// set. Returns whether the member was there.
    pub fn zrem(&mut self, member: Vec<u8>) -> (r: Result<bool, OperationError>)
        requires
            old(self).wf(),
        ensures
            final(self).wf(),
            match r {
                Ok(removed) => {
                    &&& old(self).scores() is Some
                    &&& final(self).scores() == Some(old(self).scores()->0.remove(member@))
                    &&& removed == old(self).scores()->0.contains_key(member@)
                    &&& *final(self) is Nil <==> *old(self) is Nil
                },
                Err(e) => old(self).scores() is None && *final(self) == *old(self) && e == OperationError::WrongTypeError,
            },
    {
        match self {
            Value::Nil => {
                proof {
                    assert(Map::<Seq<u8>, Score>::empty().remove(member@) =~= Map::<Seq<u8>, Score>::empty());
                }
                Ok(false)
            },
            Value::SortedSet(value) => Ok(value.zrem(&member)),
            _ => Err(OperationError::WrongTypeError),
        }
    }

    /// Adds a member to the sorted set, or changes its score. The sorted set is
    /// made if it is not there, unless only present members are to be changed.
    /// With `nx` only a new member is added; with `xx` only a present one is
    /// changed. With `incr` the score of a present member becomes what `sum`
    /// makes of the given score and its own. Fails if the value is not a sorted
    /// set. Returns whether the member is new or, with `ch`, whether it is new
    /// or has another score.
    pub fn zadd<F: Fn(&Score, &Score) -> Score>(&mut self, s: Score, el: Vec<u8>, nx: bool, xx: bool, ch: bool, incr: bool, sum: F) -> (r: Result<bool, OperationError>)
        requires
            old(self).wf(),
            s.wf(),
            old(self).scores() is Some && old(self).scores()->0.contains_key(el@) && !nx && incr ==> {
                &&& call_requires(sum, (&s, &old(self).scores()->0[el@]))
                &&& forall|t: Score| #[trigger] call_ensures(sum, (&s, &old(self).scores()->0[el@]), t) ==> t.wf()
            },
        ensures
            final(self).wf(),
            match r {
                Ok(changed) => {
                    &&& old(self).scores() is Some
                    &&& final(self).scores() is Some
                    &&& *final(self) is Nil <==> *old(self) is Nil && xx
                    &&& zadd_refused(old(self).scores()->0, el@, nx, xx) ==> !changed && final(self).scores() == old(self).scores()
                    &&& !zadd_refused(old(self).scores()->0, el@, nx, xx) ==> {
                        &&& final(self).scores()->0.contains_key(el@)
                        &&& final(self).scores()->0 == old(self).scores()->0.insert(el@, final(self).scores()->0[el@])
                        &&& if incr && old(self).scores()->0.contains_key(el@) {
                            call_ensures(sum, (&s, &old(self).scores()->0[el@]), final(self).scores()->0[el@])
                        } else {
                            final(self).scores()->0[el@] == s
                        }
                        &&& changed == if old(self).scores()->0.contains_key(el@) {
                            ch && final(self).scores()->0[el@].rank() != old(self).scores()->0[el@].rank()
                        } else {
                            true
                        }
                    }
                },
                Err(e) => old(self).scores() is None && *final(self) == *old(self) && e == OperationError::WrongTypeError,
            },
    {
        match self {
            Value::Nil => {
                if xx {
                    return Ok(false);
                }
                let mut value = ValueSortedSet::new();
                let r: bool = value.zadd(s, el, nx, xx, ch, incr, sum);
                *self = Value::SortedSet(value);
                Ok(r)
            },
            Value::SortedSet(value) => Ok(value.zadd(s, el, nx, xx, ch, incr, sum)),
            _ => Err(OperationError::WrongTypeError),
        }
    }

    /// The number of members of the sorted set. Fails if the value is not a
    /// sorted set.
    pub fn zcard(&self) -> (r: Result<usize, OperationError>)
        requires
            self.wf(),
        ensures
            match r {
                Ok(n) => self.scores() is Some && self.scores()->0.dom().finite() && n == self.scores()->0.dom().len(),
                Err(e) => self.scores() is None && e == OperationError::WrongTypeError,
            },
    {
        match self {
            Value::Nil => {
                proof {
                    assert(Map::<Seq<u8>, Score>::empty().dom() =~= Set::<Seq<u8>>::empty());
                }
                Ok(0)
            },
            Value::SortedSet(value) => Ok(value.zcard()),
            _ => Err(OperationError::WrongTypeError),
        }
    }

    /// The score of a member of the sorted set. Fails if the value is not a
    /// sorted set.
    pub fn zscore(&self, element: Vec<u8>) -> (r: Result<Option<&Score>, OperationError>)
        requires
            self.wf(),
        ensures
            match r {
                Ok(found) => {
                    &&& self.scores() is Some
                    &&& match found {
                        Some(s) => self.scores()->0.contains_key(element@) && *s == self.scores()->0[element@],
                        None => !self.scores()->0.contains_key(element@),
                    }
                },
                Err(e) => self.scores() is None && e == OperationError::WrongTypeError,
            },
    {
        match self {
            Value::Nil => Ok(None),
            Value::SortedSet(value) => Ok(value.zscore(&element)),
            _ => Err(OperationError::WrongTypeError),
        }
    }

    /// Adds to the score of a member of the sorted set. The member is put in if
    /// it is not there, and so is the sorted set. Fails if the value is not a
    /// sorted set. Returns the score that the member then has.
    pub fn zincrby<F: Fn(&Score, &Score) -> Score>(&mut self, increment: Score, member: Vec<u8>, sum: F) -> (r: Result<Score, OperationError>)
        requires
            old(self).wf(),
            increment.wf(),
            old(self).scores() is Some && old(self).scores()->0.contains_key(member@) ==> {
                &&& call_requires(sum, (&increment, &old(self).scores()->0[member@]))
                &&& forall|t: Score| #[trigger]
                    call_ensures(sum, (&increment, &old(self).scores()->0[member@]), t) ==> t.wf()
            },
        ensures
            final(self).wf(),
            match r {
                Ok(score) => {
                    &&& old(self).scores() is Some
                    &&& *final(self) is SortedSet
                    &&& final(self).scores()->0.contains_key(member@)
                    &&& final(self).scores()->0 == old(self).scores()->0.insert(member@, final(self).scores()->0[member@])
                    &&& if old(self).scores()->0.contains_key(member@) {
                        call_ensures(sum, (&increment, &old(self).scores()->0[member@]), final(self).scores()->0[member@])
                    } else {
                        final(self).scores()->0[member@] == increment
                    }
                    &&& score.bits == final(self).scores()->0[member@].bits
                    &&& score.text@ == final(self).scores()->0[member@].text@
                },
                Err(e) => old(self).scores() is None && *final(self) == *old(self) && e == OperationError::WrongTypeError,
            },
    {
        match self {
            Value::Nil => {
                let mut value = ValueSortedSet::new();
                let score = value.zincrby(increment, member, sum);
                *self = Value::SortedSet(value);
                Ok(score)
            },
            Value::SortedSet(value) => Ok(value.zincrby(increment, member, sum)),
            _ => Err(OperationError::WrongTypeError),
        }
    }

    /// The number of members of the sorted set whose scores lie between two
    /// ends. Fails if the value is not a sorted set.
    pub fn zcount(&self, min: Bound, max: Bound) -> (r: Result<usize, OperationError>)
        requires
            self.wf(),
        ensures
            match r {
                Ok(n) => self.scores() is Some && n == within(self.ranked(), min, max).len(),
                Err(e) => self.scores() is None && e == OperationError::WrongTypeError,
            },
    {
        match self {
            Value::Nil => {
                proof {
                    reveal(Seq::filter);
                }
                Ok(0)
            },
            Value::SortedSet(value) => Ok(value.zcount(&min, &max)),
            _ => Err(OperationError::WrongTypeError),
        }
    }

    /// The members between two positions of the ranking, both included, or of
    /// the ranking backwards. With `withscores` each is followed by the text of
    /// its score. Fails if the value is not a sorted set.
    pub fn zrange(&self, start: i64, stop: i64, withscores: bool, rev: bool) -> (r: Result<Vec<Vec<u8>>, OperationError>)
        requires
            self.wf(),
        ensures
            match r {
                Ok(v) => {
                    &&& self.scores() is Some
                    &&& texts(v@) == listing(
                        between(directed(self.ranked(), rev), start as int, stop as int),
                        self.scores()->0,
                        withscores,
                    )
                },
                Err(e) => self.scores() is None && e == OperationError::WrongTypeError,
            },
    {
        match self {
            Value::Nil => {
                let v: Vec<Vec<u8>> = Vec::new();
                proof {
                    let none = Seq::<(i64, Seq<u8>)>::empty();
                    assert(directed(none, rev) =~= none);
                    assert(between(none, start as int, stop as int) =~= none);
                    assert(texts(v@) =~= listing(none, Map::empty(), withscores));
                }
                Ok(v)
            },
            Value::SortedSet(value) => Ok(value.zrange(start, stop, withscores, rev)),
            _ => Err(OperationError::WrongTypeError),
        }
    }

    /// The members of the sorted set whose scores lie between two ends, without
    /// the first `offset` ones and at most `count` of them. With `withscores`
    /// each is followed by the text of its score. With `rev` the members come
    /// backwards, and `min` is the upper end and `max` the lower one. Fails if
    /// the value is not a sorted set.
    pub fn zrangebyscore(&self, min: Bound, max: Bound, withscores: bool, offset: usize, count: usize, rev: bool) -> (r: Result<Vec<Vec<u8>>, OperationError>)
        requires
            self.wf(),
        ensures
            match r {
                Ok(v) => {
                    &&& self.scores() is Some
                    &&& texts(v@) == listing(
                        page(
                            if rev {
                                within(self.ranked(), max, min).reverse()
                            } else {
                                within(self.ranked(), min, max)
                            },
                            offset as int,
                            count as int,
                        ),
                        self.scores()->0,
                        withscores,
                    )
                },
                Err(e) => self.scores() is None && e == OperationError::WrongTypeError,
            },
    {
        match self {
            Value::Nil => {
                let v: Vec<Vec<u8>> = Vec::new();
                proof {
                    reveal(Seq::filter);
                    let none = Seq::<(i64, Seq<u8>)>::empty();
                    assert(none.reverse() =~= none);
                    assert(page(none, offset as int, count as int) =~= none);
                    assert(within(none, min, max) =~= none);
                    assert(within(none, max, min) =~= none);
                    assert(texts(v@) =~= listing(none, Map::empty(), withscores));
                }
                Ok(v)
            },
            Value::SortedSet(value) => Ok(value.zrangebyscore(&min, &max, withscores, offset, count, rev)),
            _ => Err(OperationError::WrongTypeError),
        }
    }

    /// The place of a member in the ranking of the sorted set. Fails if the
    /// value is not a sorted set.
    pub fn zrank(&self, el: Vec<u8>) -> (r: Result<Option<usize>, OperationError>)
        requires
            self.wf(),
        ensures
            match r {
                Ok(found) => {
                    &&& self.scores() is Some
                    &&& match found {
                        Some(i) => {
                            &&& self.scores()->0.contains_key(el@)
                            &&& i < self.ranked().len()
                            &&& self.ranked()[i as int].1 == el@
                        },
                        None => !self.scores()->0.contains_key(el@),
                    }
                },
                Err(e) => self.scores() is None && e == OperationError::WrongTypeError,
            },
    {
        match self {
            Value::Nil => Ok(None),
            Value::SortedSet(value) => Ok(value.zrank(&el)),
            _ => Err(OperationError::WrongTypeError),
        }
    }

    /// Serializes the value and appends it to the writer, with its type, the
    /// version of the format and a checksum. Returns how many bytes that is;
    /// none if the value is not there. Fails if a part of the value cannot be
    /// written.
    pub fn dump(&self, writer: &mut Vec<u8>) -> (r: Result<usize, OperationError>)
        requires
            self.wf(),
        ensures
            match (*self, self.serialized()) {
                (Value::Nil, _) => r == Ok::<usize, OperationError>(0) && final(writer)@ == old(writer)@,
                (_, Some(data)) => {
                    &&& final(writer)@ == old(writer)@ + sealed(data, crc64_of(0, data))
                    &&& r is Ok
                    &&& r->Ok_0 == sealed(data, crc64_of(0, data)).len()
                },
                (_, None) => r == Err::<usize, OperationError>(OperationError::OverflowError) && final(writer)@ == old(writer)@,
            },
    {
        let data = match self {
            Value::Nil => return Ok(0),
            Value::String(s) => s.dump(),
            Value::List(l) => l.dump(),
            Value::PlainSet(s) => s.dump(),
            Value::SortedSet(z) => z.dump(),
        };
        match data {
            Ok(data) => Ok(seal_with_checksum(writer, &data)),
            Err(e) => Err(e),
        }
    }
}

/// A value reads as what it is: a string, a list, a set or a sorted set. One of
/// another sort does not read as such, and one that is not there reads as an
/// empty one of each.
pub proof fn value_reads(s: ValueString, l: ValueList, p: ValueSet, z: ValueSortedSet)
    ensures
        Value::Nil.text() == Some(Seq::<u8>::empty()),
        Value::String(s).text() == Some(s@),
        Value::List(l).text() is None && Value::PlainSet(p).text() is None && Value::SortedSet(z).text() is None,
        Value::Nil.items() == Some(Seq::<Seq<u8>>::empty()),
        Value::List(l).items() == Some(l@),
        Value::String(s).items() is None && Value::PlainSet(p).items() is None && Value::SortedSet(z).items() is None,
        Value::Nil.members() == Some(Set::<Seq<u8>>::empty()),
        Value::PlainSet(p).members() == Some(p@),
        Value::String(s).members() is None && Value::List(l).members() is None && Value::SortedSet(z).members() is None,
        Value::Nil.scores() == Some(Map::<Seq<u8>, Score>::empty()),
        Value::SortedSet(z).scores() == Some(z@),
        Value::String(s).scores() is None && Value::List(l).scores() is None && Value::PlainSet(p).scores() is None,
        Value::Nil.ranked() == Seq::<(i64, Seq<u8>)>::empty(),
        Value::SortedSet(z).ranked() == z.ranked(),
{
}

/// A value is written as what it is, and one that is not there is not written.
pub proof fn value_serialized(s: ValueString, l: ValueList, p: ValueSet, z: ValueSortedSet)
    ensures
        Value::Nil.serialized() is None,
        Value::String(s).serialized() == s.serialized(),
        Value::List(l).serialized() == l.serialized(),
        Value::PlainSet(p).serialized() == p.serialized(),
        Value::SortedSet(z).serialized() == z.serialized(),
        Value::Nil.wf() && Value::String(s).wf() && Value::List(l).wf(),
        Value::PlainSet(p).wf() == p.wf(),
        Value::SortedSet(z).wf() == z.wf(),
{
}

/// Values are all sets if each is one or is not there, and their members come
/// in the order of the values.
pub proof fn sets_elements(values: Seq<&Value>, i: int)
    ensures
        all_sets(values) <==> forall|j: int| 0 <= j < values.len() ==> (#[trigger] values[j]) is PlainSet || values[j] is Nil,
        members_of(values).len() == values.len(),
        0 <= i < values.len() && values[i] is Nil ==> members_of(values)[i] == Set::<Seq<u8>>::empty(),
        0 <= i < values.len() ==> (values[i] matches Value::PlainSet(p) ==> members_of(values)[i] == p@),
{
    if forall|j: int| 0 <= j < values.len() ==> (#[trigger] values[j]) is PlainSet || values[j] is Nil {
        assert forall|j: int| 0 <= j < values.len() implies (#[trigger] values[j]).members() is Some by {
            assert(values[j] is PlainSet || values[j] is Nil);
        }
    }
    if all_sets(values) {
        assert forall|j: int| 0 <= j < values.len() implies (#[trigger] values[j]) is PlainSet || values[j] is Nil by {
            assert(values[j].members() is Some);
        }
    }
}

} // verus!
