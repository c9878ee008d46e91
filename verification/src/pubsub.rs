//! Events for clients that listen to channels.

use vstd::prelude::*;

use crate::lex::copy;
use crate::response::{says, says_all, Part, Response};

verus! {

/// Events for clients that listen to channels.
#[derive(PartialEq, Debug)]
pub enum PubsubEvent {
    /// The client listens to a channel, and to how many in all.
    Subscription(Vec<u8>, usize),
    /// The client no longer listens to a channel, and to how many in all.
    Unsubscription(Vec<u8>, usize),
    /// The client listens to a pattern, and to how many in all.
    PatternSubscription(Vec<u8>, usize),
    /// The client no longer listens to a pattern, and to how many in all.
    PatternUnsubscription(Vec<u8>, usize),
    /// A message came in a channel, which may have matched a pattern.
    Message(Vec<u8>, Option<Vec<u8>>, Vec<u8>),
}

/// `message`
pub open spec fn message_word() -> Seq<u8> {
    seq![109u8, 101u8, 115u8, 115u8, 97u8, 103u8, 101u8]
}

/// `subscribe`
pub open spec fn subscribe_word() -> Seq<u8> {
    seq![115u8, 117u8, 98u8, 115u8, 99u8, 114u8, 105u8, 98u8, 101u8]
}

/// `unsubscribe`
pub open spec fn unsubscribe_word() -> Seq<u8> {
    seq![117u8, 110u8] + subscribe_word()
}

/// `psubscribe`
pub open spec fn psubscribe_word() -> Seq<u8> {
    seq![112u8] + subscribe_word()
}

/// `punsubscribe`
pub open spec fn punsubscribe_word() -> Seq<u8> {
    seq![112u8] + unsubscribe_word()
}

/// The reply that starts with a word and a name and ends with a count.
fn counted(word: Vec<u8>, name: &Vec<u8>, count: usize) -> (r: Response)
    ensures
        says_all(r, seq![Part::Data(word@), Part::Data(name@), Part::Integer(count as i64)]),
{
    let ghost parts = seq![Part::Data(word@), Part::Data(name@), Part::Integer(count as i64)];
    let mut items: Vec<Response> = Vec::new();
    items.push(Response::Data(word));
    items.push(Response::Data(copy(name)));
    items.push(Response::Integer(count as i64));
    proof {
        assert(says(items@[0], parts[0]));
        assert(says(items@[1], parts[1]));
        assert(says(items@[2], parts[2]));
    }
    Response::Array(items)
}

/// The event of a message.
pub fn message_event(channel: &Vec<u8>, pattern: Option<&Vec<u8>>, message: &Vec<u8>) -> (r: PubsubEvent)
    ensures
        r.is_message(
            channel@,
            match pattern {
                Some(p) => Some(p@),
                None => None,
            },
            message@,
        ),
{
    let by: Option<Vec<u8>> = match pattern {
        Some(p) => Some(copy(p)),
        None => None,
    };
    PubsubEvent::Message(copy(channel), by, copy(message))
}

impl PubsubEvent {
    /// What the reply for the event says.
    pub open spec fn parts(&self) -> Seq<Part> {
        match self {
            PubsubEvent::Message(channel, Some(pattern), message) => seq![
                Part::Data(message_word()),
                Part::Data(channel@),
                Part::Data(pattern@),
                Part::Data(message@),
            ],
            PubsubEvent::Message(channel, None, message) => seq![
                Part::Data(message_word()),
                Part::Data(channel@),
                Part::Data(message@),
            ],
            PubsubEvent::Subscription(channel, n) => seq![
                Part::Data(subscribe_word()),
                Part::Data(channel@),
                Part::Integer(*n as i64),
            ],
            PubsubEvent::Unsubscription(channel, n) => seq![
                Part::Data(unsubscribe_word()),
                Part::Data(channel@),
                Part::Integer(*n as i64),
            ],
            PubsubEvent::PatternSubscription(pattern, n) => seq![
                Part::Data(psubscribe_word()),
                Part::Data(pattern@),
                Part::Integer(*n as i64),
            ],
            PubsubEvent::PatternUnsubscription(pattern, n) => seq![
                Part::Data(punsubscribe_word()),
                Part::Data(pattern@),
                Part::Integer(*n as i64),
            ],
        }
    }

    /// Whether the event is a message with the given content.
    pub open spec fn is_message(&self, channel: Seq<u8>, pattern: Option<Seq<u8>>, message: Seq<u8>) -> bool {
        match self {
            PubsubEvent::Message(c, p, m) => {
                &&& c@ == channel
                &&& m@ == message
                &&& match (p, pattern) {
                    (Some(a), Some(b)) => a@ == b,
                    (None, None) => true,
                    _ => false,
                }
            },
            _ => false,
        }
    }

    /// The reply for the event.
    pub fn as_response(&self) -> (r: Response)
        ensures
            says_all(r, self.parts()),
    {
        match self {
            PubsubEvent::Message(channel, pattern, message) => {
                let mut items: Vec<Response> = Vec::new();
                let word: Vec<u8> = vec![109, 101, 115, 115, 97, 103, 101];
                proof {
                    assert(word@ =~= message_word());
                }
                items.push(Response::Data(word));
                items.push(Response::Data(copy(channel)));
                match pattern {
                    Some(pattern) => items.push(Response::Data(copy(pattern))),
                    None => (),
                }
                items.push(Response::Data(copy(message)));
                proof {
                    let parts = self.parts();
                    assert(says(items@[0], parts[0]));
                    assert(says(items@[1], parts[1]));
                    assert(says(items@[2], parts[2]));
                    if pattern is Some {
                        assert(says(items@[3], parts[3]));
                    }
                }
                Response::Array(items)
            },
            PubsubEvent::Subscription(channel, n) => {
                let word: Vec<u8> = vec![115, 117, 98, 115, 99, 114, 105, 98, 101];
                proof {
                    assert(word@ =~= subscribe_word());
                }
                counted(word, channel, *n)
            },
            PubsubEvent::Unsubscription(channel, n) => {
                let word: Vec<u8> = vec![117, 110, 115, 117, 98, 115, 99, 114, 105, 98, 101];
                proof {
                    assert(word@ =~= unsubscribe_word());
                }
                counted(word, channel, *n)
            },
            PubsubEvent::PatternSubscription(pattern, n) => {
                let word: Vec<u8> = vec![112, 115, 117, 98, 115, 99, 114, 105, 98, 101];
                proof {
                    assert(word@ =~= psubscribe_word());
                }
                counted(word, pattern, *n)
            },
            PubsubEvent::PatternUnsubscription(pattern, n) => {
                let word: Vec<u8> = vec![112, 117, 110, 115, 117, 98, 115, 99, 114, 105, 98, 101];
                proof {
                    assert(word@ =~= punsubscribe_word());
                }
                counted(word, pattern, *n)
            },
        }
    }
}

/// The words with which replies for events begin.
pub proof fn words_spelled()
    ensures
        message_word().len() == "message"@.len(),
        forall|i: int| 0 <= i < "message"@.len() ==> #[trigger] "message"@[i] == message_word()[i] as char,
        subscribe_word().len() == "subscribe"@.len(),
        forall|i: int| 0 <= i < "subscribe"@.len() ==> #[trigger] "subscribe"@[i] == subscribe_word()[i] as char,
        unsubscribe_word().len() == "unsubscribe"@.len(),
        forall|i: int| 0 <= i < "unsubscribe"@.len() ==> #[trigger] "unsubscribe"@[i] == unsubscribe_word()[i] as char,
        psubscribe_word().len() == "psubscribe"@.len(),
        forall|i: int| 0 <= i < "psubscribe"@.len() ==> #[trigger] "psubscribe"@[i] == psubscribe_word()[i] as char,
        punsubscribe_word().len() == "punsubscribe"@.len(),
        forall|i: int| 0 <= i < "punsubscribe"@.len() ==> #[trigger] "punsubscribe"@[i] == punsubscribe_word()[i] as char,
{
    reveal_strlit("message");
    reveal_strlit("subscribe");
    reveal_strlit("unsubscribe");
    reveal_strlit("psubscribe");
    reveal_strlit("punsubscribe");
}

/// What replies for events say: a word, the name of the channel or pattern, and
/// how many the client listens to; or for a message its channel, the pattern by
/// which it was reached if there is one, and the message.
pub proof fn events_say(name: Vec<u8>, n: usize, pattern: Vec<u8>, message: Vec<u8>)
    ensures
        PubsubEvent::Subscription(name, n).parts() == seq![
            Part::Data(subscribe_word()),
            Part::Data(name@),
            Part::Integer(n as i64),
        ],
        PubsubEvent::Unsubscription(name, n).parts() == seq![
            Part::Data(unsubscribe_word()),
            Part::Data(name@),
            Part::Integer(n as i64),
        ],
        PubsubEvent::PatternSubscription(name, n).parts() == seq![
            Part::Data(psubscribe_word()),
            Part::Data(name@),
            Part::Integer(n as i64),
        ],
        PubsubEvent::PatternUnsubscription(name, n).parts() == seq![
            Part::Data(punsubscribe_word()),
            Part::Data(name@),
            Part::Integer(n as i64),
        ],
        PubsubEvent::Message(name, None, message).parts() == seq![
            Part::Data(message_word()),
            Part::Data(name@),
            Part::Data(message@),
        ],
        PubsubEvent::Message(name, Some(pattern), message).parts() == seq![
            Part::Data(message_word()),
            Part::Data(name@),
            Part::Data(pattern@),
            Part::Data(message@),
        ],
{
}

/// A message has one channel, one pattern or none, and one text.
pub proof fn message_exactly(event: PubsubEvent, c: Vec<u8>, p: Vec<u8>, m: Vec<u8>, channel: Seq<u8>, pattern: Seq<u8>, message: Seq<u8>)
    ensures
        PubsubEvent::Message(c, Some(p), m).is_message(channel, Some(pattern), message) <==> c@ == channel && p@ == pattern && m@ == message,
        PubsubEvent::Message(c, None, m).is_message(channel, None, message) <==> c@ == channel && m@ == message,
        !PubsubEvent::Message(c, None, m).is_message(channel, Some(pattern), message),
        !PubsubEvent::Message(c, Some(p), m).is_message(channel, None, message),
        event.is_message(channel, None, message) || event.is_message(channel, Some(pattern), message) ==> event is Message,
{
}

} // verus!
