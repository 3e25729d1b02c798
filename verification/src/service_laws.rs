//! Laws of whole conversations on a connection.

use vstd::prelude::*;
use crate::http;
use crate::http::Frame;
use crate::http_laws;
use crate::model::BookView;
use crate::service;

verus! {

/// How far a conversation has come.
#[verifier::ext_equal]
pub struct Conversation {
    /// The book.
    pub book: BookView,
    /// Its order slots.
    pub capacity: int,
    /// The bytes sent so far.
    pub sent: Seq<u8>,
    /// The bytes received that belong to no request handled so far.
    pub pending: Seq<u8>,
    /// Whether the connection is still served.
    pub open: bool,
}

impl Conversation {
    /// The conversation after further bytes have arrived.
    pub open spec fn receive(self, bytes: Seq<u8>) -> Conversation {
        Conversation { pending: self.pending + bytes, ..self }
    }

    /// The conversation after all requests that have arrived as a whole.
    pub open spec fn proceed(self) -> Conversation
        decreases self.pending.len(),
    {
        match http::frame(self.pending) {
            Frame::Request { route, length, end } => if self.open {
                let body = self.pending.subrange(end - length, end as int);
                let (c, messages) = service::command(route, body);
                let reply = service::reply_to(self.book, self.capacity, c, messages);
                proof {
                    http_laws::lemma_frame(self.pending);
                }
                Conversation {
                    book: service::book_after(self.book, self.capacity, c, messages),
                    capacity: service::slots_after(self.book, self.capacity, c, messages),
                    sent: match reply {
                        Some(r) => self.sent + service::response(r),
                        None => self.sent,
                    },
                    pending: self.pending.skip(end as int),
                    open: reply is Some,
                }.proceed()
            } else {
                self
            },
            Frame::TooLong => Conversation { open: false, ..self },
            Frame::Incomplete => self,
        }
    }
}

/// It does not matter in what portions the bytes of a connection arrive: as long as the connection
/// is served, the book and all that is sent come out the same.
pub proof fn law_conversation_does_not_depend_on_portions(
    c: Conversation,
    first: Seq<u8>,
    second: Seq<u8>,
)
    ensures
        ({
            let parts = c.receive(first).proceed().receive(second).proceed();
            let whole = c.receive(first + second).proceed();
            &&& parts.book == whole.book
            &&& parts.capacity == whole.capacity
            &&& parts.sent == whole.sent
            &&& parts.open == whole.open
            &&& parts.pending == whole.pending
        }),
{
    assert(c.receive(first + second) =~= c.receive(first).receive(second));
    lemma_proceed_twice(c.receive(first), second);
}

proof fn lemma_proceed_twice(c: Conversation, more: Seq<u8>)
    ensures
        c.proceed().receive(more).proceed() == c.receive(more).proceed(),
    decreases c.pending.len(),
{
    match http::frame(c.pending) {
        Frame::Incomplete => {},
        Frame::TooLong => {
            http_laws::law_request_is_not_changed_by_what_follows(c.pending, more);
        },
        Frame::Request { route, length, end } => {
            http_laws::lemma_frame(c.pending);
            http_laws::law_request_is_not_changed_by_what_follows(c.pending, more);
            if c.open {
                let all = c.pending + more;
                let body = c.pending.subrange(end - length, end as int);
                let (k, messages) = service::command(route, body);
                let reply = service::reply_to(c.book, c.capacity, k, messages);
                let next = Conversation {
                    book: service::book_after(c.book, c.capacity, k, messages),
                    capacity: service::slots_after(c.book, c.capacity, k, messages),
                    sent: match reply {
                        Some(r) => c.sent + service::response(r),
                        None => c.sent,
                    },
                    pending: c.pending.skip(end as int),
                    open: reply is Some,
                };
                assert(all.subrange(end - length, end as int) =~= body);
                assert(all.skip(end as int) =~= c.pending.skip(end as int) + more);
                assert(c.proceed() == next.proceed());
                assert(c.receive(more).proceed() == next.receive(more).proceed());
                lemma_proceed_twice(next, more);
            }
        },
    }
}

} // verus!
