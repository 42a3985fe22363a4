//! One client's bounded outbound queue of wire frames, with a non-blocking
//! send: a full or closed mailbox drops the frame instead of stalling the
//! publisher.
use vstd::prelude::*;

use crate::MAILBOX_CAPACITY;

verus! {

/// The per-client delivery queue. `closed` models the consumer end having
/// gone away: a closed mailbox accepts nothing more.
pub struct Mailbox {
    frames: Vec<String>,
    closed: bool,
}

/// Mathematical model of a mailbox: the pending frames in delivery order.
#[verifier::ext_equal]
pub struct MailboxV {
    pub frames: Seq<Seq<char>>,
    pub closed: bool,
}

impl View for Mailbox {
    type V = MailboxV;

    closed spec fn view(&self) -> MailboxV {
        MailboxV { frames: self.frames.deep_view(), closed: self.closed }
    }
}

impl DeepView for Mailbox {
    type V = MailboxV;

    open spec fn deep_view(&self) -> MailboxV {
        self.view()
    }
}

/// Whether a non-blocking send on this mailbox succeeds: it is open and has
/// room for one more frame.
pub open spec fn mailbox_accepts(m: MailboxV) -> bool {
    !m.closed && m.frames.len() < MAILBOX_CAPACITY
}

/// What a non-blocking send leaves behind: the frame is queued if the mailbox
/// accepts it, and dropped otherwise.
pub open spec fn mailbox_send(m: MailboxV, f: Seq<char>) -> MailboxV {
    if mailbox_accepts(m) {
        MailboxV { frames: m.frames.push(f), closed: m.closed }
    } else {
        m
    }
}

impl Mailbox {
    /// An empty, open mailbox.
    pub fn new() -> (r: Mailbox)
        ensures
            r@.frames == Seq::<Seq<char>>::empty(),
            !r@.closed,
    {
        Mailbox { frames: Vec::new(), closed: false }
    }

    /// Non-blocking send. Returns whether the frame was queued; a full or
    /// closed mailbox drops it and reports failure.
    pub fn try_send(&mut self, frame: String) -> (ok: bool)
        ensures
            ok == mailbox_accepts(old(self)@),
            final(self)@ == mailbox_send(old(self)@, frame@),
    {
        if self.closed || self.frames.len() >= MAILBOX_CAPACITY {
            false
        } else {
            let ghost f0 = self.frames.deep_view();
            self.frames.push(frame);
            proof {
                assert(self.frames.deep_view() =~= f0.push(frame@));
            }
            true
        }
    }

    /// Takes the oldest pending frame, if any: the consumer side of the
    /// queue, drained by the transport loop.
    pub fn next_frame(&mut self) -> (r: Option<String>)
        ensures
            final(self)@.closed == old(self)@.closed,
            old(self)@.frames.len() == 0 ==> (r is None && final(self)@ == old(self)@),
            old(self)@.frames.len() > 0 ==> (match r {
                Some(f) => f@ == old(self)@.frames[0] && final(self)@.frames == old(
                    self,
                )@.frames.drop_first(),
                None => false,
            }),
    {
        if self.frames.len() == 0 {
            assert(self@ =~~= old(self)@);
            None
        } else {
            let ghost f0 = self.frames.deep_view();
            let f = self.frames.remove(0);
            proof {
                assert(self.frames.deep_view() =~= f0.drop_first());
            }
            Some(f)
        }
    }

    /// Marks the consumer end gone; every later send fails.
    pub fn close(&mut self)
        ensures
            final(self)@.closed,
            final(self)@.frames == old(self)@.frames,
    {
        self.closed = true;
    }

    /// How many frames are pending.
    pub fn pending(&self) -> (n: usize)
        ensures
            n == self@.frames.len(),
    {
        self.frames.len()
    }
}

} // verus!
