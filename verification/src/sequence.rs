//! Sequence numbers: sixteen bits that wrap around, ordered within a window of
//! half their range, and the "latest wins" rule of the sequenced tier.

use vstd::prelude::*;

verus! {

/// How many sequence numbers there are.
pub const SEQUENCE_SPACE: u32 = 65536;

/// A number counts as newer than another while it is less than this far ahead.
pub const SEQUENCE_WINDOW: u32 = 32768;

/// How many steps forward lead from `from` to `to`, going round at the top.
pub open spec fn steps_ahead(from: u16, to: u16) -> int {
    (to - from) % (SEQUENCE_SPACE as int)
}

/// `a` was sent after `b`: it lies ahead of `b`, by less than the window.
pub open spec fn is_newer(a: u16, b: u16) -> bool {
    0 < steps_ahead(b, a) < SEQUENCE_WINDOW
}

/// The sequence number that follows `s`.
pub open spec fn successor(s: u16) -> u16 {
    if s == u16::MAX {
        0
    } else {
        (s + 1) as u16
    }
}

/// Tells whether `a` is newer than `b`, across the wrap as well.
pub fn sequence_newer(a: u16, b: u16) -> (r: bool)
    ensures
        r == is_newer(a, b),
{
    let ahead: u32 = if a >= b {
        (a - b) as u32
    } else {
        SEQUENCE_SPACE - ((b - a) as u32)
    };
    0 < ahead && ahead < SEQUENCE_WINDOW
}

/// Of two different numbers less than a window apart, exactly one is newer.
pub proof fn lemma_newer_is_one_way(a: u16, b: u16)
    ensures
        !is_newer(a, a),
        is_newer(a, b) ==> !is_newer(b, a),
        is_newer(successor(a), a),
{
}

/// The numbers that a sender puts on the messages of one tier.
#[derive(Clone, Copy, Debug, PartialEq, Eq, Structural)]
pub struct SequenceCounter {
    pub next: u16,
}

impl SequenceCounter {
    /// A counter that starts at zero.
    pub fn new() -> (r: SequenceCounter)
        ensures
            r.next == 0,
    {
        SequenceCounter { next: 0 }
    }

    /// Hands out the next number; the one after it is newer.
    pub fn take(&mut self) -> (r: u16)
        ensures
            r == old(self).next,
            final(self).next == successor(r),
            is_newer(final(self).next, r),
    {
        let r = self.next;
        self.next = if r == u16::MAX {
            0
        } else {
            r + 1
        };
        r
    }
}

/// The receiving end of the sequenced tier: it remembers the newest number it
/// has let through and lets through only what is newer still.
#[derive(Clone, Copy, Debug, PartialEq, Eq, Structural)]
pub struct SequencedReceiver {
    pub latest: Option<u16>,
}

impl SequencedReceiver {
    /// A message with this number would be delivered.
    pub open spec fn accepts(self, sequence: u16) -> bool {
        match self.latest {
            None => true,
            Some(latest) => is_newer(sequence, latest),
        }
    }

    /// The receiver after a message with this number has arrived.
    pub open spec fn after(self, sequence: u16) -> SequencedReceiver {
        if self.accepts(sequence) {
            SequencedReceiver { latest: Some(sequence) }
        } else {
            self
        }
    }

    /// A receiver that has seen nothing yet.
    pub fn new() -> (r: SequencedReceiver)
        ensures
            r.latest.is_none(),
    {
        SequencedReceiver { latest: None }
    }

    /// Takes note of an arriving message and tells whether to deliver it. A
    /// stale or repeated message is refused and changes nothing.
    pub fn accept(&mut self, sequence: u16) -> (deliver: bool)
        ensures
            deliver == old(self).accepts(sequence),
            *final(self) == old(self).after(sequence),
    {
        let deliver = match self.latest {
            None => true,
            Some(latest) => sequence_newer(sequence, latest),
        };
        if deliver {
            self.latest = Some(sequence);
        }
        deliver
    }

    /// Latest wins. Take two messages numbered `earlier < later`, less than a
    /// window apart, and a receiver that would deliver the later one. Whichever
    /// of the two arrives first, the later one is delivered, nothing is
    /// delivered after it, and it is what the receiver remembers.
    pub proof fn lemma_latest_wins(start: SequencedReceiver, earlier: u16, later: u16)
        requires
            earlier < later,
            later - earlier < SEQUENCE_WINDOW,
            start.accepts(later),
        ensures
            start.after(earlier).accepts(later),
            start.after(earlier).after(later).latest == Some(later),
            !start.after(later).accepts(earlier),
            start.after(later).after(earlier).latest == Some(later),
    {
    }

    /// A message that arrives twice is delivered at most once.
    pub proof fn lemma_repeat_is_refused(start: SequencedReceiver, sequence: u16)
        ensures
            !start.after(sequence).accepts(sequence),
    {
        if start.accepts(sequence) {
        } else {
            assert(start.latest.is_some());
        }
    }
}

} // verus!
