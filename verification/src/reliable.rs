//! The reliable tier: the sender keeps what has not been acknowledged and sends
//! it again at a fixed interval; the receiver lets each message through once.

use vstd::prelude::*;
use crate::wire::copy_bytes;

verus! {

/// A message that waits for its acknowledgement.
#[derive(Clone, Debug, PartialEq, Eq)]
pub struct Pending {
    pub sequence: u16,
    pub payload: Vec<u8>,
    /// When it last went out, in milliseconds.
    pub last_sent: u64,
}

/// What `Pending` stands for.
pub struct PendingEntry {
    pub sequence: u16,
    pub payload: Seq<u8>,
    pub last_sent: u64,
}

impl View for Pending {
    type V = PendingEntry;

    open spec fn view(&self) -> PendingEntry {
        PendingEntry { sequence: self.sequence, payload: self.payload@, last_sent: self.last_sent }
    }
}

/// A message that has to go out again, as handed to the caller.
#[derive(Clone, Debug, PartialEq, Eq)]
pub struct Resend {
    pub sequence: u16,
    pub payload: Vec<u8>,
}

/// What `Resend` stands for.
pub struct ResendEntry {
    pub sequence: u16,
    pub payload: Seq<u8>,
}

impl View for Resend {
    type V = ResendEntry;

    open spec fn view(&self) -> ResendEntry {
        ResendEntry { sequence: self.sequence, payload: self.payload@ }
    }
}

/// What a list of `Resend` stands for.
pub open spec fn resend_views(list: Seq<Resend>) -> Seq<ResendEntry> {
    Seq::new(list.len(), |i: int| list[i]@)
}

/// The buffer was full: the message was not taken.
#[derive(Clone, Copy, Debug, PartialEq, Eq, Structural)]
pub struct RetryOverflow;

/// An entry is due when a whole interval has passed since it last went out.
pub open spec fn is_due(entry: PendingEntry, now: u64, interval: u64) -> bool {
    entry.last_sent + interval <= now
}

/// The entries without those numbered `sequence`, in their order.
pub open spec fn without(entries: Seq<PendingEntry>, sequence: u16) -> Seq<PendingEntry>
    decreases entries.len(),
{
    if entries.len() == 0 {
        entries
    } else if entries.last().sequence != sequence {
        without(entries.drop_last(), sequence).push(entries.last())
    } else {
        without(entries.drop_last(), sequence)
    }
}

/// An entry as it goes out again.
pub open spec fn as_resend(entry: PendingEntry) -> ResendEntry {
    ResendEntry { sequence: entry.sequence, payload: entry.payload }
}

/// The entries that are due, in their order, as they go out again.
pub open spec fn due_entries(entries: Seq<PendingEntry>, now: u64, interval: u64) -> Seq<
    ResendEntry,
>
    decreases entries.len(),
{
    if entries.len() == 0 {
        Seq::empty()
    } else if is_due(entries.last(), now, interval) {
        due_entries(entries.drop_last(), now, interval).push(as_resend(entries.last()))
    } else {
        due_entries(entries.drop_last(), now, interval)
    }
}

/// An entry once a resend at `now` has passed over it.
pub open spec fn resent(entry: PendingEntry, now: u64, interval: u64) -> PendingEntry {
    if is_due(entry, now, interval) {
        PendingEntry { sequence: entry.sequence, payload: entry.payload, last_sent: now }
    } else {
        entry
    }
}

/// The entries once those that were due have gone out again at `now`.
pub open spec fn after_resend(entries: Seq<PendingEntry>, now: u64, interval: u64) -> Seq<
    PendingEntry,
> {
    Seq::new(entries.len(), |i: int| resent(entries[i], now, interval))
}

/// Some entry carries this number.
pub open spec fn holds_sequence(entries: Seq<PendingEntry>, sequence: u16) -> bool {
    exists|i: int| 0 <= i < entries.len() && (#[trigger] entries[i]).sequence == sequence
}

proof fn lemma_without_push(entries: Seq<PendingEntry>, entry: PendingEntry, sequence: u16)
    ensures
        without(entries.push(entry), sequence) == if entry.sequence != sequence {
            without(entries, sequence).push(entry)
        } else {
            without(entries, sequence)
        },
{
    assert(entries.push(entry).drop_last() =~= entries);
}

proof fn lemma_due_push(entries: Seq<PendingEntry>, entry: PendingEntry, now: u64, interval: u64)
    ensures
        due_entries(entries.push(entry), now, interval) == if is_due(entry, now, interval) {
            due_entries(entries, now, interval).push(as_resend(entry))
        } else {
            due_entries(entries, now, interval)
        },
{
    assert(entries.push(entry).drop_last() =~= entries);
}

/// What a sender still has to get across, oldest first, never more than its
/// capacity.
pub struct RetryBuffer {
    entries: Vec<Pending>,
    capacity: usize,
}

impl RetryBuffer {
    /// The waiting messages, oldest first.
    pub closed spec fn view(&self) -> Seq<PendingEntry> {
        self.entries@.map_values(|p: Pending| p@)
    }

    /// The most messages that may wait at once.
    pub closed spec fn capacity(&self) -> nat {
        self.capacity as nat
    }

    /// The buffer holds no more than its capacity.
    pub closed spec fn wf(&self) -> bool {
        self.entries@.len() <= self.capacity
    }

    /// A well-formed buffer is within its capacity.
    pub proof fn lemma_bounded(&self)
        requires
            self.wf(),
        ensures
            self@.len() <= self.capacity(),
    {
    }

    /// An empty buffer for up to `capacity` messages.
    pub fn new(capacity: usize) -> (r: RetryBuffer)
        ensures
            r.wf(),
            r@ == Seq::<PendingEntry>::empty(),
            r.capacity() == capacity,
    {
        let r = RetryBuffer { entries: Vec::new(), capacity };
        assert(r@ =~= Seq::<PendingEntry>::empty());
        r
    }

    /// How many messages wait.
    pub fn len(&self) -> (r: usize)
        ensures
            r == self@.len(),
    {
        self.entries.len()
    }

    /// Whether another message would be refused.
    pub fn is_full(&self) -> (r: bool)
        ensures
            r == (self@.len() >= self.capacity()),
    {
        self.entries.len() >= self.capacity
    }

    /// Takes a message that went out at `now`, unless the buffer is full: then
    /// nothing changes and the caller has to give the connection up.
    pub fn push(&mut self, sequence: u16, payload: Vec<u8>, now: u64) -> (r: Result<
        (),
        RetryOverflow,
    >)
        requires
            old(self).wf(),
        ensures
            final(self).wf(),
            final(self).capacity() == old(self).capacity(),
            r.is_err() <==> old(self)@.len() >= old(self).capacity(),
            r.is_err() ==> final(self)@ == old(self)@,
            r.is_ok() ==> final(self)@ == old(self)@.push(
                PendingEntry { sequence, payload: payload@, last_sent: now },
            ),
    {
        if self.entries.len() >= self.capacity {
            return Err(RetryOverflow);
        }
        let ghost entry = PendingEntry { sequence, payload: payload@, last_sent: now };
        self.entries.push(Pending { sequence, payload, last_sent: now });
        assert(self@ =~= old(self)@.push(entry));
        Ok(())
    }

    /// Drops every message numbered `sequence` and tells whether there was one.
    /// The others stay as they are, in their order.
    pub fn acknowledge(&mut self, sequence: u16) -> (found: bool)
        requires
            old(self).wf(),
        ensures
            final(self).wf(),
            final(self).capacity() == old(self).capacity(),
            final(self)@ == without(old(self)@, sequence),
            found == holds_sequence(old(self)@, sequence),
            !holds_sequence(final(self)@, sequence),
    {
        let ghost initial = self@;
        let ghost mut seen: int = 0;
        let mut found = false;
        let mut i: usize = 0;
        assert(initial.subrange(0, 0) =~= Seq::<PendingEntry>::empty());
        assert(self@.subrange(0, 0) =~= without(initial.subrange(0, 0), sequence));
        assert(self@.subrange(0, self@.len() as int) =~= initial.subrange(
            0,
            initial.len() as int,
        ));
        while i < self.entries.len()
            invariant
                i <= self.entries.len(),
                self.entries@.len() <= self.capacity,
                self.capacity == old(self).capacity,
                initial == old(self)@,
                0 <= seen <= initial.len(),
                self@.len() - i == initial.len() - seen,
                self@.subrange(0, i as int) == without(initial.subrange(0, seen), sequence),
                self@.subrange(i as int, self@.len() as int) == initial.subrange(
                    seen,
                    initial.len() as int,
                ),
                found == holds_sequence(initial.subrange(0, seen), sequence),
            decreases self.entries.len() - i,
        {
            let ghost before = self@;
            let ghost entry = before[i as int];
            assert(entry == before.subrange(i as int, before.len() as int)[0]);
            assert(entry == initial[seen]);
            assert(initial.subrange(0, seen + 1) =~= initial.subrange(0, seen).push(entry));
            proof {
                lemma_without_push(initial.subrange(0, seen), entry, sequence);
            }
            let ghost earlier = holds_sequence(initial.subrange(0, seen), sequence);
            assert(holds_sequence(initial.subrange(0, seen + 1), sequence) == (earlier
                || entry.sequence == sequence)) by {
                let longer = initial.subrange(0, seen + 1);
                let shorter = initial.subrange(0, seen);
                if holds_sequence(longer, sequence) {
                    let k = choose|k: int|
                        0 <= k < longer.len() && (#[trigger] longer[k]).sequence == sequence;
                    if k < seen {
                        assert(shorter[k].sequence == sequence);
                    }
                }
                if earlier {
                    let k = choose|k: int|
                        0 <= k < shorter.len() && (#[trigger] shorter[k]).sequence == sequence;
                    assert(longer[k].sequence == sequence);
                }
                if entry.sequence == sequence {
                    assert(longer[seen].sequence == sequence);
                }
            }
            if self.entries[i].sequence == sequence {
                self.entries.remove(i);
                found = true;
                proof {
                    seen = seen + 1;
                    assert(self@ =~= before.remove(i as int));
                    assert(self@.subrange(0, i as int) =~= before.subrange(0, i as int));
                    assert(self@.subrange(i as int, self@.len() as int) =~= before.subrange(
                        i as int,
                        before.len() as int,
                    ).subrange(1, before.len() - i));
                    assert(initial.subrange(seen, initial.len() as int)
                        =~= initial.subrange(seen - 1, initial.len() as int).subrange(
                        1,
                        initial.len() - seen + 1,
                    ));
                }
            } else {
                i += 1;
                proof {
                    seen = seen + 1;
                    assert(self@.subrange(0, i as int) =~= self@.subrange(0, i - 1).push(entry));
                    assert(self@.subrange(i as int, self@.len() as int) =~= before.subrange(
                        i - 1,
                        before.len() as int,
                    ).subrange(1, before.len() - i + 1));
                    assert(initial.subrange(seen, initial.len() as int)
                        =~= initial.subrange(seen - 1, initial.len() as int).subrange(
                        1,
                        initial.len() - seen + 1,
                    ));
                }
            }
        }
        proof {
            assert(self@.subrange(0, i as int) =~= self@);
            assert(initial.subrange(0, seen) =~= initial);
            lemma_without_drops(initial, sequence);
        }
        found
    }

    /// Picks the messages that have waited a whole `interval` since they last
    /// went out, oldest first, and notes that they go out again at `now`.
    pub fn resend_due(&mut self, now: u64, interval: u64) -> (due: Vec<Resend>)
        requires
            old(self).wf(),
        ensures
            final(self).wf(),
            final(self).capacity() == old(self).capacity(),
            resend_views(due@) == due_entries(old(self)@, now, interval),
            final(self)@ == after_resend(old(self)@, now, interval),
    {
        let ghost initial = self@;
        let mut due: Vec<Resend> = Vec::new();
        let mut i: usize = 0;
        assert(resend_views(due@) =~= due_entries(
            initial.subrange(0, 0),
            now,
            interval,
        ));
        while i < self.entries.len()
            invariant
                i <= self.entries.len(),
                self.entries@.len() <= self.capacity,
                self.capacity == old(self).capacity,
                initial == old(self)@,
                self@.len() == initial.len(),
                forall|k: int| 0 <= k < i ==> #[trigger] self@[k] == resent(initial[k], now, interval),
                forall|k: int| i <= k < initial.len() ==> #[trigger] self@[k] == initial[k],
                resend_views(due@) == due_entries(
                    initial.subrange(0, i as int),
                    now,
                    interval,
                ),
            decreases self.entries.len() - i,
        {
            let ghost before = self@;
            let ghost picked = resend_views(due@);
            let ghost entry = initial[i as int];
            assert(self@[i as int] == entry);
            assert(initial.subrange(0, i + 1) =~= initial.subrange(0, i as int).push(entry));
            proof {
                lemma_due_push(initial.subrange(0, i as int), entry, now, interval);
            }
            let last_sent = self.entries[i].last_sent;
            if last_sent <= now && now - last_sent >= interval {
                let sequence = self.entries[i].sequence;
                let payload = copy_bytes(&self.entries[i].payload);
                let again = copy_bytes(&self.entries[i].payload);
                self.entries.set(i, Pending { sequence, payload, last_sent: now });
                due.push(Resend { sequence, payload: again });
                assert(resend_views(due@) =~= picked.push(as_resend(entry)));
                assert(self@[i as int] == resent(entry, now, interval));
                assert forall|k: int| 0 <= k < i implies #[trigger] self@[k] == resent(
                    initial[k],
                    now,
                    interval,
                ) by {
                    assert(self@[k] == before[k]);
                }
                assert forall|k: int| i < k < initial.len() implies #[trigger] self@[k]
                    == initial[k] by {
                    assert(self@[k] == before[k]);
                }
            }
            i += 1;
        }
        assert(initial.subrange(0, i as int) =~= initial);
        assert(self@ =~= after_resend(initial, now, interval));
        due
    }
}

/// Once the due messages have gone out again at `now`, none is left that has
/// waited a whole interval: called at least once per interval, the buffer sends
/// every waiting message at least once per interval.
pub proof fn lemma_resend_leaves_none_due(entries: Seq<PendingEntry>, now: u64, interval: u64)
    requires
        interval > 0,
    ensures
        due_entries(after_resend(entries, now, interval), now, interval) == Seq::<
            ResendEntry,
        >::empty(),
        forall|i: int|
            0 <= i < entries.len() ==> !is_due(
                #[trigger] after_resend(entries, now, interval)[i],
                now,
                interval,
            ),
    decreases entries.len(),
{
    let after = after_resend(entries, now, interval);
    if entries.len() > 0 {
        lemma_resend_leaves_none_due(entries.drop_last(), now, interval);
        assert(after.drop_last() =~= after_resend(entries.drop_last(), now, interval));
    }
}

/// A resend keeps every message and its number: it drops nothing.
pub proof fn lemma_resend_keeps_all(entries: Seq<PendingEntry>, now: u64, interval: u64)
    ensures
        after_resend(entries, now, interval).len() == entries.len(),
        forall|i: int|
            0 <= i < entries.len() ==> {
                &&& (#[trigger] after_resend(entries, now, interval)[i]).sequence
                    == entries[i].sequence
                &&& after_resend(entries, now, interval)[i].payload == entries[i].payload
            },
{
}

/// Every due message is in what goes out again: one that waits, numbered
/// `entries[i].sequence`, stays in the buffer until it is acknowledged and is
/// handed out by every resend at which it is due.
pub proof fn lemma_due_is_resent(entries: Seq<PendingEntry>, now: u64, interval: u64, i: int)
    requires
        0 <= i < entries.len(),
        is_due(entries[i], now, interval),
    ensures
        due_entries(entries, now, interval).contains(as_resend(entries[i])),
    decreases entries.len(),
{
    let due = due_entries(entries, now, interval);
    if i == entries.len() - 1 {
        assert(due[due.len() - 1] == as_resend(entries[i]));
    } else {
        lemma_due_is_resent(entries.drop_last(), now, interval, i);
        let shorter = due_entries(entries.drop_last(), now, interval);
        let k = choose|k: int| 0 <= k < shorter.len() && shorter[k] == as_resend(entries[i]);
        assert(due[k] == as_resend(entries[i]));
    }
}

/// After the entries numbered `sequence` are gone, none carries that number.
pub proof fn lemma_without_drops(entries: Seq<PendingEntry>, sequence: u16)
    ensures
        !holds_sequence(without(entries, sequence), sequence),
    decreases entries.len(),
{
    if entries.len() > 0 {
        lemma_without_drops(entries.drop_last(), sequence);
        let shorter = without(entries.drop_last(), sequence);
        let left = without(entries, sequence);
        if holds_sequence(left, sequence) {
            let k = choose|k: int| 0 <= k < left.len() && (#[trigger] left[k]).sequence == sequence;
            if k < shorter.len() {
                assert(shorter[k].sequence == sequence);
            }
        }
    }
}

/// What the receiver remembers once a message numbered `sequence` has arrived:
/// a number it knows changes nothing; a new one joins at the end, and the oldest
/// leaves when there are more than `limit`.
pub open spec fn remember(seen: Seq<u16>, limit: nat, sequence: u16) -> Seq<u16> {
    if seen.contains(sequence) {
        seen
    } else if seen.len() >= limit {
        seen.drop_first().push(sequence)
    } else {
        seen.push(sequence)
    }
}

/// The receiving end of the reliable tier: it remembers the numbers of the
/// messages it delivered most recently and refuses a message it remembers.
pub struct ReliableReceiver {
    remembered: Vec<u16>,
    limit: usize,
}

impl ReliableReceiver {
    /// The numbers remembered, oldest first.
    pub closed spec fn view(&self) -> Seq<u16> {
        self.remembered@
    }

    /// How many numbers are remembered at most.
    pub closed spec fn limit(&self) -> nat {
        self.limit as nat
    }

    /// At least one number can be remembered, and no more than the limit are.
    pub closed spec fn wf(&self) -> bool {
        1 <= self.limit && self.remembered@.len() <= self.limit
    }

    /// A message with this number would be delivered.
    pub open spec fn accepts(&self, sequence: u16) -> bool {
        !self@.contains(sequence)
    }

    /// A well-formed receiver remembers at least one number, and no more
    /// than its limit.
    pub proof fn lemma_bounded(&self)
        requires
            self.wf(),
        ensures
            self.limit() >= 1,
            self@.len() <= self.limit(),
    {
    }

    /// A receiver that has seen nothing and remembers up to `limit` numbers,
    /// and one number where `limit` is zero.
    pub fn new(limit: usize) -> (r: ReliableReceiver)
        ensures
            r.wf(),
            r@ == Seq::<u16>::empty(),
            r.limit() == if limit == 0 {
                1
            } else {
                limit as nat
            },
    {
        ReliableReceiver {
            remembered: Vec::new(),
            limit: if limit == 0 {
                1
            } else {
                limit
            },
        }
    }

    /// Whether a message with this number was delivered and is still remembered.
    pub fn remembers(&self, sequence: u16) -> (r: bool)
        ensures
            r == self@.contains(sequence),
    {
        let mut i: usize = 0;
        while i < self.remembered.len()
            invariant
                i <= self.remembered.len(),
                forall|k: int| 0 <= k < i ==> self.remembered@[k] != sequence,
            decreases self.remembered.len() - i,
        {
            if self.remembered[i] == sequence {
                assert(self@[i as int] == sequence);
                return true;
            }
            i += 1;
        }
        false
    }

    /// Takes note of an arriving message and tells whether to deliver it. A
    /// repeat is refused and changes nothing. The caller acknowledges the
    /// message either way.
    pub fn accept(&mut self, sequence: u16) -> (deliver: bool)
        requires
            old(self).wf(),
        ensures
            final(self).wf(),
            final(self).limit() == old(self).limit(),
            deliver == old(self).accepts(sequence),
            final(self)@ == remember(old(self)@, old(self).limit(), sequence),
    {
        if self.remembers(sequence) {
            return false;
        }
        if self.remembered.len() >= self.limit {
            self.remembered.remove(0);
            assert(self.remembered@ =~= old(self)@.drop_first());
        }
        self.remembered.push(sequence);
        true
    }
}

/// A message that arrives again while its number is remembered is refused: it
/// takes effect at most once.
pub proof fn lemma_repeat_is_remembered(seen: Seq<u16>, limit: nat, sequence: u16)
    requires
        limit >= 1,
    ensures
        remember(seen, limit, sequence).contains(sequence),
        remember(remember(seen, limit, sequence), limit, sequence) == remember(
            seen,
            limit,
            sequence,
        ),
{
    let after = remember(seen, limit, sequence);
    if !seen.contains(sequence) {
        assert(after[after.len() - 1] == sequence);
    }
}

} // verus!
