//! Fan-out of one text payload to every registered connection.
//!
//! A fan-out is started while the registry is held exclusively and is carried through
//! before the registry is let go. The caller writes to one sink after another and
//! reports how each write ended; the fan-out decides which sink comes next. A write
//! that fails is noted and the next target is attempted all the same.

use crate::identity::ConnectionId;
use crate::registry::{Registry, Roster};
use vstd::prelude::*;

verus! {

/// One attempt to write a text frame to a connection.
pub struct Write {
    /// The connection written to.
    pub to: ConnectionId,
    /// The payload of the frame.
    pub text: Seq<char>,
    /// Whether the write succeeded.
    pub delivered: bool,
}

/// The frames that the connection `recipient` has received according to `log`, in the
/// order in which they were written.
pub open spec fn inbox(log: Seq<Write>, recipient: ConnectionId) -> Seq<Seq<char>>
    decreases log.len(),
{
    if log.len() == 0 {
        Seq::empty()
    } else {
        let earlier = inbox(log.drop_last(), recipient);
        if log.last().to == recipient && log.last().delivered {
            earlier.push(log.last().text)
        } else {
            earlier
        }
    }
}

/// A fan-out as a mathematical value.
#[verifier::ext_equal]
pub struct FanOutView {
    /// The payload that every target is to receive, unchanged.
    pub payload: Seq<char>,
    /// The connections to write to, in this order.
    pub targets: Seq<ConnectionId>,
    /// How the writes made so far ended, one entry for each, in the order of `targets`.
    pub outcomes: Seq<bool>,
}

impl FanOutView {
    /// No more outcomes are recorded than there are targets.
    pub open spec fn wf(self) -> bool {
        self.outcomes.len() <= self.targets.len()
    }

    /// The fan-out of `payload` to `targets` before the first write.
    pub open spec fn begin(targets: Seq<ConnectionId>, payload: Seq<char>) -> FanOutView {
        FanOutView { payload, targets, outcomes: Seq::empty() }
    }

    /// Whether every target has been attempted.
    pub open spec fn is_complete(self) -> bool {
        self.outcomes.len() >= self.targets.len()
    }

    /// The position of the target to write to next, if one is left.
    pub open spec fn next(self) -> Option<int> {
        if self.is_complete() {
            None
        } else {
            Some(self.outcomes.len() as int)
        }
    }

    /// The fan-out after the write to the next target ended with `delivered`. The next
    /// target is the following one, whichever way the write ended. Once every target
    /// has been attempted nothing changes.
    pub open spec fn record(self, delivered: bool) -> FanOutView {
        if self.is_complete() {
            self
        } else {
            FanOutView { outcomes: self.outcomes.push(delivered), ..self }
        }
    }

    /// The fan-out after the outcomes `results` have been recorded one after another.
    pub open spec fn record_all(self, results: Seq<bool>) -> FanOutView
        decreases results.len(),
    {
        if results.len() == 0 {
            self
        } else {
            self.record_all(results.drop_last()).record(results.last())
        }
    }

    /// The writes attempted so far: one for each recorded outcome, to the target at the
    /// same position, each with the payload unchanged.
    pub open spec fn log(self) -> Seq<Write> {
        Seq::new(
            self.outcomes.len(),
            |i: int| Write { to: self.targets[i], text: self.payload, delivered: self.outcomes[i] },
        )
    }

    /// The targets whose write succeeded, in the order of the writes.
    pub open spec fn delivered(self) -> Seq<ConnectionId> {
        delivered_among(self.targets, self.outcomes, self.outcomes.len() as int)
    }
}

/// Among the first `n` targets, those whose outcome is a success, in order.
pub open spec fn delivered_among(targets: Seq<ConnectionId>, outcomes: Seq<bool>, n: int) -> Seq<
    ConnectionId,
>
    decreases n,
{
    if n <= 0 {
        Seq::empty()
    } else if outcomes[n - 1] {
        delivered_among(targets, outcomes, n - 1).push(targets[n - 1])
    } else {
        delivered_among(targets, outcomes, n - 1)
    }
}

/// A fan-out in progress: the payload, the targets taken from the registry when the
/// fan-out began, and the outcome of each write made so far.
pub struct FanOut {
    payload: String,
    targets: Vec<ConnectionId>,
    outcomes: Vec<bool>,
}

impl View for FanOut {
    type V = FanOutView;

    closed spec fn view(&self) -> FanOutView {
        FanOutView { payload: self.payload@, targets: self.targets@, outcomes: self.outcomes@ }
    }
}

impl FanOut {
    /// The invariant of a fan-out in progress.
    pub open spec fn wf(&self) -> bool {
        self@.wf()
    }

    /// Starts the fan-out of `payload` to every connection registered in `registry`,
    /// in the order of admission. The connection that sent the payload is a target
    /// like any other.
    pub fn begin<S>(registry: &Registry<S>, payload: String) -> (fan: FanOut)
        ensures
            fan.wf(),
            fan@ == FanOutView::begin(registry@.ids, payload@),
    {
        FanOut { payload, targets: registry.recipients(), outcomes: Vec::new() }
    }

    /// The payload to write to each target.
    pub fn payload(&self) -> (payload: &String)
        ensures
            payload@ == self@.payload,
    {
        &self.payload
    }

    /// Whether every target has been attempted.
    pub fn is_complete(&self) -> (complete: bool)
        ensures
            complete == self@.is_complete(),
    {
        self.outcomes.len() >= self.targets.len()
    }

    /// The position, in the registry's order of admission, of the sink to write to
    /// next; nothing once every target has been attempted.
    pub fn next(&self) -> (pos: Option<usize>)
        ensures
            match pos {
                Some(p) => self@.next() == Some(p as int),
                None => self@.next() is None,
            },
    {
        if self.outcomes.len() < self.targets.len() {
            Some(self.outcomes.len())
        } else {
            None
        }
    }

    /// The identity of the connection to write to next; nothing once every target has
    /// been attempted.
    pub fn next_target(&self) -> (target: Option<ConnectionId>)
        ensures
            target == match self@.next() {
                Some(p) => Some(self@.targets[p]),
                None => None,
            },
    {
        if self.outcomes.len() < self.targets.len() {
            Some(self.targets[self.outcomes.len()])
        } else {
            None
        }
    }

    /// Records how the write to the next target ended and moves on to the target after
    /// it. A failed write moves on exactly as a successful one does.
    pub fn record(&mut self, delivered: bool)
        requires
            old(self).wf(),
        ensures
            final(self).wf(),
            final(self)@ == old(self)@.record(delivered),
    {
        if self.outcomes.len() < self.targets.len() {
            self.outcomes.push(delivered);
        }
    }

    /// The number of writes that failed so far.
    pub fn failures(&self) -> (count: usize)
        requires
            self.wf(),
        ensures
            count == self@.outcomes.len() - self@.delivered().len(),
    {
        let mut count: usize = 0;
        let mut k: usize = 0;
        while k < self.outcomes.len()
            invariant
                k <= self.outcomes.len(),
                count <= k,
                count == k - delivered_among(self.targets@, self.outcomes@, k as int).len(),
            decreases self.outcomes.len() - k,
        {
            if !self.outcomes[k] {
                count += 1;
            }
            k += 1;
        }
        count
    }

    /// The connections whose write succeeded so far, in the order of the writes.
    pub fn delivered_to(&self) -> (reached: Vec<ConnectionId>)
        requires
            self.wf(),
        ensures
            reached@ == self@.delivered(),
    {
        let mut reached: Vec<ConnectionId> = Vec::new();
        let mut k: usize = 0;
        while k < self.outcomes.len()
            invariant
                k <= self.outcomes.len(),
                self.outcomes.len() <= self.targets.len(),
                reached@ == delivered_among(self.targets@, self.outcomes@, k as int),
            decreases self.outcomes.len() - k,
        {
            if self.outcomes[k] {
                reached.push(self.targets[k]);
            }
            k += 1;
        }
        reached
    }
}

/// Recording outcomes never changes the payload or the targets, and the outcomes
/// recorded are those reported, as far as targets were left for them.
pub proof fn lemma_record_all(fan: FanOutView, results: Seq<bool>)
    requires
        fan.wf(),
    ensures
        fan.record_all(results).wf(),
        fan.record_all(results).payload == fan.payload,
        fan.record_all(results).targets == fan.targets,
        fan.outcomes.len() + results.len() <= fan.targets.len() ==> fan.record_all(
            results,
        ).outcomes == fan.outcomes + results,
    decreases results.len(),
{
    if results.len() > 0 {
        lemma_record_all(fan, results.drop_last());
        if fan.outcomes.len() + results.len() <= fan.targets.len() {
            assert(fan.record_all(results).outcomes =~= fan.outcomes + results);
        }
    }
}

/// Every target is attempted, whatever the writes do: after one outcome for each
/// target, however many of them are failures, the fan-out is complete and its log
/// holds one write for each target, in order, each with the payload unchanged.
pub proof fn lemma_fan_out_reaches_every_target(
    targets: Seq<ConnectionId>,
    payload: Seq<char>,
    results: Seq<bool>,
)
    requires
        results.len() == targets.len(),
    ensures
        ({
            let done = FanOutView::begin(targets, payload).record_all(results);
            &&& done.is_complete()
            &&& done.outcomes == results
            &&& done.log().len() == targets.len()
            &&& forall|i: int|
                0 <= i < targets.len() ==> #[trigger] done.log()[i] == (Write {
                    to: targets[i],
                    text: payload,
                    delivered: results[i],
                })
        }),
{
    let start = FanOutView::begin(targets, payload);
    lemma_record_all(start, results);
    assert(start.outcomes + results =~= results);
}

/// Reading an inbox from two logs written one after the other gives the frames of the
/// first followed by the frames of the second.
pub proof fn lemma_inbox_concat(first: Seq<Write>, second: Seq<Write>, recipient: ConnectionId)
    ensures
        inbox(first + second, recipient) == inbox(first, recipient) + inbox(second, recipient),
    decreases second.len(),
{
    if second.len() == 0 {
        assert(first + second =~= first);
        assert(inbox(first, recipient) + inbox(second, recipient) =~= inbox(first, recipient));
    } else {
        lemma_inbox_concat(first, second.drop_last(), recipient);
        assert((first + second).drop_last() =~= first + second.drop_last());
        assert((first + second).last() == second.last());
        assert(inbox(first + second, recipient) =~= inbox(first, recipient) + inbox(
            second,
            recipient,
        ));
    }
}

/// In a log, the part written to the first `n` targets.
proof fn lemma_inbox_of_prefix(fan: FanOutView, recipient: ConnectionId, n: int)
    requires
        fan.wf(),
        fan.targets.no_duplicates(),
        0 <= n <= fan.outcomes.len(),
    ensures
        inbox(fan.log().take(n), recipient) == if exists|i: int|
            0 <= i < n && fan.targets[i] == recipient && fan.outcomes[i] {
            seq![fan.payload]
        } else {
            Seq::<Seq<char>>::empty()
        },
    decreases n,
{
    let log = fan.log();
    if n == 0 {
        assert(log.take(0).len() == 0);
    } else {
        lemma_inbox_of_prefix(fan, recipient, n - 1);
        assert(log.take(n).drop_last() =~= log.take(n - 1));
        assert(log.take(n).last() == log[n - 1]);
        let hit_before = exists|i: int|
            0 <= i < n - 1 && fan.targets[i] == recipient && fan.outcomes[i];
        let hit_now = fan.targets[n - 1] == recipient && fan.outcomes[n - 1];
        if hit_before {
            let i = choose|i: int|
                0 <= i < n - 1 && fan.targets[i] == recipient && fan.outcomes[i];
            assert(fan.targets[i] == recipient);
            assert(!hit_now);
            assert(0 <= i < n && fan.targets[i] == recipient && fan.outcomes[i]);
        } else if hit_now {
            assert(0 <= n - 1 < n && fan.targets[n - 1] == recipient && fan.outcomes[n - 1]);
            assert(inbox(log.take(n), recipient) =~= seq![fan.payload]);
        } else {
            assert forall|i: int| 0 <= i < n implies !(fan.targets[i] == recipient
                && fan.outcomes[i]) by {
                if i < n - 1 {
                    assert(!(0 <= i < n - 1 && fan.targets[i] == recipient && fan.outcomes[i]));
                }
            }
        }
    }
}

/// What one fan-out brings to one connection: a target whose write succeeded receives
/// the payload once and unchanged; a target whose write failed, and a connection that
/// is no target, receive nothing. Nothing else is in its inbox, so the outcome of the
/// write to any other target makes no difference to it.
pub proof fn lemma_inbox_of_fan_out(fan: FanOutView, recipient: ConnectionId)
    requires
        fan.wf(),
        fan.targets.no_duplicates(),
    ensures
        inbox(fan.log(), recipient) == if exists|i: int|
            0 <= i < fan.outcomes.len() && fan.targets[i] == recipient && fan.outcomes[i] {
            seq![fan.payload]
        } else {
            Seq::<Seq<char>>::empty()
        },
{
    lemma_inbox_of_prefix(fan, recipient, fan.outcomes.len() as int);
    assert(fan.log().take(fan.outcomes.len() as int) =~= fan.log());
}

/// A broadcast reaches exactly the registered connections, the sender among them: once
/// the fan-out over a roster is complete, a registered connection whose write
/// succeeded has received the payload once and unchanged, and any other connection,
/// be it one whose write failed or one that is not registered (any more), has
/// received nothing.
pub proof fn lemma_broadcast_reaches_the_registered<S>(
    roster: Roster<S>,
    payload: Seq<char>,
    results: Seq<bool>,
    recipient: ConnectionId,
)
    requires
        roster.wf(),
        results.len() == roster.len(),
    ensures
        inbox(FanOutView::begin(roster.ids, payload).record_all(results).log(), recipient)
            == match roster.position(recipient) {
            Some(k) => if results[k] {
                seq![payload]
            } else {
                Seq::<Seq<char>>::empty()
            },
            None => Seq::<Seq<char>>::empty(),
        },
{
    let done = FanOutView::begin(roster.ids, payload).record_all(results);
    lemma_fan_out_reaches_every_target(roster.ids, payload, results);
    lemma_record_all(FanOutView::begin(roster.ids, payload), results);
    lemma_inbox_of_fan_out(done, recipient);
    match roster.position(recipient) {
        Some(k) => {
            assert(roster.ids[k] == recipient);
            if results[k] {
                assert(0 <= k < done.outcomes.len() && done.targets[k] == recipient
                    && done.outcomes[k]);
            } else {
                assert forall|i: int| 0 <= i < done.outcomes.len() implies !(done.targets[i]
                    == recipient && done.outcomes[i]) by {
                    if done.targets[i] == recipient {
                        assert(i == k);
                    }
                }
            }
        },
        None => {
            assert forall|i: int| 0 <= i < done.outcomes.len() implies !(done.targets[i]
                == recipient && done.outcomes[i]) by {
                if done.targets[i] == recipient {
                    assert(roster.ids.contains(recipient));
                }
            }
        },
    }
}

/// A broken sink does not keep the payload from the others: in a complete fan-out,
/// each target whose own write succeeded has received the payload once and unchanged,
/// however the writes to the other targets ended.
pub proof fn lemma_failures_are_isolated(
    targets: Seq<ConnectionId>,
    payload: Seq<char>,
    results: Seq<bool>,
    k: int,
)
    requires
        targets.no_duplicates(),
        results.len() == targets.len(),
        0 <= k < targets.len(),
        results[k],
    ensures
        inbox(FanOutView::begin(targets, payload).record_all(results).log(), targets[k]) == seq![
            payload,
        ],
{
    let done = FanOutView::begin(targets, payload).record_all(results);
    lemma_fan_out_reaches_every_target(targets, payload, results);
    lemma_record_all(FanOutView::begin(targets, payload), results);
    lemma_inbox_of_fan_out(done, targets[k]);
    assert(0 <= k < done.outcomes.len() && done.targets[k] == targets[k] && done.outcomes[k]);
}

/// Frames arrive in the order in which they were sent: when the fan-out of one payload
/// is complete before the fan-out of the next begins, a connection that receives both
/// receives the first before the second, and each of them once.
pub proof fn lemma_fan_outs_keep_order(
    first: FanOutView,
    second: FanOutView,
    recipient: ConnectionId,
)
    requires
        first.wf(),
        second.wf(),
        first.targets.no_duplicates(),
        second.targets.no_duplicates(),
        inbox(first.log(), recipient).len() > 0,
        inbox(second.log(), recipient).len() > 0,
    ensures
        inbox(first.log() + second.log(), recipient) == seq![first.payload, second.payload],
{
    lemma_inbox_concat(first.log(), second.log(), recipient);
    lemma_inbox_of_fan_out(first, recipient);
    lemma_inbox_of_fan_out(second, recipient);
    assert(seq![first.payload] + seq![second.payload] =~= seq![first.payload, second.payload]);
}

} // verus!
