//! The connection registry: which connections are reachable, and through which sink.

use crate::identity::ConnectionId;
use vstd::prelude::*;

verus! {

/// The registry as a mathematical value: the registered identities in the order in
/// which they were admitted, and beside each the sink that writes to its connection.
#[verifier::ext_equal]
pub struct Roster<S> {
    pub ids: Seq<ConnectionId>,
    pub sinks: Seq<S>,
}

impl<S> Roster<S> {
    /// Every identity has one sink, and no identity occurs twice.
    pub open spec fn wf(self) -> bool {
        &&& self.ids.len() == self.sinks.len()
        &&& self.ids.no_duplicates()
    }

    /// The roster without entries.
    pub open spec fn empty() -> Roster<S> {
        Roster { ids: Seq::empty(), sinks: Seq::empty() }
    }

    /// The number of entries.
    pub open spec fn len(self) -> nat {
        self.ids.len()
    }

    /// Whether `id` is registered.
    pub open spec fn contains(self, id: ConnectionId) -> bool {
        self.ids.contains(id)
    }

    /// Where `id` stands in the order of admission, if it is registered.
    pub open spec fn position(self, id: ConnectionId) -> Option<int> {
        if self.ids.contains(id) {
            Some(self.ids.index_of(id))
        } else {
            None
        }
    }

    /// The sink registered for `id`, if there is one.
    pub open spec fn sink_of(self, id: ConnectionId) -> Option<S> {
        match self.position(id) {
            Some(k) => Some(self.sinks[k]),
            None => None,
        }
    }

    /// The roster after `id` has been registered with `sink`: a new identity goes to the
    /// end; one that is already present keeps its place and gets the new sink.
    pub open spec fn register(self, id: ConnectionId, sink: S) -> Roster<S> {
        match self.position(id) {
            Some(k) => Roster { ids: self.ids, sinks: self.sinks.update(k, sink) },
            None => Roster { ids: self.ids.push(id), sinks: self.sinks.push(sink) },
        }
    }

    /// The roster after `id` has been unregistered: its entry is gone and the others
    /// keep their order; without such an entry nothing changes.
    pub open spec fn unregister(self, id: ConnectionId) -> Roster<S> {
        match self.position(id) {
            Some(k) => Roster { ids: self.ids.remove(k), sinks: self.sinks.remove(k) },
            None => self,
        }
    }

    /// The roster with the sink at position `pos` replaced.
    pub open spec fn with_sink_at(self, pos: int, sink: S) -> Roster<S> {
        Roster { ids: self.ids, sinks: self.sinks.update(pos, sink) }
    }

    /// The roster as a mapping from identity to sink.
    pub open spec fn as_map(self) -> Map<ConnectionId, S> {
        Map::new(
            |id: ConnectionId| self.ids.contains(id),
            |id: ConnectionId| self.sinks[self.ids.index_of(id)],
        )
    }

    /// In a well-formed roster an identity stands at one position only.
    pub proof fn lemma_position_unique(self, id: ConnectionId, k: int)
        requires
            self.wf(),
            0 <= k < self.ids.len(),
            self.ids[k] == id,
        ensures
            self.position(id) == Some(k),
            self.sink_of(id) == Some(self.sinks[k]),
    {
        assert(self.ids.contains(id));
    }

    /// Registering keeps the roster well formed and, seen as a mapping, inserts the
    /// entry.
    pub proof fn lemma_register(self, id: ConnectionId, sink: S)
        requires
            self.wf(),
        ensures
            self.register(id, sink).wf(),
            self.register(id, sink).as_map() == self.as_map().insert(id, sink),
            self.register(id, sink).contains(id),
            self.register(id, sink).sink_of(id) == Some(sink),
            self.register(id, sink).len() == if self.contains(id) {
                self.len()
            } else {
                self.len() + 1
            },
    {
        let after = self.register(id, sink);
        match self.position(id) {
            Some(k) => {
                assert(after.ids[k] == id);
                after.lemma_position_unique(id, k);
                assert forall|other: ConnectionId| after.as_map().contains_key(other) implies
                    #[trigger] after.as_map()[other] == self.as_map().insert(id, sink)[other] by {
                    let j = self.ids.index_of(other);
                    if other != id {
                        assert(j != k);
                    }
                }
                assert(after.as_map() =~= self.as_map().insert(id, sink));
            },
            None => {
                let n = self.ids.len() as int;
                assert(after.ids[n] == id);
                assert forall|i: int, j: int|
                    0 <= i < after.ids.len() && 0 <= j < after.ids.len() && i != j implies
                    after.ids[i] != after.ids[j] by {
                    if i < n {
                        assert(self.ids.contains(self.ids[i]));
                    }
                    if j < n {
                        assert(self.ids.contains(self.ids[j]));
                    }
                }
                after.lemma_position_unique(id, n);
                assert forall|other: ConnectionId|
                    after.as_map().contains_key(other) <==> self.as_map().insert(
                        id,
                        sink,
                    ).contains_key(other) by {
                    if self.ids.contains(other) {
                        let j = self.ids.index_of(other);
                        assert(after.ids[j] == other);
                    }
                    if after.ids.contains(other) && other != id {
                        let j = after.ids.index_of(other);
                        assert(j < n);
                        assert(self.ids[j] == other);
                    }
                }
                assert forall|other: ConnectionId| after.as_map().contains_key(other) implies
                    #[trigger] after.as_map()[other] == self.as_map().insert(id, sink)[other] by {
                    if other != id {
                        let j = after.ids.index_of(other);
                        assert(j < n);
                        assert(self.ids[j] == other);
                        self.lemma_position_unique(other, j);
                    }
                }
                assert(after.as_map() =~= self.as_map().insert(id, sink));
            },
        }
    }

    /// Unregistering keeps the roster well formed and, seen as a mapping, removes the
    /// entry.
    pub proof fn lemma_unregister(self, id: ConnectionId)
        requires
            self.wf(),
        ensures
            self.unregister(id).wf(),
            self.unregister(id).as_map() == self.as_map().remove(id),
            !self.unregister(id).contains(id),
            self.unregister(id).len() == if self.contains(id) {
                self.len() - 1
            } else {
                self.len() as int
            },
    {
        let after = self.unregister(id);
        match self.position(id) {
            Some(k) => {
                assert forall|i: int| 0 <= i < after.ids.len() implies #[trigger] after.ids[i]
                    == self.ids[if i < k {
                    i
                } else {
                    i + 1
                }] by {}
                assert(after.ids.no_duplicates());
                assert(!after.ids.contains(id));
                assert forall|other: ConnectionId|
                    after.as_map().contains_key(other) <==> self.as_map().remove(
                        id,
                    ).contains_key(other) by {
                    if self.ids.contains(other) && other != id {
                        let j = self.ids.index_of(other);
                        let i = if j < k { j } else { j - 1 };
                        assert(after.ids[i] == other);
                    }
                }
                assert forall|other: ConnectionId| after.as_map().contains_key(other) implies
                    #[trigger] after.as_map()[other] == self.as_map().remove(id)[other] by {
                    let i = after.ids.index_of(other);
                    let j = if i < k { i } else { i + 1 };
                    assert(self.ids[j] == other);
                    self.lemma_position_unique(other, j);
                }
                assert(after.as_map() =~= self.as_map().remove(id));
            },
            None => {
                assert(after.as_map() =~= self.as_map().remove(id));
            },
        }
    }
}

/// Unregistering is idempotent: for an identity that is not registered it changes
/// nothing, so unregistering twice is the same as unregistering once.
pub proof fn lemma_unregister_idempotent<S>(roster: Roster<S>, id: ConnectionId)
    requires
        roster.wf(),
    ensures
        !roster.contains(id) ==> roster.unregister(id) == roster,
        roster.unregister(id).unregister(id) == roster.unregister(id),
{
    roster.lemma_unregister(id);
}

/// A connection that comes and goes leaves no trace: registering a new identity and
/// unregistering it again gives back the roster as it was, with as many entries as
/// before.
pub proof fn lemma_register_then_unregister<S>(roster: Roster<S>, id: ConnectionId, sink: S)
    requires
        roster.wf(),
        !roster.contains(id),
    ensures
        roster.register(id, sink).unregister(id) == roster,
        roster.register(id, sink).unregister(id).len() == roster.len(),
{
    let with = roster.register(id, sink);
    roster.lemma_register(id, sink);
    with.lemma_position_unique(id, roster.ids.len() as int);
    assert(with.unregister(id) =~= roster);
}

/// Unregistering one connection leaves every other one registered, with its sink and
/// in the same order relative to the rest.
pub proof fn lemma_unregister_keeps_others<S>(
    roster: Roster<S>,
    id: ConnectionId,
    other: ConnectionId,
)
    requires
        roster.wf(),
        other != id,
    ensures
        roster.unregister(id).contains(other) == roster.contains(other),
        roster.unregister(id).sink_of(other) == roster.sink_of(other),
{
    roster.lemma_unregister(id);
    let after = roster.unregister(id);
    assert(after.as_map().contains_key(other) == roster.as_map().contains_key(other));
    if roster.contains(other) {
        assert(after.as_map()[other] == roster.as_map()[other]);
    }
}

/// The registry of reachable connections: for each registered identity the sink that
/// writes to its connection, kept in the order of admission.
///
/// `S` is the sink. The registry owns it from registration to removal and never looks
/// inside it.
pub struct Registry<S> {
    ids: Vec<ConnectionId>,
    sinks: Vec<S>,
}

impl<S> View for Registry<S> {
    type V = Roster<S>;

    closed spec fn view(&self) -> Roster<S> {
        Roster { ids: self.ids@, sinks: self.sinks@ }
    }
}

impl<S> Registry<S> {
    /// The invariant of the registry: one sink for each identity, no identity twice.
    pub open spec fn wf(&self) -> bool {
        self@.wf()
    }

    /// An empty registry.
    pub fn new() -> (registry: Registry<S>)
        ensures
            registry.wf(),
            registry@ == Roster::<S>::empty(),
    {
        Registry { ids: Vec::new(), sinks: Vec::new() }
    }

    /// The number of registered connections.
    pub fn len(&self) -> (n: usize)
        ensures
            n == self@.len(),
    {
        self.ids.len()
    }

    /// Whether no connection is registered.
    pub fn is_empty(&self) -> (empty: bool)
        ensures
            empty == (self@.len() == 0),
    {
        self.ids.len() == 0
    }

    /// Where `id` stands in the order of admission, if it is registered.
    pub fn position(&self, id: ConnectionId) -> (found: Option<usize>)
        requires
            self.wf(),
        ensures
            match found {
                Some(k) => self@.position(id) == Some(k as int),
                None => self@.position(id) is None,
            },
    {
        let mut k: usize = 0;
        while k < self.ids.len()
            invariant
                k <= self.ids.len(),
                self.wf(),
                forall|j: int| 0 <= j < k ==> self.ids@[j] != id,
            decreases self.ids.len() - k,
        {
            if self.ids[k] == id {
                proof {
                    self@.lemma_position_unique(id, k as int);
                }
                return Some(k);
            }
            k += 1;
        }
        None
    }

    /// Whether `id` is registered.
    pub fn contains(&self, id: ConnectionId) -> (present: bool)
        requires
            self.wf(),
        ensures
            present == self@.contains(id),
    {
        self.position(id).is_some()
    }

    /// The identity at position `pos` in the order of admission.
    pub fn id_at(&self, pos: usize) -> (id: Option<ConnectionId>)
        ensures
            id == if pos < self@.len() {
                Some(self@.ids[pos as int])
            } else {
                None
            },
    {
        if pos < self.ids.len() {
            Some(self.ids[pos])
        } else {
            None
        }
    }

    /// The sink at position `pos` in the order of admission, to write to. Whatever the
    /// caller does to the sink, the registry keeps its identities and their order.
    pub fn sink_at(&mut self, pos: usize) -> (sink: Option<&mut S>)
        requires
            old(self).wf(),
        ensures
            final(self).wf(),
            sink is Some <==> pos < old(self)@.len(),
            match sink {
                Some(s) => *s == old(self)@.sinks[pos as int] && final(self)@ == old(
                    self,
                )@.with_sink_at(pos as int, *final(s)),
                None => final(self)@ == old(self)@,
            },
    {
        if pos < self.sinks.len() {
            Some(&mut self.sinks[pos])
        } else {
            None
        }
    }

    /// Registers `id` with `sink`. From now on every broadcast reaches it, until it is
    /// unregistered. An identity that is new goes to the end of the order and nothing
    /// is returned; for one that is already registered the sink is replaced and the
    /// former sink returned.
    pub fn register(&mut self, id: ConnectionId, sink: S) -> (displaced: Option<S>)
        requires
            old(self).wf(),
        ensures
            final(self).wf(),
            final(self)@ == old(self)@.register(id, sink),
            displaced == old(self)@.sink_of(id),
    {
        proof {
            self@.lemma_register(id, sink);
        }
        match self.position(id) {
            Some(k) => {
                self.sinks.push(sink);
                let former = self.sinks.swap_remove(k);
                assert(self@ =~= old(self)@.register(id, sink));
                Some(former)
            },
            None => {
                self.ids.push(id);
                self.sinks.push(sink);
                None
            },
        }
    }

    /// Unregisters `id` and returns its sink. For an identity that is not registered
    /// this changes nothing and returns nothing, so it may be called again at will.
    pub fn unregister(&mut self, id: ConnectionId) -> (removed: Option<S>)
        requires
            old(self).wf(),
        ensures
            final(self).wf(),
            final(self)@ == old(self)@.unregister(id),
            removed == old(self)@.sink_of(id),
    {
        proof {
            self@.lemma_unregister(id);
        }
        match self.position(id) {
            Some(k) => {
                self.ids.remove(k);
                let sink = self.sinks.remove(k);
                Some(sink)
            },
            None => None,
        }
    }

    /// The identities that a broadcast started now has to reach, in the order of
    /// admission: every registered connection, the sender among them.
    pub fn recipients(&self) -> (targets: Vec<ConnectionId>)
        ensures
            targets@ == self@.ids,
    {
        let mut targets: Vec<ConnectionId> = Vec::new();
        let mut k: usize = 0;
        while k < self.ids.len()
            invariant
                k <= self.ids.len(),
                targets@ == self.ids@.take(k as int),
            decreases self.ids.len() - k,
        {
            targets.push(self.ids[k]);
            assert(self.ids@.take(k + 1) =~= self.ids@.take(k as int).push(self.ids@[k as int]));
            k += 1;
        }
        assert(self.ids@.take(k as int) =~= self.ids@);
        targets
    }
}

} // verus!
