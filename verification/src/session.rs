//! The life of one connection, from admission to removal, as a state machine.
//!
//! The machine never reads or writes a socket. It is told what happened
//! ([`Event`]) and answers with what is to be done next ([`Action`]); whoever owns
//! the socket performs the action and comes back with the event that it led to.

use crate::identity::ConnectionId;
use vstd::prelude::*;

verus! {

/// A frame received from the client.
#[derive(Debug, PartialEq, Eq)]
pub enum Inbound {
    /// A text frame with its payload.
    Text(String),
    /// The client asks to close the connection.
    Close,
    /// Any other kind of frame (binary, ping, pong). It is ignored.
    Other,
}

/// An [`Inbound`] frame as a mathematical value.
pub enum InboundView {
    Text(Seq<char>),
    Close,
    Other,
}

impl View for Inbound {
    type V = InboundView;

    open spec fn view(&self) -> InboundView {
        match self {
            Inbound::Text(payload) => InboundView::Text(payload@),
            Inbound::Close => InboundView::Close,
            Inbound::Other => InboundView::Other,
        }
    }
}

/// What happened to the connection since the last action.
#[derive(Debug, PartialEq, Eq)]
pub enum Event {
    /// The transport is ready: frames can be read and written.
    Upgraded,
    /// The write of the greeting ended; `true` if it succeeded.
    GreetingSent(bool),
    /// The last action, which reports nothing, has been carried out.
    Completed,
    /// A frame arrived.
    Frame(Inbound),
    /// Reading failed or the stream ended. The two are not told apart.
    StreamEnded,
}

/// An [`Event`] as a mathematical value.
pub enum EventView {
    Upgraded,
    GreetingSent(bool),
    Completed,
    Frame(InboundView),
    StreamEnded,
}

impl View for Event {
    type V = EventView;

    open spec fn view(&self) -> EventView {
        match self {
            Event::Upgraded => EventView::Upgraded,
            Event::GreetingSent(delivered) => EventView::GreetingSent(*delivered),
            Event::Completed => EventView::Completed,
            Event::Frame(frame) => EventView::Frame(frame@),
            Event::StreamEnded => EventView::StreamEnded,
        }
    }
}

/// What is to be done next for the connection.
#[derive(Debug, PartialEq, Eq)]
pub enum Action {
    /// Write one text frame with this payload, the identity of the connection, to the
    /// client, and report [`Event::GreetingSent`].
    SendGreeting(String),
    /// Hand the sink of the connection to the registry under this identity, and report
    /// [`Event::Completed`].
    Register(ConnectionId),
    /// Wait for the next frame, and report [`Event::Frame`] or [`Event::StreamEnded`].
    Read,
    /// Fan this payload out to every registered connection, to the end, and report
    /// [`Event::Completed`].
    Broadcast(String),
    /// Remove this identity from the registry, and report [`Event::Completed`].
    Unregister(ConnectionId),
    /// Nothing is left to do.
    Stop,
}

/// An [`Action`] as a mathematical value.
pub enum ActionView {
    SendGreeting(Seq<char>),
    Register(ConnectionId),
    Read,
    Broadcast(Seq<char>),
    Unregister(ConnectionId),
    Stop,
}

impl View for Action {
    type V = ActionView;

    open spec fn view(&self) -> ActionView {
        match self {
            Action::SendGreeting(text) => ActionView::SendGreeting(text@),
            Action::Register(id) => ActionView::Register(*id),
            Action::Read => ActionView::Read,
            Action::Broadcast(payload) => ActionView::Broadcast(payload@),
            Action::Unregister(id) => ActionView::Unregister(*id),
            Action::Stop => ActionView::Stop,
        }
    }
}

/// Where a session stands.
#[derive(Clone, Copy, Debug, PartialEq, Eq, Structural)]
pub enum Stage {
    /// The identity is drawn; the transport is awaited.
    Connecting,
    /// The greeting is being written.
    Greeting,
    /// The sink is being handed to the registry.
    Registered,
    /// The connection is a target of every broadcast, and its next frame is awaited.
    Active,
    /// Still active: a payload of this connection is being fanned out, and no frame is
    /// read until that is done.
    Relaying,
    /// Active no more: the client asked to close, and the entry is being removed.
    Closing,
    /// The end. The entry is removed once more, whichever way the session got here.
    Closed,
}

/// A session as a mathematical value.
pub struct SessionView {
    pub id: ConnectionId,
    pub stage: Stage,
}

/// The step that a session of identity `id` takes in `stage` on `event`: the stage it
/// moves to and the action it asks for. `None` where the stage does not await the
/// event.
pub open spec fn transition(stage: Stage, id: ConnectionId, event: EventView) -> Option<
    (Stage, ActionView),
> {
    match (stage, event) {
        (Stage::Connecting, EventView::Upgraded) => Some(
            (Stage::Greeting, ActionView::SendGreeting(id.text())),
        ),
        (Stage::Greeting, EventView::GreetingSent(_)) => Some(
            (Stage::Registered, ActionView::Register(id)),
        ),
        (Stage::Registered, EventView::Completed) => Some((Stage::Active, ActionView::Read)),
        (Stage::Active, EventView::Frame(InboundView::Text(payload))) => Some(
            (Stage::Relaying, ActionView::Broadcast(payload)),
        ),
        (Stage::Active, EventView::Frame(InboundView::Close)) => Some(
            (Stage::Closing, ActionView::Unregister(id)),
        ),
        (Stage::Active, EventView::Frame(InboundView::Other)) => Some(
            (Stage::Active, ActionView::Read),
        ),
        (Stage::Active, EventView::StreamEnded) => Some(
            (Stage::Closed, ActionView::Unregister(id)),
        ),
        (Stage::Relaying, EventView::Completed) => Some((Stage::Active, ActionView::Read)),
        (Stage::Closing, EventView::Completed) => Some(
            (Stage::Closed, ActionView::Unregister(id)),
        ),
        (Stage::Closed, EventView::Completed) => Some((Stage::Closed, ActionView::Stop)),
        _ => None,
    }
}

impl SessionView {
    /// Whether the session awaits `event` where it stands.
    pub open spec fn awaits(self, event: EventView) -> bool {
        transition(self.stage, self.id, event) is Some
    }

    /// The session after `event`. An event that is not awaited changes nothing.
    pub open spec fn after(self, event: EventView) -> SessionView {
        match transition(self.stage, self.id, event) {
            Some((stage, _)) => SessionView { id: self.id, stage },
            None => self,
        }
    }

    /// The session after the events of `events`, one after another.
    pub open spec fn after_all(self, events: Seq<EventView>) -> SessionView
        decreases events.len(),
    {
        if events.len() == 0 {
            self
        } else {
            self.after_all(events.drop_last()).after(events.last())
        }
    }

    /// The actions that the session asks for on the events of `events`, in order.
    pub open spec fn actions(self, events: Seq<EventView>) -> Seq<ActionView>
        decreases events.len(),
    {
        if events.len() == 0 {
            Seq::empty()
        } else {
            let earlier = self.actions(events.drop_last());
            let before = self.after_all(events.drop_last());
            match transition(before.stage, before.id, events.last()) {
                Some((_, action)) => earlier.push(action),
                None => earlier,
            }
        }
    }

    /// Whether each event of `events` is awaited when its turn comes.
    pub open spec fn accepts(self, events: Seq<EventView>) -> bool
        decreases events.len(),
    {
        events.len() == 0 || (self.accepts(events.drop_last()) && self.after_all(
            events.drop_last(),
        ).awaits(events.last()))
    }
}

/// The payloads of the text frames among `events`, in order.
pub open spec fn texts_received(events: Seq<EventView>) -> Seq<Seq<char>>
    decreases events.len(),
{
    if events.len() == 0 {
        Seq::empty()
    } else {
        let earlier = texts_received(events.drop_last());
        match events.last() {
            EventView::Frame(InboundView::Text(payload)) => earlier.push(payload),
            _ => earlier,
        }
    }
}

/// The payloads of the broadcasts among `actions`, in order.
pub open spec fn payloads_relayed(actions: Seq<ActionView>) -> Seq<Seq<char>>
    decreases actions.len(),
{
    if actions.len() == 0 {
        Seq::empty()
    } else {
        let earlier = payloads_relayed(actions.drop_last());
        match actions.last() {
            ActionView::Broadcast(payload) => earlier.push(payload),
            _ => earlier,
        }
    }
}

/// How many of `actions` send a greeting.
pub open spec fn greetings_sent(actions: Seq<ActionView>) -> nat
    decreases actions.len(),
{
    if actions.len() == 0 {
        0
    } else {
        let earlier = greetings_sent(actions.drop_last());
        match actions.last() {
            ActionView::SendGreeting(_) => earlier + 1,
            _ => earlier,
        }
    }
}

/// One connection on its way from admission to removal.
#[derive(Debug, PartialEq, Eq)]
pub struct Session {
    id: ConnectionId,
    stage: Stage,
}

impl View for Session {
    type V = SessionView;

    closed spec fn view(&self) -> SessionView {
        SessionView { id: self.id, stage: self.stage }
    }
}

impl Session {
    /// Admits a connection: draws its identity at random and waits for the transport.
    pub fn connect() -> (session: Session)
        ensures
            session@.stage == Stage::Connecting,
            session@.id.is_random(),
    {
        Session::connect_as(ConnectionId::generate())
    }

    /// Admits a connection under the identity `id`.
    pub fn connect_as(id: ConnectionId) -> (session: Session)
        ensures
            session@ == (SessionView { id, stage: Stage::Connecting }),
    {
        Session { id, stage: Stage::Connecting }
    }

    /// The identity of the connection. It is the same throughout the session.
    pub fn id(&self) -> (id: ConnectionId)
        ensures
            id == self@.id,
    {
        self.id
    }

    /// Where the session stands.
    pub fn stage(&self) -> (stage: Stage)
        ensures
            stage == self@.stage,
    {
        self.stage
    }

    /// Whether the session has reached its end.
    pub fn is_closed(&self) -> (closed: bool)
        ensures
            closed == (self@.stage == Stage::Closed),
    {
        match self.stage {
            Stage::Closed => true,
            _ => false,
        }
    }

    /// Takes the step that `event` calls for and returns the action to perform next.
    /// An event that the session does not await where it stands changes nothing and
    /// returns nothing.
    pub fn step(&mut self, event: Event) -> (action: Option<Action>)
        ensures
            final(self)@ == old(self)@.after(event@),
            match transition(old(self)@.stage, old(self)@.id, event@) {
                Some((_, expected)) => action is Some && action->0@ == expected,
                None => action is None,
            },
    {
        match self.stage {
            Stage::Connecting => match event {
                Event::Upgraded => {
                    self.stage = Stage::Greeting;
                    Some(Action::SendGreeting(self.id.to_text()))
                },
                _ => None,
            },
            Stage::Greeting => match event {
                Event::GreetingSent(_) => {
                    self.stage = Stage::Registered;
                    Some(Action::Register(self.id))
                },
                _ => None,
            },
            Stage::Registered => match event {
                Event::Completed => {
                    self.stage = Stage::Active;
                    Some(Action::Read)
                },
                _ => None,
            },
            Stage::Active => match event {
                Event::Frame(Inbound::Text(payload)) => {
                    self.stage = Stage::Relaying;
                    Some(Action::Broadcast(payload))
                },
                Event::Frame(Inbound::Close) => {
                    self.stage = Stage::Closing;
                    Some(Action::Unregister(self.id))
                },
                Event::Frame(Inbound::Other) => Some(Action::Read),
                Event::StreamEnded => {
                    self.stage = Stage::Closed;
                    Some(Action::Unregister(self.id))
                },
                _ => None,
            },
            Stage::Relaying => match event {
                Event::Completed => {
                    self.stage = Stage::Active;
                    Some(Action::Read)
                },
                _ => None,
            },
            Stage::Closing => match event {
                Event::Completed => {
                    self.stage = Stage::Closed;
                    Some(Action::Unregister(self.id))
                },
                _ => None,
            },
            Stage::Closed => match event {
                Event::Completed => Some(Action::Stop),
                _ => None,
            },
        }
    }
}

/// A session keeps its identity, whatever happens to it.
pub proof fn lemma_identity_is_kept(start: SessionView, events: Seq<EventView>)
    ensures
        start.after_all(events).id == start.id,
    decreases events.len(),
{
    if events.len() > 0 {
        lemma_identity_is_kept(start, events.drop_last());
    }
}

/// No step leads back to the stage in which a session starts.
pub proof fn lemma_connecting_is_left_for_good(start: SessionView, events: Seq<EventView>)
    requires
        start.stage != Stage::Connecting,
    ensures
        start.after_all(events).stage != Stage::Connecting,
    decreases events.len(),
{
    if events.len() > 0 {
        lemma_connecting_is_left_for_good(start, events.drop_last());
    }
}

/// A session that has left its first stage sends no greeting.
pub proof fn lemma_no_greeting_later(start: SessionView, events: Seq<EventView>)
    requires
        start.stage != Stage::Connecting,
    ensures
        greetings_sent(start.actions(events)) == 0,
    decreases events.len(),
{
    if events.len() > 0 {
        lemma_no_greeting_later(start, events.drop_last());
        lemma_connecting_is_left_for_good(start, events.drop_last());
        let before = start.after_all(events.drop_last());
        let earlier = start.actions(events.drop_last());
        match transition(before.stage, before.id, events.last()) {
            Some((_, action)) => {
                assert(earlier.push(action).drop_last() =~= earlier);
            },
            None => {},
        }
    }
}

/// Each connection is greeted once at most, and with its own identity: whatever
/// events reach a session, it asks for one greeting at most; and the greeting it asks
/// for when the transport is ready is the text of its identity.
pub proof fn lemma_greeted_once(id: ConnectionId, events: Seq<EventView>)
    ensures
        greetings_sent((SessionView { id, stage: Stage::Connecting }).actions(events)) <= 1,
        transition(Stage::Connecting, id, EventView::Upgraded) == Some(
            (Stage::Greeting, ActionView::SendGreeting(id.text())),
        ),
    decreases events.len(),
{
    let start = SessionView { id, stage: Stage::Connecting };
    if events.len() > 0 {
        lemma_greeted_once(id, events.drop_last());
        let before = start.after_all(events.drop_last());
        let earlier = start.actions(events.drop_last());
        lemma_identity_is_kept(start, events.drop_last());
        match transition(before.stage, before.id, events.last()) {
            Some((_, action)) => {
                assert(earlier.push(action).drop_last() =~= earlier);
                if action is SendGreeting {
                    assert(before.stage == Stage::Connecting);
                    lemma_still_connecting_means_silent(start, events.drop_last());
                }
            },
            None => {},
        }
    }
}

/// While a session is still in its first stage it has asked for nothing.
proof fn lemma_still_connecting_means_silent(start: SessionView, events: Seq<EventView>)
    requires
        start.after_all(events).stage == Stage::Connecting,
    ensures
        start.actions(events) == Seq::<ActionView>::empty(),
    decreases events.len(),
{
    if events.len() > 0 {
        let before = start.after_all(events.drop_last());
        assert(before.stage == Stage::Connecting) by {
            assert(before.after(events.last()).stage == Stage::Connecting);
        }
        lemma_still_connecting_means_silent(start, events.drop_last());
    }
}

/// A failed greeting does not keep the connection out: registration follows the
/// greeting whether the write succeeded or not.
pub proof fn lemma_greeting_failure_is_not_fatal(id: ConnectionId, delivered: bool)
    ensures
        transition(Stage::Greeting, id, EventView::GreetingSent(delivered)) == Some(
            (Stage::Registered, ActionView::Register(id)),
        ),
{
}

/// A session relays what it receives, unchanged and in order: when every event is
/// awaited at its turn, the payloads it asks to broadcast are the payloads of the text
/// frames it received, in the same order.
pub proof fn lemma_relays_in_order(start: SessionView, events: Seq<EventView>)
    requires
        start.accepts(events),
    ensures
        payloads_relayed(start.actions(events)) == texts_received(events),
    decreases events.len(),
{
    if events.len() > 0 {
        lemma_relays_in_order(start, events.drop_last());
        let before = start.after_all(events.drop_last());
        let earlier = start.actions(events.drop_last());
        match transition(before.stage, before.id, events.last()) {
            Some((_, action)) => {
                assert(earlier.push(action).drop_last() =~= earlier);
            },
            None => {},
        }
    }
}

/// One broadcast at a time: after a session has asked for a broadcast it accepts
/// nothing but the report that the broadcast is done, and only then reads on.
pub proof fn lemma_broadcasts_do_not_overlap(id: ConnectionId, payload: Seq<char>, next: EventView)
    ensures
        transition(Stage::Active, id, EventView::Frame(InboundView::Text(payload))) == Some(
            (Stage::Relaying, ActionView::Broadcast(payload)),
        ),
        transition(Stage::Relaying, id, next) is Some <==> next == EventView::Completed,
        transition(Stage::Relaying, id, EventView::Completed) == Some(
            (Stage::Active, ActionView::Read),
        ),
{
}

/// Every way out of the active stage removes the entry: a close frame removes it and
/// the end of the session removes it once more; the end of the stream goes straight
/// to the end of the session.
pub proof fn lemma_leaving_unregisters(id: ConnectionId)
    ensures
        (SessionView { id, stage: Stage::Active }).actions(
            seq![EventView::Frame(InboundView::Close), EventView::Completed, EventView::Completed],
        ) == seq![ActionView::Unregister(id), ActionView::Unregister(id), ActionView::Stop],
        (SessionView { id, stage: Stage::Active }).actions(
            seq![EventView::StreamEnded, EventView::Completed],
        ) == seq![ActionView::Unregister(id), ActionView::Stop],
        forall|stage: Stage, event: EventView|
            (#[trigger] transition(stage, id, event)) matches Some((Stage::Closed, action))
                ==> stage == Stage::Closed || action == ActionView::Unregister(id),
{
    let start = SessionView { id, stage: Stage::Active };
    let close = seq![
        EventView::Frame(InboundView::Close),
        EventView::Completed,
        EventView::Completed,
    ];
    let close2 = seq![EventView::Frame(InboundView::Close), EventView::Completed];
    let close1 = seq![EventView::Frame(InboundView::Close)];
    assert(close.drop_last() =~= close2);
    assert(close2.drop_last() =~= close1);
    assert(close1.drop_last() =~= Seq::<EventView>::empty());
    reveal_with_fuel(SessionView::after_all, 4);
    reveal_with_fuel(SessionView::actions, 4);
    assert(start.after_all(close1).stage == Stage::Closing);
    assert(start.after_all(close2).stage == Stage::Closed);
    assert(start.actions(close1) =~= seq![ActionView::Unregister(id)]);
    assert(start.actions(close2) =~= seq![ActionView::Unregister(id), ActionView::Unregister(id)]);
    assert(start.actions(close) =~= seq![
        ActionView::Unregister(id),
        ActionView::Unregister(id),
        ActionView::Stop,
    ]);
    let end = seq![EventView::StreamEnded, EventView::Completed];
    let end1 = seq![EventView::StreamEnded];
    assert(end.drop_last() =~= end1);
    assert(end1.drop_last() =~= Seq::<EventView>::empty());
    assert(start.after_all(end1).stage == Stage::Closed);
    assert(start.actions(end1) =~= seq![ActionView::Unregister(id)]);
    assert(start.actions(end) =~= seq![ActionView::Unregister(id), ActionView::Stop]);
}

/// The end is final: a session that is closed stays closed and asks for nothing but
/// to stop.
pub proof fn lemma_closed_is_final(start: SessionView, events: Seq<EventView>)
    requires
        start.stage == Stage::Closed,
    ensures
        start.after_all(events) == start,
        forall|i: int|
            0 <= i < start.actions(events).len() ==> #[trigger] start.actions(events)[i]
                == ActionView::Stop,
    decreases events.len(),
{
    if events.len() > 0 {
        lemma_closed_is_final(start, events.drop_last());
    }
}

} // verus!
