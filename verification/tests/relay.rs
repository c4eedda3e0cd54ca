use ws_relay::fanout::FanOut;
use ws_relay::identity::ConnectionId;
use ws_relay::registry::Registry;
use ws_relay::session::{Action, Event, Inbound, Session, Stage};

/// The write half of a connection, kept in memory. What the client has received so
/// far is shared with the test through `inbox`.
struct Sink {
    inbox: std::rc::Rc<std::cell::RefCell<Vec<String>>>,
    broken: std::rc::Rc<std::cell::Cell<bool>>,
}

impl Sink {
    fn write(&mut self, text: &str) -> bool {
        if self.broken.get() {
            return false;
        }
        self.inbox.borrow_mut().push(text.to_string());
        true
    }
}

/// A client of the relay, as the test sees it.
struct Client {
    session: Session,
    sink: Option<Sink>,
    inbox: std::rc::Rc<std::cell::RefCell<Vec<String>>>,
    broken: std::rc::Rc<std::cell::Cell<bool>>,
}

impl Client {
    fn received(&self) -> Vec<String> {
        self.inbox.borrow().clone()
    }
}

/// Performs the actions that follow from `event` until the session wants to read or
/// to stop, as the program around the library does.
fn drive(client: &mut Client, registry: &mut Registry<Sink>, event: Event) {
    let mut event = event;
    loop {
        let action = client.session.step(event).expect("the event is awaited");
        event = match action {
            Action::SendGreeting(text) => {
                Event::GreetingSent(client.sink.as_mut().unwrap().write(&text))
            }
            Action::Register(id) => {
                registry.register(id, client.sink.take().unwrap());
                Event::Completed
            }
            Action::Broadcast(payload) => {
                let mut fan = FanOut::begin(registry, payload);
                while let Some(pos) = fan.next() {
                    let text = fan.payload().clone();
                    let delivered = match registry.sink_at(pos) {
                        Some(sink) => sink.write(&text),
                        None => false,
                    };
                    fan.record(delivered);
                }
                Event::Completed
            }
            Action::Unregister(id) => {
                registry.unregister(id);
                Event::Completed
            }
            Action::Read | Action::Stop => return,
        };
    }
}

fn connect(registry: &mut Registry<Sink>, greeting_fails: bool) -> Client {
    let inbox = std::rc::Rc::new(std::cell::RefCell::new(Vec::new()));
    let broken = std::rc::Rc::new(std::cell::Cell::new(greeting_fails));
    let mut client = Client {
        session: Session::connect(),
        sink: Some(Sink { inbox: inbox.clone(), broken: broken.clone() }),
        inbox,
        broken,
    };
    drive(&mut client, registry, Event::Upgraded);
    client
}

fn send(client: &mut Client, registry: &mut Registry<Sink>, payload: &str) {
    drive(client, registry, Event::Frame(Inbound::Text(payload.to_string())));
}

fn is_uuid_text(text: &str) -> bool {
    let chars: Vec<char> = text.chars().collect();
    chars.len() == 36
        && chars.iter().enumerate().all(|(i, c)| {
            if i == 8 || i == 13 || i == 18 || i == 23 {
                *c == '-'
            } else {
                matches!(*c, '0'..='9' | 'a'..='f')
            }
        })
}

#[test]
fn two_clients_talk_and_one_leaves() {
    let mut registry: Registry<Sink> = Registry::new();

    let mut a = connect(&mut registry, false);
    assert_eq!(a.received().len(), 1);
    assert!(is_uuid_text(&a.received()[0]));
    assert_eq!(a.received()[0], a.session.id().to_text());

    let mut b = connect(&mut registry, false);
    assert_eq!(b.received().len(), 1);
    assert!(is_uuid_text(&b.received()[0]));
    assert_ne!(b.received()[0], a.received()[0]);
    assert_eq!(a.received().len(), 1);
    assert_eq!(registry.len(), 2);

    send(&mut a, &mut registry, "hello");
    assert_eq!(a.received()[1..], ["hello".to_string()]);
    assert_eq!(b.received()[1..], ["hello".to_string()]);

    drive(&mut b, &mut registry, Event::Frame(Inbound::Close));
    assert!(b.session.is_closed());
    assert!(!registry.contains(b.session.id()));
    assert!(registry.contains(a.session.id()));
    assert_eq!(registry.len(), 1);

    send(&mut a, &mut registry, "ping");
    assert_eq!(a.received()[1..], ["hello".to_string(), "ping".to_string()]);
    assert_eq!(b.received()[1..], ["hello".to_string()]);
}

#[test]
fn client_that_connects_and_closes_leaves_the_registry_as_it_was() {
    let mut registry: Registry<Sink> = Registry::new();
    let resident = connect(&mut registry, false);
    let before = registry.len();
    let order = registry.recipients();

    let mut visitor = connect(&mut registry, false);
    assert_eq!(registry.len(), before + 1);
    drive(&mut visitor, &mut registry, Event::Frame(Inbound::Close));
    assert!(visitor.session.is_closed());
    assert_eq!(registry.len(), before);
    assert_eq!(registry.recipients(), order);
    assert_eq!(visitor.received().len(), 1);
    assert_eq!(resident.received().len(), 1);
}

#[test]
fn client_whose_stream_ends_is_removed() {
    let mut registry: Registry<Sink> = Registry::new();
    let mut a = connect(&mut registry, false);
    let mut b = connect(&mut registry, false);
    drive(&mut a, &mut registry, Event::StreamEnded);
    assert!(a.session.is_closed());
    assert_eq!(registry.recipients(), vec![b.session.id()]);
    send(&mut b, &mut registry, "alone");
    assert_eq!(b.received()[1..], ["alone".to_string()]);
    assert_eq!(a.received().len(), 1);
}

#[test]
fn every_registered_client_receives_each_payload_once() {
    let mut registry: Registry<Sink> = Registry::new();
    let mut clients: Vec<Client> = (0..5).map(|_| connect(&mut registry, false)).collect();
    let mut greetings: Vec<String> = clients.iter().map(|c| c.received()[0].clone()).collect();
    greetings.sort();
    greetings.dedup();
    assert_eq!(greetings.len(), 5);

    send(&mut clients[2], &mut registry, "from the middle");
    for client in &clients {
        assert_eq!(client.received()[1..], ["from the middle".to_string()]);
    }
}

#[test]
fn frames_of_one_sender_arrive_in_the_order_sent() {
    let mut registry: Registry<Sink> = Registry::new();
    let mut a = connect(&mut registry, false);
    let b = connect(&mut registry, false);
    let c = connect(&mut registry, false);
    for payload in ["1", "2", "3", "4"] {
        send(&mut a, &mut registry, payload);
    }
    let expected: Vec<String> = ["1", "2", "3", "4"].iter().map(|s| s.to_string()).collect();
    assert_eq!(a.received()[1..], expected[..]);
    assert_eq!(b.received()[1..], expected[..]);
    assert_eq!(c.received()[1..], expected[..]);
}

#[test]
fn broken_sink_does_not_keep_the_payload_from_the_others() {
    let mut registry: Registry<Sink> = Registry::new();
    let mut a = connect(&mut registry, false);
    let b = connect(&mut registry, false);
    let c = connect(&mut registry, false);
    b.broken.set(true);
    send(&mut a, &mut registry, "still here");
    assert_eq!(a.received()[1..], ["still here".to_string()]);
    assert_eq!(b.received().len(), 1);
    assert_eq!(c.received()[1..], ["still here".to_string()]);
    assert_eq!(registry.len(), 3);
    assert_eq!(a.session.stage(), Stage::Active);
}

#[test]
fn broken_sender_still_reaches_the_others() {
    let mut registry: Registry<Sink> = Registry::new();
    let mut a = connect(&mut registry, false);
    let b = connect(&mut registry, false);
    a.broken.set(true);
    send(&mut a, &mut registry, "can you hear me");
    assert_eq!(a.received().len(), 1);
    assert_eq!(b.received()[1..], ["can you hear me".to_string()]);
    assert_eq!(a.session.stage(), Stage::Active);
}

#[test]
fn lost_greeting_does_not_keep_the_client_out() {
    let mut registry: Registry<Sink> = Registry::new();
    let mut a = connect(&mut registry, true);
    assert_eq!(a.received().len(), 0);
    assert_eq!(a.session.stage(), Stage::Active);
    assert!(registry.contains(a.session.id()));
    a.broken.set(false);
    let mut b = connect(&mut registry, false);
    send(&mut b, &mut registry, "welcome");
    assert_eq!(a.received(), vec!["welcome".to_string()]);
    send(&mut a, &mut registry, "thanks");
    assert_eq!(b.received()[1..], ["welcome".to_string(), "thanks".to_string()]);
}

#[test]
fn frames_other_than_text_reach_nobody() {
    let mut registry: Registry<Sink> = Registry::new();
    let mut a = connect(&mut registry, false);
    let b = connect(&mut registry, false);
    drive(&mut a, &mut registry, Event::Frame(Inbound::Other));
    assert_eq!(a.received().len(), 1);
    assert_eq!(b.received().len(), 1);
    assert_eq!(a.session.stage(), Stage::Active);
    assert_eq!(registry.len(), 2);
}

#[test]
fn identity_of_a_known_session_is_its_greeting() {
    let mut registry: Registry<Sink> = Registry::new();
    let inbox = std::rc::Rc::new(std::cell::RefCell::new(Vec::new()));
    let broken = std::rc::Rc::new(std::cell::Cell::new(false));
    let mut client = Client {
        session: Session::connect_as(ConnectionId::from_u128(
            0xaaaaaaaa_bbbb_4ccc_8ddd_eeeeeeeeeeee,
        )),
        sink: Some(Sink { inbox: inbox.clone(), broken: broken.clone() }),
        inbox,
        broken,
    };
    drive(&mut client, &mut registry, Event::Upgraded);
    assert_eq!(client.received(), vec!["aaaaaaaa-bbbb-4ccc-8ddd-eeeeeeeeeeee".to_string()]);
}
