//! The broker's side of one connection.
//!
//! Not a broker: one session serves one client and keeps no topic tree. What it
//! takes is handed up, and what it is given is delivered to its one client. Where
//! a function takes a packet, `None` says that the client closed the connection.
use crate::error::{protocol_error, Error, ErrorView};
use crate::packet::{encode, frame_of, Packet, PacketView, Publish};
use crate::show::show;
use crate::step::{origin_uri, Arrived, ArrivedView, Next, Step, StepView};
use crate::{client, error, packet, show, step};
use vstd::prelude::*;
use vstd::slice::slice_to_vec;
use vstd::string::StringExecFns;

verus! {

/// What a client did.
#[derive(Clone, Debug, PartialEq, Eq)]
pub enum Event {
    /// The client published; here is the message.
    Published(Arrived),
    /// The client subscribed to these filters, and was granted them.
    Subscribed(Vec<String>),
}

/// What an [`Event`] says.
#[verifier::ext_equal]
pub enum EventView {
    Published(ArrivedView),
    Subscribed(Seq<Seq<char>>),
}

impl DeepView for Event {
    type V = EventView;

    open spec fn deep_view(&self) -> EventView {
        match *self {
            Event::Published(arrived) => EventView::Published(arrived@),
            Event::Subscribed(filters) => EventView::Subscribed(filters.deep_view()),
        }
    }
}

/// One client's worth of broker.
pub struct Session {
    peer: String,
    client_id: String,
    subscribed: Vec<String>,
}

/// What a [`Session`] knows.
#[verifier::ext_equal]
pub struct SessionView {
    /// Where the client connected from.
    pub peer: Seq<char>,
    /// Who connected, as the client named itself.
    pub client_id: Seq<char>,
    /// The filters the client subscribed to so far.
    pub subscribed: Seq<Seq<char>>,
}

impl View for Session {
    type V = SessionView;

    closed spec fn view(&self) -> SessionView {
        SessionView {
            peer: self.peer@,
            client_id: self.client_id@,
            subscribed: self.subscribed.deep_view(),
        }
    }
}

/// The CONNACK that accepts a client.
pub open spec fn acceptance() -> PacketView {
    PacketView::ConnAck { session_present: false, code: 0 }
}

/// The session with a client at `peer` that opened with `packet`.
pub open spec fn opened(peer: Seq<char>, packet: Option<PacketView>) -> Result<
    SessionView,
    ErrorView,
> {
    match packet {
        Some(PacketView::Connect { client_id, .. }) => Ok(
            SessionView { peer, client_id, subscribed: Seq::empty() },
        ),
        _ => Err(error::breach("the client did not open with CONNECT"@)),
    }
}

/// The code that grants a filter: the quality of service asked for, 1 at most.
pub open spec fn grant(qos: u8) -> u8 {
    if qos > 1 {
        1
    } else {
        qos
    }
}

/// The codes that grant `filters`.
pub open spec fn grants(filters: Seq<(Seq<char>, u8)>) -> Seq<u8> {
    Seq::new(filters.len(), |i: int| grant(filters[i].1))
}

/// `filters` without the quality of service asked for.
pub open spec fn names(filters: Seq<(Seq<char>, u8)>) -> Seq<Seq<char>> {
    Seq::new(filters.len(), |i: int| filters[i].0)
}

impl SessionView {
    /// The session once a packet of its client has been taken in: a subscription
    /// adds its filters, and nothing else changes it.
    pub open spec fn after(self, packet: Option<PacketView>) -> SessionView {
        match packet {
            Some(PacketView::Subscribe { filters, .. }) => SessionView {
                subscribed: self.subscribed + names(filters),
                ..self
            },
            _ => self,
        }
    }

    /// The step that a packet of the client leads to: a message is acknowledged
    /// where it has an identifier, a subscription is granted, a ping is answered,
    /// an acknowledgement is absorbed, and what only a broker sends is an error.
    pub open spec fn event_step(self, packet: Option<PacketView>) -> Result<
        StepView<Option<EventView>>,
        ErrorView,
    > {
        match packet {
            Some(PacketView::Publish(publish)) => Ok(
                StepView {
                    send: match publish.id {
                        Some(id) => Some(packet::frame(PacketView::PubAck(id))),
                        None => None,
                    },
                    next: Next::Return(
                        Some(
                            EventView::Published(
                                ArrivedView {
                                    origin_uri: step::origin(
                                        self.peer,
                                        publish.topic,
                                        publish.qos,
                                    ),
                                    bytes: publish.payload,
                                },
                            ),
                        ),
                    ),
                },
            ),
            Some(PacketView::Subscribe { id, filters }) => match packet::encoded(
                PacketView::SubAck { id, codes: grants(filters) },
            ) {
                Ok(bytes) => Ok(
                    StepView {
                        send: Some(bytes),
                        next: Next::Return(Some(EventView::Subscribed(names(filters)))),
                    },
                ),
                Err(error) => Err(error),
            },
            Some(PacketView::PingReq) => Ok(
                StepView { send: Some(packet::frame(PacketView::PingResp)), next: Next::Read },
            ),
            Some(PacketView::PubAck(_)) => Ok(StepView { send: None, next: Next::Read }),
            Some(PacketView::Disconnect) => Ok(StepView { send: None, next: Next::Return(None) }),
            None => Ok(StepView { send: None, next: Next::Return(None) }),
            Some(other) => Err(error::breach(show::shown(other) + " from a client"@)),
        }
    }

    /// The step that a packet of the client leads to where only a message is
    /// waited for.
    pub open spec fn publish_step(self, packet: Option<PacketView>) -> Result<
        StepView<Option<ArrivedView>>,
        ErrorView,
    > {
        match self.event_step(packet) {
            Ok(step) => Ok(
                StepView {
                    send: step.send,
                    next: match step.next {
                        Next::Return(Some(EventView::Published(arrived))) => Next::Return(
                            Some(arrived),
                        ),
                        Next::Return(None) => Next::Return(None),
                        _ => Next::Read,
                    },
                },
            ),
            Err(error) => Err(error),
        }
    }
}

/// The codes that grant `filters`, and their names.
fn grant_all(filters: &Vec<(String, u8)>) -> (result: (Vec<u8>, Vec<String>))
    ensures
        result.0@ == grants(filters.deep_view()),
        result.1.deep_view() == names(filters.deep_view()),
{
    let ghost views = filters.deep_view();
    let mut codes: Vec<u8> = Vec::new();
    let mut granted: Vec<String> = Vec::new();
    let mut i: usize = 0;
    while i < filters.len()
        invariant
            i <= filters@.len(),
            views == filters.deep_view(),
            codes@ == grants(views.take(i as int)),
            granted.deep_view() == names(views.take(i as int)),
        decreases filters@.len() - i,
    {
        assert(views[i as int].0 == filters[i as int].0@);
        assert(views[i as int].1 == filters[i as int].1);
        let qos = filters[i].1;
        codes.push(
            if qos > 1 {
                1
            } else {
                qos
            },
        );
        let ghost before = granted.deep_view();
        let name = filters[i].0.clone();
        granted.push(name);
        assert(granted.deep_view() =~= before.push(name@));
        i = i + 1;
        assert(codes@ =~= grants(views.take(i as int)));
        assert(granted.deep_view() =~= names(views.take(i as int)));
    }
    assert(views.take(i as int) =~= views);
    (codes, granted)
}

/// Append copies of `names` to `out`.
fn put_names(out: &mut Vec<String>, names: &Vec<String>)
    ensures
        final(out).deep_view() == old(out).deep_view() + names.deep_view(),
{
    let ghost start = out.deep_view();
    let ghost views = names.deep_view();
    let mut i: usize = 0;
    assert(out.deep_view() =~= start + views.take(0));
    while i < names.len()
        invariant
            i <= names@.len(),
            views == names.deep_view(),
            out.deep_view() == start + views.take(i as int),
        decreases names@.len() - i,
    {
        let ghost before = out.deep_view();
        let name = names[i].clone();
        out.push(name);
        assert(out.deep_view() =~= before.push(name@));
        i = i + 1;
        assert(out.deep_view() =~= start + views.take(i as int));
    }
    assert(views.take(i as int) =~= views);
}

impl Session {
    /// A session with a client at `peer` that opened with `packet`, and the
    /// CONNACK to send. It fails where the packet is not CONNECT.
    pub fn accept(peer: String, packet: Option<Packet>) -> (result: Result<
        (Session, Vec<u8>),
        Error,
    >)
        ensures
            match opened(peer@, packet.deep_view()) {
                Ok(opened) => result matches Ok((session, out)) && session@ == opened && out@
                    == packet::frame(acceptance()),
                Err(error) => result matches Err(failure) && failure@ == error,
            },
    {
        match packet {
            Some(Packet::Connect { client_id, .. }) => {
                let session = Session { peer, client_id, subscribed: Vec::new() };
                assert(session@.subscribed =~= Seq::empty());
                Ok((session, frame_of(&Packet::ConnAck { session_present: false, code: 0 })))
            },
            _ => Err(protocol_error("the client did not open with CONNECT")),
        }
    }

    /// Who connected, as the client named itself.
    pub fn client_id(&self) -> (name: &str)
        ensures
            name@ == self@.client_id,
    {
        self.client_id.as_str()
    }

    /// The filters the client subscribed to so far.
    pub fn subscribed(&self) -> (filters: &[String])
        ensures
            filters.deep_view() == self@.subscribed,
    {
        self.subscribed.as_slice()
    }

    /// Take in a packet while waiting for the next message the client publishes,
    /// which is `None` where it disconnected. Subscriptions are granted on the way
    /// and pings answered.
    pub fn next_publish(&mut self, packet: Option<Packet>) -> (result: Result<
        Step<Option<Arrived>>,
        Error,
    >)
        ensures
            final(self)@ == old(self)@.after(packet.deep_view()),
            error::outcome(result) == old(self)@.publish_step(packet.deep_view()),
    {
        let step = self.next_event(packet)?;
        let next = match step.next {
            Next::Return(Some(Event::Published(arrived))) => Next::Return(Some(arrived)),
            Next::Return(Some(Event::Subscribed(_))) => Next::Read,
            Next::Return(None) => Next::Return(None),
            Next::Read => Next::Read,
        };
        Ok(Step { send: step.send, next })
    }

    /// Take in a packet while waiting for the next thing the client does, which is
    /// `None` where it disconnected. Pings are answered on the way and
    /// acknowledgements absorbed.
    ///
    /// It fails where the client sent what only a broker sends, and where the
    /// grants of a subscription cannot be encoded.
    pub fn next_event(&mut self, packet: Option<Packet>) -> (result: Result<
        Step<Option<Event>>,
        Error,
    >)
        ensures
            final(self)@ == old(self)@.after(packet.deep_view()),
            error::outcome(result) == old(self)@.event_step(packet.deep_view()),
    {
        match packet {
            Some(Packet::Publish(publish)) => {
                let send = match publish.id {
                    Some(id) => Some(frame_of(&Packet::PubAck(id))),
                    None => None,
                };
                let origin_uri = origin_uri(
                    self.peer.as_str(),
                    publish.topic.as_str(),
                    publish.qos,
                );
                let arrived = Arrived { origin_uri, bytes: publish.payload };
                Ok(Step { send, next: Next::Return(Some(Event::Published(arrived))) })
            },
            Some(Packet::Subscribe { id, filters }) => {
                let (codes, granted) = grant_all(&filters);
                put_names(&mut self.subscribed, &granted);
                let bytes = encode(&Packet::SubAck { id, codes })?;
                Ok(
                    Step {
                        send: Some(bytes),
                        next: Next::Return(Some(Event::Subscribed(granted))),
                    },
                )
            },
            Some(Packet::PingReq) => Ok(
                Step { send: Some(frame_of(&Packet::PingResp)), next: Next::Read },
            ),
            Some(Packet::Disconnect) => Ok(Step { send: None, next: Next::Return(None) }),
            None => Ok(Step { send: None, next: Next::Return(None) }),
            Some(Packet::PubAck(_)) => Ok(Step { send: None, next: Next::Read }),
            Some(other) => {
                let mut message = show(&other);
                message.append(" from a client");
                Err(protocol_error(message.as_str()))
            },
        }
    }

    /// The PUBLISH that delivers `payload` on `topic` to the client, at quality of
    /// service 0. It fails where the message cannot be encoded.
    pub fn deliver(&self, topic: &str, payload: &[u8]) -> (result: Result<Vec<u8>, Error>)
        ensures
            packet::is_encoded(result, client::publish_packet(topic@, payload@, 0, None)),
    {
        let packet = Packet::Publish(
            Publish {
                topic: topic.to_owned(),
                qos: 0,
                retain: false,
                id: None,
                payload: slice_to_vec(payload),
            },
        );
        encode(&packet)
    }
}

} // verus!
