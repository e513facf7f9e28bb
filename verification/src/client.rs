//! The client's side of one connection to a broker.
//!
//! A [`Client`] decides what to send and what a reply means; whoever holds the
//! socket writes and reads for it. Where a function takes a reply, `None` says
//! that the broker closed the connection.
use crate::error::{protocol_error, Error, ErrorView};
use crate::packet::{encode, frame_of, Packet, PacketView, Publish, PublishView};
use crate::step::{origin_uri, Arrived, ArrivedView, Step, StepView, Next};
use crate::text::put_decimal;
use crate::{error, packet, step, text};
use vstd::prelude::*;
use vstd::slice::slice_to_vec;
use vstd::string::StringExecFns;

verus! {

/// What a client presents when it connects.
#[derive(Clone, Debug)]
pub struct Credentials {
    pub client_id: String,
    pub username: Option<String>,
    pub password: Option<Vec<u8>>,
}

/// What [`Credentials`] hold.
#[verifier::ext_equal]
pub struct CredentialsView {
    pub client_id: Seq<char>,
    pub username: Option<Seq<char>>,
    pub password: Option<Seq<u8>>,
}

impl View for Credentials {
    type V = CredentialsView;

    open spec fn view(&self) -> CredentialsView {
        CredentialsView {
            client_id: self.client_id@,
            username: self.username.deep_view(),
            password: packet::optional_bytes(self.password),
        }
    }
}

impl Default for Credentials {
    /// No name, and nothing else to present.
    fn default() -> (credentials: Credentials)
        ensures
            credentials@ == (CredentialsView {
                client_id: Seq::empty(),
                username: None,
                password: None,
            }),
    {
        Credentials { client_id: String::new(), username: None, password: None }
    }
}

/// One client of a broker.
pub struct Client {
    broker: String,
    next_id: u16,
}

/// What a [`Client`] knows.
#[verifier::ext_equal]
pub struct ClientView {
    /// The broker, as it was named.
    pub broker: Seq<char>,
    /// The packet identifier used last, or 0 before the first.
    pub last_id: u16,
}

impl View for Client {
    type V = ClientView;

    closed spec fn view(&self) -> ClientView {
        ClientView { broker: self.broker@, last_id: self.next_id }
    }
}

impl ClientView {
    /// The packet identifier to use next: one more, but never 0.
    pub open spec fn next_id(self) -> u16 {
        if self.last_id == u16::MAX {
            1
        } else {
            (self.last_id + 1) as u16
        }
    }

    /// The client once that identifier is used.
    pub open spec fn advanced(self) -> ClientView {
        ClientView { last_id: self.next_id(), ..self }
    }
}

/// The CONNECT that presents `credentials`.
pub open spec fn connect_packet(credentials: CredentialsView) -> PacketView {
    PacketView::Connect {
        client_id: credentials.client_id,
        username: credentials.username,
        password: credentials.password,
        keep_alive: 0,
    }
}

/// The PUBLISH of `payload` on `topic`.
pub open spec fn publish_packet(
    topic: Seq<char>,
    payload: Seq<u8>,
    qos: u8,
    id: Option<u16>,
) -> PacketView {
    PacketView::Publish(PublishView { topic, qos, retain: false, id, payload })
}

/// The SUBSCRIBE to one filter.
pub open spec fn subscribe_packet(id: u16, filter: Seq<char>, qos: u8) -> PacketView {
    PacketView::Subscribe { id, filters: seq![(filter, qos)] }
}

/// What the reply to CONNECT comes to.
pub open spec fn connect_verdict(reply: Option<PacketView>) -> Result<(), ErrorView> {
    match reply {
        Some(PacketView::ConnAck { code, .. }) => if code == 0 {
            Ok(())
        } else {
            Err(
                error::breach(
                    "the broker refused the connection with code "@ + text::decimal(code as nat),
                ),
            )
        },
        _ => Err(error::breach("the broker did not answer CONNECT"@)),
    }
}

/// What becomes of a packet that the broker sent.
pub enum Served {
    /// It is dealt with: send what there is to send, and read the next.
    Again(Option<Vec<u8>>),
    /// It is for the operation in hand; `None` where the broker disconnected.
    Handed(Option<Packet>),
}

/// What a [`Served`] says.
#[verifier::ext_equal]
pub enum ServedView {
    Again(Option<Seq<u8>>),
    Handed(Option<PacketView>),
}

impl View for Served {
    type V = ServedView;

    open spec fn view(&self) -> ServedView {
        match *self {
            Served::Again(send) => ServedView::Again(packet::optional_bytes(send)),
            Served::Handed(reply) => ServedView::Handed(reply.deep_view()),
        }
    }
}

/// What becomes of a packet that the broker sent: a ping is answered, the
/// answer to one is absorbed, and the rest is handed on.
pub open spec fn served(reply: Option<PacketView>) -> ServedView {
    match reply {
        Some(PacketView::PingReq) => ServedView::Again(Some(packet::frame(PacketView::PingResp))),
        Some(PacketView::PingResp) => ServedView::Again(None),
        Some(PacketView::Disconnect) => ServedView::Handed(None),
        other => ServedView::Handed(other),
    }
}

/// What the reply to PUBLISH with the identifier `id` comes to.
pub open spec fn publish_verdict(id: u16, reply: Option<PacketView>) -> Result<(), ErrorView> {
    match reply {
        Some(PacketView::PubAck(acked)) => if acked == id {
            Ok(())
        } else {
            Err(error::breach("a PUBACK for another packet"@))
        },
        _ => Err(error::breach("the broker did not acknowledge"@)),
    }
}

/// What the reply to SUBSCRIBE with the identifier `id` comes to.
pub open spec fn subscribe_verdict(
    id: u16,
    filter: Seq<char>,
    reply: Option<PacketView>,
) -> Result<(), ErrorView> {
    match reply {
        Some(PacketView::SubAck { id: acked, codes }) => if acked != id {
            Err(error::breach("the broker did not answer SUBSCRIBE"@))
        } else if codes.len() > 0 && codes[0] == 0x80 {
            Err(error::breach("the broker refused "@ + filter))
        } else {
            Ok(())
        },
        _ => Err(error::breach("the broker did not answer SUBSCRIBE"@)),
    }
}

/// The step of an operation that waits for a verdict on a packet of the broker.
pub open spec fn verdict_step(
    served: ServedView,
    verdict: spec_fn(Option<PacketView>) -> Result<(), ErrorView>,
) -> Result<StepView<()>, ErrorView> {
    match served {
        ServedView::Again(send) => Ok(StepView { send, next: Next::Read }),
        ServedView::Handed(reply) => match verdict(reply) {
            Ok(_) => Ok(StepView { send: None, next: Next::Return(()) }),
            Err(error) => Err(error),
        },
    }
}

/// The step of waiting for the PUBACK of `id`.
pub open spec fn publish_step(id: u16, reply: Option<PacketView>) -> Result<
    StepView<()>,
    ErrorView,
> {
    verdict_step(served(reply), |handed: Option<PacketView>| publish_verdict(id, handed))
}

/// The step of waiting for the SUBACK of `id`, which answers the subscription to
/// `filter`.
pub open spec fn subscribe_step(id: u16, filter: Seq<char>, reply: Option<PacketView>) -> Result<
    StepView<()>,
    ErrorView,
> {
    verdict_step(
        served(reply),
        |handed: Option<PacketView>| subscribe_verdict(id, filter, handed),
    )
}

/// The step of waiting for a message from `broker`: a message is acknowledged
/// where it has an identifier, the wait ends without one where the broker
/// disconnected, and anything else is passed over.
pub open spec fn message_step(broker: Seq<char>, reply: Option<PacketView>) -> StepView<
    Option<ArrivedView>,
> {
    match served(reply) {
        ServedView::Again(send) => StepView { send, next: Next::Read },
        ServedView::Handed(Some(PacketView::Publish(publish))) => StepView {
            send: match publish.id {
                Some(id) => Some(packet::frame(PacketView::PubAck(id))),
                None => None,
            },
            next: Next::Return(
                Some(
                    ArrivedView {
                        origin_uri: step::origin(broker, publish.topic, publish.qos),
                        bytes: publish.payload,
                    },
                ),
            ),
        },
        ServedView::Handed(None) => StepView { send: None, next: Next::Return(None) },
        ServedView::Handed(Some(_)) => StepView { send: None, next: Next::Read },
    }
}

impl Client {
    /// A client of `broker`, and the CONNECT to send to it. It fails where the
    /// credentials cannot be encoded.
    pub fn connect(broker: &str, credentials: &Credentials) -> (result: Result<
        (Client, Vec<u8>),
        Error,
    >)
        ensures
            match packet::encoded(connect_packet(credentials@)) {
                Ok(bytes) => result matches Ok((client, out)) && client@ == (ClientView {
                    broker: broker@,
                    last_id: 0,
                }) && out@ == bytes,
                Err(error) => result matches Err(failure) && failure@ == error,
            },
    {
        let packet = Packet::Connect {
            client_id: credentials.client_id.clone(),
            username: credentials.username.clone(),
            password: credentials.password.clone(),
            keep_alive: 0,
        };
        assert(packet@ =~= connect_packet(credentials@));
        let bytes = encode(&packet)?;
        Ok((Client { broker: broker.to_owned(), next_id: 0 }, bytes))
    }

    /// Take in the reply to CONNECT: the client is connected where the broker
    /// accepted.
    pub fn connected(self, reply: Option<Packet>) -> (result: Result<Client, Error>)
        ensures
            match connect_verdict(reply.deep_view()) {
                Ok(_) => result == Ok::<Client, Error>(self),
                Err(error) => result matches Err(failure) && failure@ == error,
            },
    {
        match reply {
            Some(Packet::ConnAck { code, .. }) => {
                if code == 0 {
                    Ok(self)
                } else {
                    let mut message = "the broker refused the connection with code ".to_owned();
                    put_decimal(&mut message, code as u16);
                    Err(protocol_error(message.as_str()))
                }
            },
            _ => Err(protocol_error("the broker did not answer CONNECT")),
        }
    }

    /// Take the packet identifier to use next.
    pub fn take_id(&mut self) -> (id: u16)
        ensures
            id == old(self)@.next_id(),
            final(self)@ == old(self)@.advanced(),
    {
        self.next_id = if self.next_id == u16::MAX {
            1
        } else {
            self.next_id + 1
        };
        self.next_id
    }

    /// The PUBLISH of `payload` on `topic` to send, and the identifier to wait
    /// for with [`Client::published`], if any. It fails where the message cannot
    /// be encoded.
    pub fn publish(&mut self, topic: &str, payload: &[u8], qos: u8) -> (result: Result<
        (Vec<u8>, Option<u16>),
        Error,
    >)
        ensures
            final(self)@ == if qos > 0 {
                old(self)@.advanced()
            } else {
                old(self)@
            },
            ({
                let id = if qos > 0 {
                    Some(old(self)@.next_id())
                } else {
                    None
                };
                match packet::encoded(publish_packet(topic@, payload@, qos, id)) {
                    Ok(bytes) => result matches Ok((out, awaited)) && out@ == bytes && awaited
                        == id,
                    Err(error) => result matches Err(failure) && failure@ == error,
                }
            }),
    {
        let id = if qos > 0 {
            Some(self.take_id())
        } else {
            None
        };
        let packet = Packet::Publish(
            Publish {
                topic: topic.to_owned(),
                qos,
                retain: false,
                id,
                payload: slice_to_vec(payload),
            },
        );
        let bytes = encode(&packet)?;
        Ok((bytes, id))
    }

    /// The SUBSCRIBE to `filter` to send, and the identifier to wait for with
    /// [`Client::subscribed`]. It fails where the filter cannot be encoded.
    pub fn subscribe(&mut self, filter: &str, qos: u8) -> (result: Result<(Vec<u8>, u16), Error>)
        ensures
            final(self)@ == old(self)@.advanced(),
            match packet::encoded(subscribe_packet(old(self)@.next_id(), filter@, qos)) {
                Ok(bytes) => result matches Ok((out, awaited)) && out@ == bytes && awaited == old(
                    self,
                )@.next_id(),
                Err(error) => result matches Err(failure) && failure@ == error,
            },
    {
        let id = self.take_id();
        let mut filters: Vec<(String, u8)> = Vec::new();
        filters.push((filter.to_owned(), qos));
        let packet = Packet::Subscribe { id, filters };
        assert(packet@ =~= subscribe_packet(id, filter@, qos));
        let bytes = encode(&packet)?;
        Ok((bytes, id))
    }

    /// Deal with a packet that the broker sent, where it is no answer.
    pub fn read_while_serving(reply: Option<Packet>) -> (result: Served)
        ensures
            result@ == served(reply.deep_view()),
    {
        match reply {
            Some(Packet::PingReq) => Served::Again(Some(frame_of(&Packet::PingResp))),
            Some(Packet::PingResp) => Served::Again(None),
            Some(Packet::Disconnect) => Served::Handed(None),
            other => Served::Handed(other),
        }
    }

    /// Take in a packet while waiting for the PUBACK of `id`.
    pub fn published(id: u16, reply: Option<Packet>) -> (result: Result<Step<()>, Error>)
        ensures
            error::outcome(result) == publish_step(id, reply.deep_view()),
    {
        match Client::read_while_serving(reply) {
            Served::Again(send) => Ok(Step { send, next: Next::Read }),
            Served::Handed(Some(Packet::PubAck(acked))) => {
                if acked == id {
                    Ok(Step { send: None, next: Next::Return(()) })
                } else {
                    Err(protocol_error("a PUBACK for another packet"))
                }
            },
            Served::Handed(_) => Err(protocol_error("the broker did not acknowledge")),
        }
    }

    /// Take in a packet while waiting for the SUBACK of `id`, which answers the
    /// subscription to `filter`.
    pub fn subscribed(id: u16, filter: &str, reply: Option<Packet>) -> (result: Result<
        Step<()>,
        Error,
    >)
        ensures
            error::outcome(result) == subscribe_step(id, filter@, reply.deep_view()),
    {
        match Client::read_while_serving(reply) {
            Served::Again(send) => Ok(Step { send, next: Next::Read }),
            Served::Handed(Some(Packet::SubAck { id: acked, codes })) => {
                if acked != id {
                    Err(protocol_error("the broker did not answer SUBSCRIBE"))
                } else if codes.len() > 0 && codes[0] == 0x80 {
                    let mut message = "the broker refused ".to_owned();
                    message.append(filter);
                    Err(protocol_error(message.as_str()))
                } else {
                    Ok(Step { send: None, next: Next::Return(()) })
                }
            },
            Served::Handed(_) => Err(protocol_error("the broker did not answer SUBSCRIBE")),
        }
    }

    /// Take in a packet while waiting for the next message of the broker, which
    /// is `None` where it disconnected. Pings are answered on the way, and what is
    /// no message is passed over.
    pub fn next_publish(&self, reply: Option<Packet>) -> (result: Step<Option<Arrived>>)
        ensures
            result.deep_view() == message_step(self@.broker, reply.deep_view()),
    {
        match Client::read_while_serving(reply) {
            Served::Again(send) => Step { send, next: Next::Read },
            Served::Handed(Some(Packet::Publish(publish))) => {
                let send = match publish.id {
                    Some(id) => Some(frame_of(&Packet::PubAck(id))),
                    None => None,
                };
                let origin_uri = origin_uri(
                    self.broker.as_str(),
                    publish.topic.as_str(),
                    publish.qos,
                );
                Step {
                    send,
                    next: Next::Return(Some(Arrived { origin_uri, bytes: publish.payload })),
                }
            },
            Served::Handed(None) => Step { send: None, next: Next::Return(None) },
            Served::Handed(Some(_)) => Step { send: None, next: Next::Read },
        }
    }

    /// The DISCONNECT to send before closing.
    pub fn disconnect(self) -> (bytes: Vec<u8>)
        ensures
            bytes@ == packet::frame(PacketView::Disconnect),
    {
        frame_of(&Packet::Disconnect)
    }
}

} // verus!
