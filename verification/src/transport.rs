//! A broker and a topic to speak to it about.
use crate::client::{Client, ClientView, Credentials, CredentialsView};
use crate::error::{Error, ErrorView};
use crate::step::{Arrived, ArrivedView};
use crate::{client, error, packet};
use std::time::Duration;
use vstd::prelude::*;

verus! {

/// `String::from` of a `str` holds the same characters.
pub assume_specification<'a>[ <String as From<&'a str>>::from ](s: &str) -> (result: String)
    ensures
        result@ == s@,
;

/// `From::from` of a value of the same type gives that value back.
pub assume_specification<Same>[ <Same as From<Same>>::from ](t: Same) -> (result: Same)
    ensures
        result == t,
;

/// Where to connect, what to present, and what to publish or subscribe to.
pub struct MqttTransport {
    broker: String,
    topic: String,
    qos: u8,
    credentials: Credentials,
    timeout: Option<Duration>,
}

/// What an [`MqttTransport`] holds.
#[verifier::ext_equal]
pub struct TransportView {
    pub broker: Seq<char>,
    pub topic: Seq<char>,
    pub qos: u8,
    pub credentials: CredentialsView,
    pub timeout: Option<Duration>,
}

impl View for MqttTransport {
    type V = TransportView;

    closed spec fn view(&self) -> TransportView {
        TransportView {
            broker: self.broker@,
            topic: self.topic@,
            qos: self.qos,
            credentials: self.credentials@,
            timeout: self.timeout,
        }
    }
}

/// What a listener that has gathered `arrived` makes of what it hears next: what
/// it has gathered then, and whether it goes on. A failure that may pass ends the
/// listening without loss where something was gathered before it.
pub open spec fn gathered(
    arrived: Seq<ArrivedView>,
    heard: Result<Option<ArrivedView>, ErrorView>,
) -> (Seq<ArrivedView>, Result<bool, ErrorView>) {
    match heard {
        Ok(Some(message)) => (arrived.push(message), Ok(true)),
        Ok(None) => (arrived, Ok(false)),
        Err(error) => if error.retryable && arrived.len() > 0 {
            (arrived, Ok(false))
        } else {
            (arrived, Err(error))
        },
    }
}

impl MqttTransport {
    #[verifier::type_invariant]
    closed spec fn wf(self) -> bool {
        self.qos <= 1
    }

    /// Speak to the broker at `broker` about `topic`, at quality of service 1.
    #[must_use]
    pub fn new<B: Into<String>, T: Into<String>>(broker: B, topic: T) -> (transport: MqttTransport)
        ensures
            exists|name: String| #[trigger]
                call_ensures(B::into, (broker,), name) && transport@.broker == name@,
            exists|name: String| #[trigger]
                call_ensures(T::into, (topic,), name) && transport@.topic == name@,
            transport@.qos == 1,
            transport@.credentials == (CredentialsView {
                client_id: "xmip"@,
                username: None,
                password: None,
            }),
            transport@.timeout is None,
    {
        let broker: String = broker.into();
        let topic: String = topic.into();
        MqttTransport {
            broker,
            topic,
            qos: 1,
            credentials: Credentials {
                client_id: "xmip".to_owned(),
                username: None,
                password: None,
            },
            timeout: None,
        }
    }

    /// Publish and subscribe at `qos`, 0 or 1.
    #[must_use]
    pub fn at_qos(self, qos: u8) -> (transport: MqttTransport)
        ensures
            transport@ == (TransportView {
                qos: if qos > 1 {
                    1
                } else {
                    qos
                },
                ..self@
            }),
    {
        let qos: u8 = if qos > 1 {
            1
        } else {
            qos
        };
        MqttTransport { qos, ..self }
    }

    /// Present these when connecting.
    #[must_use]
    pub fn presenting(self, credentials: Credentials) -> (transport: MqttTransport)
        ensures
            transport@ == (TransportView { credentials: credentials@, ..self@ }),
    {
        proof {
            use_type_invariant(&self);
        }
        MqttTransport { credentials, ..self }
    }

    /// Give up on a peer that stops mid-packet, and stop receiving when the broker
    /// has been quiet this long.
    #[must_use]
    pub fn timing_out_after(self, timeout: Duration) -> (transport: MqttTransport)
        ensures
            transport@ == (TransportView { timeout: Some(timeout), ..self@ }),
    {
        proof {
            use_type_invariant(&self);
        }
        MqttTransport { timeout: Some(timeout), ..self }
    }

    /// The name of this transport, which is also the scheme of its targets.
    pub fn name(&self) -> (name: &'static str)
        ensures
            name@ == "mqtt"@,
    {
        "mqtt"
    }

    /// Where the broker is.
    pub fn broker(&self) -> (broker: &str)
        ensures
            broker@ == self@.broker,
    {
        self.broker.as_str()
    }

    /// What to subscribe to.
    pub fn topic(&self) -> (topic: &str)
        ensures
            topic@ == self@.topic,
    {
        self.topic.as_str()
    }

    /// The quality of service to publish and subscribe at, which is 0 or 1.
    pub fn qos(&self) -> (qos: u8)
        ensures
            qos == self@.qos,
            qos <= 1,
    {
        proof {
            use_type_invariant(self);
        }
        self.qos
    }

    /// What to present when connecting.
    pub fn credentials(&self) -> (credentials: &Credentials)
        ensures
            credentials@ == self@.credentials,
    {
        &self.credentials
    }

    /// How long to wait for a peer.
    pub fn timeout(&self) -> (timeout: Option<Duration>)
        ensures
            timeout == self@.timeout,
    {
        self.timeout
    }

    /// A client of this transport's broker, and the CONNECT to send to it. It
    /// fails where the credentials cannot be encoded.
    pub fn connect(&self) -> (result: Result<(Client, Vec<u8>), Error>)
        ensures
            match packet::encoded(client::connect_packet(self@.credentials)) {
                Ok(bytes) => result matches Ok((client, out)) && client@ == (ClientView {
                    broker: self@.broker,
                    last_id: 0,
                }) && out@ == bytes,
                Err(error) => result matches Err(failure) && failure@ == error,
            },
    {
        Client::connect(self.broker.as_str(), &self.credentials)
    }

    /// The broker and the topic of a target: those that it names itself, with this
    /// transport's topic where it names none, or the target as a topic on this
    /// transport's broker.
    pub fn resolve<'a>(&'a self, named: Option<(&'a str, &'a str)>, target: &'a str) -> (pair: (
        &'a str,
        &'a str,
    ))
        ensures
            match named {
                Some((peer, topic)) => pair.0@ == peer@ && pair.1@ == if topic@.len() == 0 {
                    self@.topic
                } else {
                    topic@
                },
                None => pair.0@ == self@.broker && pair.1@ == target@,
            },
    {
        match named {
            Some((peer, topic)) => {
                if topic.is_empty() {
                    (peer, self.topic.as_str())
                } else {
                    (peer, topic)
                }
            },
            None => (self.broker.as_str(), target),
        }
    }

    /// Add what was heard to what has arrived, and say whether to go on listening.
    /// It fails with what was heard, where that ends the listening with a loss.
    pub fn receive(
        arrived: &mut Vec<Arrived>,
        heard: Result<Option<Arrived>, Error>,
    ) -> (result: Result<bool, Error>)
        ensures
            final(arrived).deep_view() == gathered(
                old(arrived).deep_view(),
                error::outcome(heard),
            ).0,
            error::outcome(result) == gathered(old(arrived).deep_view(), error::outcome(heard)).1,
    {
        match heard {
            Ok(Some(message)) => {
                let ghost before = arrived.deep_view();
                arrived.push(message);
                assert(arrived.deep_view() =~= before.push(message@));
                Ok(true)
            },
            Ok(None) => Ok(false),
            Err(error) => {
                if error.retryable && arrived.len() > 0 {
                    Ok(false)
                } else {
                    Err(error)
                }
            },
        }
    }
}

} // verus!
