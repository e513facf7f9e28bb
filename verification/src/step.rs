//! What an end of a connection hands to whoever holds the socket.
use crate::text;
use crate::text::put_decimal;
use vstd::prelude::*;
use vstd::string::StringExecFns;

verus! {

/// One message that arrived, and where it came from.
#[derive(Clone, Debug, PartialEq, Eq)]
pub struct Arrived {
    pub origin_uri: String,
    pub bytes: Vec<u8>,
}

/// What an [`Arrived`] holds.
#[verifier::ext_equal]
pub struct ArrivedView {
    pub origin_uri: Seq<char>,
    pub bytes: Seq<u8>,
}

impl View for Arrived {
    type V = ArrivedView;

    open spec fn view(&self) -> ArrivedView {
        ArrivedView { origin_uri: self.origin_uri@, bytes: self.bytes@ }
    }
}

impl DeepView for Arrived {
    type V = ArrivedView;

    open spec fn deep_view(&self) -> ArrivedView {
        self@
    }
}

/// What to do once a packet has been taken in: send what there is to send, and
/// then go on.
pub struct Step<T> {
    /// The bytes to write first, if any.
    pub send: Option<Vec<u8>>,
    /// What comes after that.
    pub next: Next<T>,
}

/// How a [`Step`] goes on.
pub enum Next<T> {
    /// Read the next packet and take it in as well.
    Read,
    /// The operation is over, and this is what it gives.
    Return(T),
}

/// What a [`Step`] says.
#[verifier::ext_equal]
pub struct StepView<V> {
    pub send: Option<Seq<u8>>,
    pub next: Next<V>,
}

impl<T: DeepView> DeepView for Step<T> {
    type V = StepView<T::V>;

    open spec fn deep_view(&self) -> StepView<T::V> {
        StepView {
            send: match self.send {
                Some(bytes) => Some(bytes@),
                None => None,
            },
            next: match self.next {
                Next::Read => Next::Read,
                Next::Return(value) => Next::Return(value.deep_view()),
            },
        }
    }
}

/// The URI of what was published on `topic` at `qos`, as known from `peer`.
pub open spec fn origin(peer: Seq<char>, topic: Seq<char>, qos: u8) -> Seq<char> {
    "mqtt://"@ + peer + "/"@ + topic + "?qos="@ + text::decimal(qos as nat)
}

/// The URI of what was published on `topic` at `qos`, as known from `peer`.
pub(crate) fn origin_uri(peer: &str, topic: &str, qos: u8) -> (uri: String)
    ensures
        uri@ == origin(peer@, topic@, qos),
{
    let mut uri = "mqtt://".to_owned();
    uri.append(peer);
    uri.append("/");
    uri.append(topic);
    uri.append("?qos=");
    put_decimal(&mut uri, qos as u16);
    uri
}

} // verus!
