//! MQTT 3.1.1 control packets: what they hold, and their form on the wire.
//!
//! Wills, retained-message state and the four-way handshake of quality of
//! service 2 are not here.
use crate::error::{protocol_error, Error, ErrorView};
use crate::reader::{Fed, Reader};
use crate::text::put_decimal;
use crate::wire::{
    bytes, put_length, put_slice, put_u16, string, take_bytes, take_string, take_u16, take_u8,
};
use crate::{error, reader, text, wire};
use vstd::prelude::*;
use vstd::slice::{slice_subrange, slice_to_vec};
use vstd::string::StringExecFns;

pub use crate::wire::MAX_REMAINING;

verus! {

/// One application message, as PUBLISH carries it.
#[derive(Clone, Debug, PartialEq, Eq)]
pub struct Publish {
    pub topic: String,
    pub qos: u8,
    pub retain: bool,
    /// Present at quality of service 1 and above.
    pub id: Option<u16>,
    pub payload: Vec<u8>,
}

/// The control packets that are spoken here.
#[derive(Clone, Debug, PartialEq, Eq)]
pub enum Packet {
    Connect {
        client_id: String,
        username: Option<String>,
        password: Option<Vec<u8>>,
        keep_alive: u16,
    },
    ConnAck { session_present: bool, code: u8 },
    Publish(Publish),
    PubAck(u16),
    Subscribe { id: u16, filters: Vec<(String, u8)> },
    SubAck { id: u16, codes: Vec<u8> },
    PingReq,
    PingResp,
    Disconnect,
}

/// What a [`Publish`] holds.
#[verifier::ext_equal]
pub struct PublishView {
    pub topic: Seq<char>,
    pub qos: u8,
    pub retain: bool,
    pub id: Option<u16>,
    pub payload: Seq<u8>,
}

/// What a [`Packet`] holds.
#[verifier::ext_equal]
pub enum PacketView {
    Connect {
        client_id: Seq<char>,
        username: Option<Seq<char>>,
        password: Option<Seq<u8>>,
        keep_alive: u16,
    },
    ConnAck { session_present: bool, code: u8 },
    Publish(PublishView),
    PubAck(u16),
    Subscribe { id: u16, filters: Seq<(Seq<char>, u8)> },
    SubAck { id: u16, codes: Seq<u8> },
    PingReq,
    PingResp,
    Disconnect,
}

/// The bytes that may be given.
pub open spec fn optional_bytes(data: Option<Vec<u8>>) -> Option<Seq<u8>> {
    match data {
        Some(bytes) => Some(bytes@),
        None => None,
    }
}

impl View for Publish {
    type V = PublishView;

    open spec fn view(&self) -> PublishView {
        PublishView {
            topic: self.topic@,
            qos: self.qos,
            retain: self.retain,
            id: self.id,
            payload: self.payload@,
        }
    }
}

impl View for Packet {
    type V = PacketView;

    open spec fn view(&self) -> PacketView {
        match *self {
            Packet::Connect { client_id, username, password, keep_alive } => PacketView::Connect {
                client_id: client_id@,
                username: username.deep_view(),
                password: optional_bytes(password),
                keep_alive,
            },
            Packet::ConnAck { session_present, code } => PacketView::ConnAck {
                session_present,
                code,
            },
            Packet::Publish(publish) => PacketView::Publish(publish@),
            Packet::PubAck(id) => PacketView::PubAck(id),
            Packet::Subscribe { id, filters } => PacketView::Subscribe {
                id,
                filters: filters.deep_view(),
            },
            Packet::SubAck { id, codes } => PacketView::SubAck { id, codes: codes@ },
            Packet::PingReq => PacketView::PingReq,
            Packet::PingResp => PacketView::PingResp,
            Packet::Disconnect => PacketView::Disconnect,
        }
    }
}

impl DeepView for Packet {
    type V = PacketView;

    open spec fn deep_view(&self) -> PacketView {
        self@
    }
}

/// The quality of service that a head can say and that is spoken: 2 at most.
pub open spec fn capped(qos: u8) -> u8 {
    if qos > 2 {
        2
    } else {
        qos
    }
}

/// The connect flags: a clean session, and what else is presented.
pub open spec fn connect_flags(username: bool, password: bool) -> u8 {
    match (username, password) {
        (false, false) => 0x02,
        (false, true) => 0x42,
        (true, false) => 0x82,
        (true, true) => 0xc2,
    }
}

/// The first byte of a packet: its type, and the flags of PUBLISH.
pub open spec fn head(packet: PacketView) -> u8 {
    match packet {
        PacketView::Connect { .. } => 0x10,
        PacketView::ConnAck { .. } => 0x20,
        PacketView::Publish(publish) => (0x30 + 2 * capped(publish.qos) + if publish.retain {
            1int
        } else {
            0
        }) as u8,
        PacketView::PubAck(_) => 0x40,
        PacketView::Subscribe { .. } => 0x82,
        PacketView::SubAck { .. } => 0x90,
        PacketView::PingReq => 0xc0,
        PacketView::PingResp => 0xd0,
        PacketView::Disconnect => 0xe0,
    }
}

/// The filters of SUBSCRIBE, each with the quality of service asked for.
pub open spec fn filter_fields(filters: Seq<(Seq<char>, u8)>) -> Seq<u8>
    decreases filters.len(),
{
    if filters.len() == 0 {
        Seq::empty()
    } else {
        wire::text_field(filters[0].0) + seq![filters[0].1] + filter_fields(filters.skip(1))
    }
}

/// What follows the fixed header.
pub open spec fn body(packet: PacketView) -> Seq<u8> {
    match packet {
        PacketView::Connect { client_id, username, password, keep_alive } => {
            wire::text_field("MQTT"@) + seq![4u8, connect_flags(username is Some, password is Some)]
                + wire::u16_bytes(keep_alive) + wire::text_field(client_id) + match username {
                Some(name) => wire::text_field(name),
                None => Seq::empty(),
            } + match password {
                Some(secret) => wire::data_field(secret),
                None => Seq::empty(),
            }
        },
        PacketView::ConnAck { session_present, code } => seq![
            if session_present {
                1u8
            } else {
                0u8
            },
            code,
        ],
        PacketView::Publish(publish) => {
            wire::text_field(publish.topic) + if publish.qos > 0 {
                wire::u16_bytes(
                    match publish.id {
                        Some(id) => id,
                        None => 1,
                    },
                )
            } else {
                Seq::empty()
            } + publish.payload
        },
        PacketView::PubAck(id) => wire::u16_bytes(id),
        PacketView::Subscribe { id, filters } => wire::u16_bytes(id) + filter_fields(filters),
        PacketView::SubAck { id, codes } => wire::u16_bytes(id) + codes,
        PacketView::PingReq => Seq::empty(),
        PacketView::PingResp => Seq::empty(),
        PacketView::Disconnect => Seq::empty(),
    }
}

/// Every filter is short enough for its length to be written.
pub open spec fn filters_fit(filters: Seq<(Seq<char>, u8)>) -> bool {
    forall|i: int| 0 <= i < filters.len() ==> wire::text_fits(#[trigger] filters[i].0)
}

/// Every length-prefixed field is short enough for its length to be written.
pub open spec fn fields_fit(packet: PacketView) -> bool {
    match packet {
        PacketView::Connect { client_id, username, password, .. } => {
            &&& wire::text_fits(client_id)
            &&& username matches Some(name) ==> wire::text_fits(name)
            &&& password matches Some(secret) ==> wire::data_fits(secret)
        },
        PacketView::Publish(publish) => wire::text_fits(publish.topic),
        PacketView::Subscribe { filters, .. } => filters_fit(filters),
        _ => true,
    }
}

/// A packet on the wire: its head, the length of its body, its body.
pub open spec fn frame(packet: PacketView) -> Seq<u8> {
    seq![head(packet)] + wire::length_bytes(body(packet).len()) + body(packet)
}

/// What encoding a packet gives.
pub open spec fn encoded(packet: PacketView) -> Result<Seq<u8>, ErrorView> {
    if !fields_fit(packet) {
        Err(wire::field_too_long())
    } else if body(packet).len() > MAX_REMAINING {
        Err(error::breach("a packet over what MQTT can frame"@))
    } else {
        Ok(frame(packet))
    }
}

/// `result` is what encoding `packet` gives.
pub open spec fn is_encoded(result: Result<Vec<u8>, Error>, packet: PacketView) -> bool {
    match encoded(packet) {
        Ok(bytes) => result matches Ok(out) && out@ == bytes,
        Err(error) => result matches Err(failure) && failure@ == error,
    }
}

/// The protocol name is these bytes, so it is never too long to write.
pub proof fn lemma_protocol_name()
    ensures
        wire::text_fits("MQTT"@),
        wire::text_field("MQTT"@) == seq![0u8, 4, 0x4d, 0x51, 0x54, 0x54],
{
    reveal_strlit("MQTT");
    vstd::utf8::is_ascii_chars_encode_utf8("MQTT"@);
    assert(wire::text_field("MQTT"@) =~= seq![0u8, 4, 0x4d, 0x51, 0x54, 0x54]);
}

/// One filter more at the end is one field more at the end.
pub proof fn lemma_filter_fields_push(filters: Seq<(Seq<char>, u8)>, last: (Seq<char>, u8))
    ensures
        filter_fields(filters.push(last)) == filter_fields(filters) + wire::text_field(last.0)
            + seq![last.1],
    decreases filters.len(),
{
    let all = filters.push(last);
    if filters.len() == 0 {
        assert(all.skip(1) =~= filters);
        assert(filter_fields(all) =~= filter_fields(filters) + wire::text_field(last.0) + seq![last.1]);
    } else {
        lemma_filter_fields_push(filters.skip(1), last);
        assert(all.skip(1) =~= filters.skip(1).push(last));
        assert(filter_fields(all) =~= filter_fields(filters) + wire::text_field(last.0) + seq![last.1]);
    }
}

/// Append the filters of SUBSCRIBE to `out`.
fn put_filters(out: &mut Vec<u8>, filters: &Vec<(String, u8)>) -> (result: Result<(), Error>)
    ensures
        filters_fit(filters.deep_view()) ==> result is Ok && final(out)@ == old(out)@
            + filter_fields(filters.deep_view()),
        !filters_fit(filters.deep_view()) ==> (result matches Err(error) && error@
            == wire::field_too_long()),
{
    let ghost start = out@;
    let ghost all = filters.deep_view();
    let mut i: usize = 0;
    assert(out@ =~= start + filter_fields(all.take(0)));
    while i < filters.len()
        invariant
            i <= filters.len(),
            all == filters.deep_view(),
            filters_fit(all.take(i as int)),
            out@ == start + filter_fields(all.take(i as int)),
        decreases filters.len() - i,
    {
        assert(all[i as int].0 == filters[i as int].0@);
        assert(all[i as int].1 == filters[i as int].1);
        string(out, filters[i].0.as_str())?;
        out.push(filters[i].1);
        proof {
            lemma_filter_fields_push(all.take(i as int), all[i as int]);
            assert(all.take(i as int).push(all[i as int]) =~= all.take(i + 1));
            assert forall|j: int| 0 <= j < i + 1 implies wire::text_fits(
                #[trigger] all.take(i + 1)[j].0,
            ) by {
                if j < i {
                    assert(all.take(i as int)[j] == all.take(i + 1)[j]);
                }
            }
            assert(out@ =~= start + filter_fields(all.take(i + 1)));
        }
        i = i + 1;
    }
    assert(all.take(i as int) =~= all);
    Ok(())
}

/// Append the body of `packet` to `out`, which is empty, and give its head.
fn put_body(packet: &Packet, out: &mut Vec<u8>) -> (result: Result<u8, Error>)
    requires
        old(out)@.len() == 0,
    ensures
        fields_fit(packet@) ==> (result matches Ok(first) && first == head(packet@))
            && final(out)@ == body(packet@),
        !fields_fit(packet@) ==> (result matches Err(error) && error@ == wire::field_too_long()),
{
    match packet {
        Packet::Connect { client_id, username, password, keep_alive } => {
            proof {
                lemma_protocol_name();
            }
            string(out, "MQTT")?;
            out.push(4);
            let mut flags: u8 = 0x02;
            if username.is_some() {
                flags = flags | 0x80;
            }
            if password.is_some() {
                flags = flags | 0x40;
            }
            assert(flags == connect_flags(username is Some, password is Some)) by {
                assert(0x02u8 | 0x80 == 0x82) by (bit_vector);
                assert(0x02u8 | 0x40 == 0x42) by (bit_vector);
                assert(0x82u8 | 0x40 == 0xc2) by (bit_vector);
            }
            out.push(flags);
            put_u16(out, *keep_alive);
            string(out, client_id.as_str())?;
            if let Some(name) = username {
                string(out, name.as_str())?;
            }
            if let Some(secret) = password {
                bytes(out, secret.as_slice())?;
            }
            assert(out@ =~= body(packet@));
            Ok(0x10)
        },
        Packet::ConnAck { session_present, code } => {
            out.push(
                if *session_present {
                    1
                } else {
                    0
                },
            );
            out.push(*code);
            assert(out@ =~= body(packet@));
            Ok(0x20)
        },
        Packet::Publish(publish) => {
            string(out, publish.topic.as_str())?;
            if publish.qos > 0 {
                put_u16(out, publish.id.unwrap_or(1));
            }
            put_slice(out, publish.payload.as_slice());
            assert(out@ =~= body(packet@));
            let qos: u8 = if publish.qos > 2 {
                2
            } else {
                publish.qos
            };
            let retain: u8 = if publish.retain {
                1
            } else {
                0
            };
            Ok(0x30 + 2 * qos + retain)
        },
        Packet::PubAck(id) => {
            put_u16(out, *id);
            assert(out@ =~= body(packet@));
            Ok(0x40)
        },
        Packet::Subscribe { id, filters } => {
            put_u16(out, *id);
            put_filters(out, filters)?;
            assert(out@ =~= body(packet@));
            Ok(0x82)
        },
        Packet::SubAck { id, codes } => {
            put_u16(out, *id);
            put_slice(out, codes.as_slice());
            assert(out@ =~= body(packet@));
            Ok(0x90)
        },
        Packet::PingReq => Ok(0xc0),
        Packet::PingResp => Ok(0xd0),
        Packet::Disconnect => Ok(0xe0),
    }
}

/// Encode `packet` as bytes on the wire. It fails on a field of more than 65535
/// bytes, and then on a body of more than [`MAX_REMAINING`].
pub fn encode(packet: &Packet) -> (result: Result<Vec<u8>, Error>)
    ensures
        is_encoded(result, packet@),
{
    let mut rest: Vec<u8> = Vec::new();
    let first = put_body(packet, &mut rest)?;
    if rest.len() > MAX_REMAINING {
        return Err(protocol_error("a packet over what MQTT can frame"));
    }
    let mut out: Vec<u8> = Vec::new();
    out.push(first);
    put_length(&mut out, rest.len());
    put_slice(&mut out, rest.as_slice());
    assert(out@ =~= frame(packet@));
    Ok(out)
}

/// The bytes of a packet that can be encoded.
pub(crate) fn frame_of(packet: &Packet) -> (bytes: Vec<u8>)
    requires
        encoded(packet@) is Ok,
    ensures
        bytes@ == frame(packet@),
{
    encode(packet).unwrap()
}

/// The bit of `flags` that counts for `place` is set.
pub open spec fn has_bit(flags: u8, place: u8) -> bool {
    flags / place % 2 == 1
}

/// What follows the will in `rest`, where `flags` say that there is one.
#[verifier::opaque]
pub open spec fn split_will(flags: u8, rest: Seq<u8>) -> Result<Seq<u8>, ErrorView> {
    if !has_bit(flags, 0x04) {
        Ok(rest)
    } else {
        match wire::split_text(rest) {
            Err(error) => Err(error),
            Ok((_, message)) => match wire::split_data(message) {
                Err(error) => Err(error),
                Ok((_, tail)) => Ok(tail),
            },
        }
    }
}

/// The user name at the start of `rest`, where `flags` say that there is one,
/// and what follows it.
#[verifier::opaque]
pub open spec fn split_username(flags: u8, rest: Seq<u8>) -> Result<
    (Option<Seq<char>>, Seq<u8>),
    ErrorView,
> {
    if !has_bit(flags, 0x80) {
        Ok((None, rest))
    } else {
        match wire::split_text(rest) {
            Err(error) => Err(error),
            Ok((name, tail)) => Ok((Some(name), tail)),
        }
    }
}

/// The password at the start of `rest`, where `flags` say that there is one.
#[verifier::opaque]
pub open spec fn password_of(flags: u8, rest: Seq<u8>) -> Result<Option<Seq<u8>>, ErrorView> {
    if !has_bit(flags, 0x40) {
        Ok(None)
    } else {
        match wire::split_data(rest) {
            Err(error) => Err(error),
            Ok((secret, _)) => Ok(Some(secret)),
        }
    }
}

/// The CONNECT whose body, behind the protocol name and level, is `rest`. A will
/// is passed over, and so is what follows the last field.
pub open spec fn connect_payload(rest: Seq<u8>) -> Result<PacketView, ErrorView> {
    match wire::split_u8(rest) {
        Err(error) => Err(error),
        Ok((flags, rest)) => match wire::split_u16(rest) {
            Err(error) => Err(error),
            Ok((keep_alive, rest)) => match wire::split_text(rest) {
                Err(error) => Err(error),
                Ok((client_id, rest)) => match split_will(flags, rest) {
                    Err(error) => Err(error),
                    Ok(rest) => match split_username(flags, rest) {
                        Err(error) => Err(error),
                        Ok((username, rest)) => match password_of(flags, rest) {
                            Err(error) => Err(error),
                            Ok(password) => Ok(
                                PacketView::Connect { client_id, username, password, keep_alive },
                            ),
                        },
                    },
                },
            },
        },
    }
}

/// The CONNECT whose body is `body`: one of the protocol `MQTT` at level 4.
pub open spec fn connect_of(body: Seq<u8>) -> Result<PacketView, ErrorView> {
    match wire::split_text(body) {
        Err(error) => Err(error),
        Ok((name, rest)) => match wire::split_u8(rest) {
            Err(error) => Err(error),
            Ok((level, rest)) => if name != "MQTT"@ || level != 4 {
                Err(error::breach("a CONNECT that is not MQTT 3.1.1"@))
            } else {
                connect_payload(rest)
            },
        },
    }
}

/// The CONNACK whose body is `body`.
pub open spec fn connack_of(body: Seq<u8>) -> Result<PacketView, ErrorView> {
    match wire::split_u8(body) {
        Err(error) => Err(error),
        Ok((flags, rest)) => match wire::split_u8(rest) {
            Err(error) => Err(error),
            Ok((code, _)) => Ok(
                PacketView::ConnAck { session_present: flags % 2 == 1, code },
            ),
        },
    }
}

/// The PUBLISH with this head whose body is `body`.
pub open spec fn publish_of(head: u8, body: Seq<u8>) -> Result<PacketView, ErrorView> {
    let qos = head / 2 % 4;
    let retain = head % 2 == 1;
    match wire::split_text(body) {
        Err(error) => Err(error),
        Ok((topic, rest)) => if qos == 0 {
            Ok(PacketView::Publish(PublishView { topic, qos, retain, id: None, payload: rest }))
        } else {
            match wire::split_u16(rest) {
                Err(error) => Err(error),
                Ok((id, payload)) => Ok(
                    PacketView::Publish(PublishView { topic, qos, retain, id: Some(id), payload }),
                ),
            }
        },
    }
}

/// The filters that make up `rest`.
pub open spec fn filters_of(rest: Seq<u8>) -> Result<Seq<(Seq<char>, u8)>, ErrorView>
    decreases rest.len(),
{
    if rest.len() == 0 {
        Ok(Seq::empty())
    } else {
        match wire::split_text(rest) {
            Err(error) => Err(error),
            Ok((filter, after)) => match wire::split_u8(after) {
                Err(error) => Err(error),
                Ok((qos, others)) => match filters_of(others) {
                    Err(error) => Err(error),
                    Ok(filters) => Ok(seq![(filter, qos)] + filters),
                },
            },
        }
    }
}

/// The SUBSCRIBE whose body is `body`.
pub open spec fn subscribe_of(body: Seq<u8>) -> Result<PacketView, ErrorView> {
    match wire::split_u16(body) {
        Err(error) => Err(error),
        Ok((id, rest)) => match filters_of(rest) {
            Err(error) => Err(error),
            Ok(filters) => Ok(PacketView::Subscribe { id, filters }),
        },
    }
}

/// The PUBACK whose body is `body`; what follows its identifier is passed over.
pub open spec fn puback_of(body: Seq<u8>) -> Result<PacketView, ErrorView> {
    match wire::split_u16(body) {
        Err(error) => Err(error),
        Ok((id, _)) => Ok(PacketView::PubAck(id)),
    }
}

/// The SUBACK whose body is `body`.
pub open spec fn suback_of(body: Seq<u8>) -> Result<PacketView, ErrorView> {
    match wire::split_u16(body) {
        Err(error) => Err(error),
        Ok((id, codes)) => Ok(PacketView::SubAck { id, codes }),
    }
}

/// The error of a packet of a type that is not spoken here.
pub open spec fn unknown_type(kind: u8) -> ErrorView {
    error::breach(
        "a control packet of type "@ + text::decimal(kind as nat)
            + " this transport does not speak"@,
    )
}

/// The packet with this head and this body.
pub open spec fn decoded(head: u8, body: Seq<u8>) -> Result<PacketView, ErrorView> {
    let kind = head / 16;
    if kind == 1 {
        connect_of(body)
    } else if kind == 2 {
        connack_of(body)
    } else if kind == 3 {
        publish_of(head, body)
    } else if kind == 4 {
        puback_of(body)
    } else if kind == 8 {
        subscribe_of(body)
    } else if kind == 9 {
        suback_of(body)
    } else if kind == 12 {
        Ok(PacketView::PingReq)
    } else if kind == 13 {
        Ok(PacketView::PingResp)
    } else if kind == 14 {
        Ok(PacketView::Disconnect)
    } else {
        Err(unknown_type(kind))
    }
}

/// Decode the body of CONNECT.
fn decode_connect(body: &[u8]) -> (result: Result<Packet, Error>)
    ensures
        error::outcome(result) == connect_of(body@),
{
    proof {
        reveal(split_will);
        reveal(split_username);
        reveal(password_of);
    }
    let mut at: usize = 0;
    assert(body@.skip(0) =~= body@);
    let name = take_string(body, &mut at)?;
    let level = take_u8(body, &mut at)?;
    if name != "MQTT".to_owned() || level != 4 {
        return Err(protocol_error("a CONNECT that is not MQTT 3.1.1"));
    }
    let flags = take_u8(body, &mut at)?;
    assert((flags & 0x04 != 0) == (flags / 0x04 % 2 == 1)) by (bit_vector);
    assert((flags & 0x80 != 0) == (flags / 0x80 % 2 == 1)) by (bit_vector);
    assert((flags & 0x40 != 0) == (flags / 0x40 % 2 == 1)) by (bit_vector);
    let keep_alive = take_u16(body, &mut at)?;
    let client_id = take_string(body, &mut at)?;
    if flags & 0x04 != 0 {
        take_string(body, &mut at)?;
        take_bytes(body, &mut at)?;
    }
    let username = if flags & 0x80 != 0 {
        Some(take_string(body, &mut at)?)
    } else {
        None
    };
    let password = if flags & 0x40 != 0 {
        Some(take_bytes(body, &mut at)?)
    } else {
        None
    };
    Ok(Packet::Connect { client_id, username, password, keep_alive })
}

/// Decode the body of PUBLISH.
fn decode_publish(head: u8, body: &[u8]) -> (result: Result<Packet, Error>)
    ensures
        error::outcome(result) == publish_of(head, body@),
{
    let mut at: usize = 0;
    assert(body@.skip(0) =~= body@);
    let qos: u8 = (head >> 1) & 0x03;
    assert((head >> 1) & 0x03 == head / 2 % 4) by (bit_vector);
    assert((head & 1 == 1) == (head % 2 == 1)) by (bit_vector);
    let topic = take_string(body, &mut at)?;
    let id = if qos > 0 {
        Some(take_u16(body, &mut at)?)
    } else {
        None
    };
    let payload = slice_to_vec(slice_subrange(body, at, body.len()));
    assert(payload@ =~= body@.skip(at as int));
    Ok(Packet::Publish(Publish { topic, qos, retain: head & 1 == 1, id, payload }))
}

/// What filters that were decoded make of `others`, which come behind them.
spec fn before(
    filters: Seq<(Seq<char>, u8)>,
    others: Result<Seq<(Seq<char>, u8)>, ErrorView>,
) -> Result<Seq<(Seq<char>, u8)>, ErrorView> {
    match others {
        Ok(more) => Ok(filters + more),
        Err(error) => Err(error),
    }
}

/// Decode the body of SUBSCRIBE.
fn decode_subscribe(body: &[u8]) -> (result: Result<Packet, Error>)
    ensures
        error::outcome(result) == subscribe_of(body@),
{
    let mut at: usize = 0;
    assert(body@.skip(0) =~= body@);
    let id = take_u16(body, &mut at)?;
    let mut filters: Vec<(String, u8)> = Vec::new();
    let ghost rest = body@.skip(at as int);
    assert(filters_of(rest) =~= before(filters.deep_view(), filters_of(rest)));
    while at < body.len()
        invariant
            at <= body@.len(),
            wire::split_u16(body@) == Ok::<(u16, Seq<u8>), ErrorView>((id, rest)),
            filters_of(rest) == before(filters.deep_view(), filters_of(body@.skip(at as int))),
        decreases body@.len() - at,
    {
        let ghost done = filters.deep_view();
        let filter = take_string(body, &mut at)?;
        let qos = take_u8(body, &mut at)?;
        let ghost next = (filter@, qos);
        filters.push((filter, qos));
        proof {
            assert(filters.deep_view() =~= done.push(next));
            if let Ok(others) = filters_of(body@.skip(at as int)) {
                assert(done + (seq![next] + others) =~= done.push(next) + others);
            }
        }
    }
    assert(filters.deep_view() + Seq::empty() =~= filters.deep_view());
    Ok(Packet::Subscribe { id, filters })
}

/// Decode the packet with this head and this body.
pub fn decode(head: u8, body: &[u8]) -> (result: Result<Packet, Error>)
    ensures
        error::outcome(result) == decoded(head, body@),
{
    let kind: u8 = head >> 4;
    assert(head >> 4 == head / 16) by (bit_vector);
    let mut at: usize = 0;
    assert(body@.skip(0) =~= body@);
    match kind {
        1 => decode_connect(body),
        2 => {
            let flags = take_u8(body, &mut at)?;
            assert((flags & 1 == 1) == (flags % 2 == 1)) by (bit_vector);
            let code = take_u8(body, &mut at)?;
            Ok(Packet::ConnAck { session_present: flags & 1 == 1, code })
        },
        3 => decode_publish(head, body),
        4 => Ok(Packet::PubAck(take_u16(body, &mut at)?)),
        8 => decode_subscribe(body),
        9 => {
            let id = take_u16(body, &mut at)?;
            let codes = slice_to_vec(slice_subrange(body, at, body.len()));
            assert(codes@ =~= body@.skip(at as int));
            Ok(Packet::SubAck { id, codes })
        },
        12 => Ok(Packet::PingReq),
        13 => Ok(Packet::PingResp),
        14 => Ok(Packet::Disconnect),
        _ => {
            let mut message = "a control packet of type ".to_owned();
            put_decimal(&mut message, kind as u16);
            message.append(" this transport does not speak");
            Err(protocol_error(message.as_str()))
        },
    }
}

/// `input` ends inside its first packet.
pub open spec fn is_cut_short(input: Seq<u8>) -> bool {
    input.len() > 0 && match wire::split_length(input.skip(1), wire::MAX_WIDTH as nat) {
        wire::Length::CutShort => true,
        wire::Length::TooLong => false,
        wire::Length::Whole { value, width } => input.skip(1 + width as int).len() < value,
    }
}

/// What reading a packet from `input` gives, and what is left of the input: no
/// packet where there is no input, and an error where it ends inside a packet.
/// That error is not one to retry on, since the input will not grow.
pub open spec fn reading(input: Seq<u8>) -> (Result<Option<PacketView>, ErrorView>, Seq<u8>) {
    if input.len() == 0 {
        (Ok(None), input)
    } else {
        match wire::split_length(input.skip(1), wire::MAX_WIDTH as nat) {
            wire::Length::CutShort => (
                Err(error::breach("reading the remaining length"@ + ": the packet is cut short"@)),
                Seq::empty(),
            ),
            wire::Length::TooLong => (
                Err(error::breach("a remaining length over four bytes"@)),
                input.skip(1 + wire::MAX_WIDTH),
            ),
            wire::Length::Whole { value, width } => {
                let rest = input.skip(1 + width as int);
                if rest.len() < value {
                    (
                        Err(error::breach("reading the packet body"@ + ": the packet is cut short"@)),
                        Seq::empty(),
                    )
                } else {
                    (
                        match decoded(input[0], rest.take(value as int)) {
                            Ok(packet) => Ok(Some(packet)),
                            Err(error) => Err(error),
                        },
                        rest.skip(value as int),
                    )
                }
            },
        }
    }
}

/// Read one packet from the front of `reader`, which is moved past it, or `None`
/// where it is empty.
///
/// It fails where the bytes end inside a packet, on a remaining length of more
/// than four bytes, and where the packet does not decode.
#[verifier::rlimit(30)]
pub fn read(reader: &mut &[u8]) -> (result: Result<Option<Packet>, Error>)
    ensures
        error::outcome(result) == reading(old(reader)@).0,
        final(reader)@ == reading(old(reader)@).1,
{
    let input: &[u8] = *reader;
    let mut at: usize = 0;
    let mut state = Reader::new();
    proof {
        assert(input@.skip(0) =~= input@);
        reader::law_reader_reads_as_the_whole(input@);
    }
    loop
        invariant
            at <= input@.len(),
            state@.on(input@.skip(at as int)) == reading(input@),
            input@ == old(reader)@,
        decreases state@.distance(),
    {
        if state.is_between_packets() && at >= input.len() {
            *reader = slice_subrange(input, at, input.len());
            assert(reader@ =~= input@.skip(at as int));
            return Ok(None);
        }
        let count = state.wants();
        if input.len() - at < count {
            *reader = slice_subrange(input, input.len(), input.len());
            assert(reader@ =~= Seq::empty());
            let mut message = state.doing().to_owned();
            message.append(": the packet is cut short");
            return Err(protocol_error(message.as_str()));
        }
        let bytes = slice_subrange(input, at, at + count);
        proof {
            assert(bytes@ =~= input@.skip(at as int).take(count as int));
            assert(input@.skip(at as int).skip(count as int) =~= input@.skip(at + count));
        }
        at = at + count;
        match state.feed(bytes) {
            Err(error) => {
                *reader = slice_subrange(input, at, input.len());
                assert(reader@ =~= input@.skip(at as int));
                return Err(error);
            },
            Ok(Fed::Whole(packet)) => {
                *reader = slice_subrange(input, at, input.len());
                assert(reader@ =~= input@.skip(at as int));
                return Ok(Some(packet));
            },
            Ok(Fed::More(next)) => {
                state = next;
            },
        }
    }
}

} // verus!
