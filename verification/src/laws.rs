//! What holds of packets and of their bytes on the wire taken together.
use crate::error::ErrorView;
use crate::packet::{PacketView, PublishView};
use crate::{packet, wire};
use vstd::prelude::*;

verus! {

/// What a packet reads back as: itself, but that a PUBLISH says no more than
/// quality of service 2, has no identifier at 0, and has one above 0.
pub open spec fn as_read(packet: PacketView) -> PacketView {
    match packet {
        PacketView::Publish(publish) => PacketView::Publish(
            PublishView {
                qos: packet::capped(publish.qos),
                id: if publish.qos == 0 {
                    None
                } else if publish.id is None {
                    Some(1)
                } else {
                    publish.id
                },
                ..publish
            },
        ),
        other => other,
    }
}

/// The filters of SUBSCRIBE read back as they were written.
pub proof fn lemma_filters_read_back(filters: Seq<(Seq<char>, u8)>)
    requires
        packet::filters_fit(filters),
    ensures
        packet::filters_of(packet::filter_fields(filters)) == Ok::<
            Seq<(Seq<char>, u8)>,
            ErrorView,
        >(filters),
    decreases filters.len(),
{
    if filters.len() == 0 {
        assert(filters =~= Seq::empty());
    } else {
        let (filter, qos) = filters[0];
        let others = filters.skip(1);
        let tail = packet::filter_fields(others);
        assert(wire::text_fits(filters[0].0));
        assert forall|i: int| 0 <= i < others.len() implies wire::text_fits(
            #[trigger] others[i].0,
        ) by {
            assert(others[i] == filters[i + 1]);
            assert(wire::text_fits(filters[i + 1].0));
        }
        lemma_filters_read_back(others);
        wire::law_text_reads_back(filter, seq![qos] + tail);
        assert(packet::filter_fields(filters) =~= wire::text_field(filter) + (seq![qos] + tail));
        assert((seq![qos] + tail).skip(1) =~= tail);
        assert(seq![(filter, qos)] + others =~= filters);
    }
}

/// The fields of CONNECT that may be presented, and what precedes them, as
/// `body` lays them out behind the connect flags.
spec fn presented(
    client_id: Seq<char>,
    username: Option<Seq<char>>,
    password: Option<Seq<u8>>,
) -> (Seq<u8>, Seq<u8>, Seq<u8>) {
    let secret = match password {
        Some(secret) => wire::data_field(secret),
        None => Seq::empty(),
    };
    let name = match username {
        Some(name) => wire::text_field(name),
        None => Seq::empty(),
    } + secret;
    (wire::text_field(client_id) + name, name, secret)
}

/// The connect flags say what is presented, and that there is no will.
proof fn lemma_connect_flags(username: bool, password: bool)
    ensures
        packet::has_bit(packet::connect_flags(username, password), 0x80) == username,
        packet::has_bit(packet::connect_flags(username, password), 0x40) == password,
        !packet::has_bit(packet::connect_flags(username, password), 0x04),
{
}

/// The user name and the password read back as they were presented.
proof fn lemma_presented_reads_back(
    flags: u8,
    client_id: Seq<char>,
    username: Option<Seq<char>>,
    password: Option<Seq<u8>>,
)
    requires
        flags == packet::connect_flags(username is Some, password is Some),
        wire::text_fits(client_id),
        username matches Some(name) ==> wire::text_fits(name),
        password matches Some(secret) ==> wire::data_fits(secret),
    ensures
        ({
            let (all, name, secret) = presented(client_id, username, password);
            &&& wire::split_text(all) == Ok::<(Seq<char>, Seq<u8>), ErrorView>((client_id, name))
            &&& packet::split_will(flags, name) == Ok::<Seq<u8>, ErrorView>(name)
            &&& packet::split_username(flags, name) == Ok::<
                (Option<Seq<char>>, Seq<u8>),
                ErrorView,
            >((username, secret))
            &&& packet::password_of(flags, secret) == Ok::<Option<Seq<u8>>, ErrorView>(password)
        }),
{
    reveal(packet::split_will);
    reveal(packet::split_username);
    reveal(packet::password_of);
    let (all, name, secret) = presented(client_id, username, password);
    lemma_connect_flags(username is Some, password is Some);
    wire::law_text_reads_back(client_id, name);
    if let Some(user) = username {
        wire::law_text_reads_back(user, secret);
    } else {
        assert(name =~= secret);
    }
    if let Some(pass) = password {
        wire::law_data_reads_back(pass, Seq::empty());
        assert(secret =~= secret + Seq::empty());
    }
}

/// Parts one behind another, and each behind all that precede it.
proof fn lemma_parts(
    a: Seq<u8>,
    level: u8,
    flags: u8,
    b: Seq<u8>,
    c: Seq<u8>,
    d: Seq<u8>,
    e: Seq<u8>,
)
    ensures
        a + seq![level, flags] + b + c + d + e == a + (seq![level] + (seq![flags] + (b + (c + (d
            + e))))),
{
    assert(a + seq![level, flags] + b + c + d + e =~= a + (seq![level] + (seq![flags] + (b + (c + (d
        + e))))));
}

/// What follows the protocol level decodes to CONNECT where its parts do.
proof fn lemma_connect_payload(
    flags: u8,
    keep_alive: u16,
    client_id: Seq<char>,
    username: Option<Seq<char>>,
    password: Option<Seq<u8>>,
    named: Seq<u8>,
    name: Seq<u8>,
    secret: Seq<u8>,
)
    requires
        wire::split_text(named) == Ok::<(Seq<char>, Seq<u8>), ErrorView>((client_id, name)),
        packet::split_will(flags, name) == Ok::<Seq<u8>, ErrorView>(name),
        packet::split_username(flags, name) == Ok::<(Option<Seq<char>>, Seq<u8>), ErrorView>(
            (username, secret),
        ),
        packet::password_of(flags, secret) == Ok::<Option<Seq<u8>>, ErrorView>(password),
    ensures
        packet::connect_payload(seq![flags] + (wire::u16_bytes(keep_alive) + named)) == Ok::<
            PacketView,
            ErrorView,
        >(PacketView::Connect { client_id, username, password, keep_alive }),
{
    let timed = wire::u16_bytes(keep_alive) + named;
    assert((seq![flags] + timed).skip(1) =~= timed);
    wire::law_u16_reads_back(keep_alive, named);
}

/// Behind the protocol name and level, CONNECT decodes as what follows does.
proof fn lemma_connect_opens(rest: Seq<u8>)
    ensures
        packet::connect_of(wire::text_field("MQTT"@) + (seq![4u8] + rest))
            == packet::connect_payload(rest),
{
    let levelled = seq![4u8] + rest;
    packet::lemma_protocol_name();
    wire::law_text_reads_back("MQTT"@, levelled);
    assert(levelled.skip(1) =~= rest);
}

/// The body of CONNECT decodes to the packet that it was made of.
proof fn lemma_connect_reads_back(
    client_id: Seq<char>,
    username: Option<Seq<char>>,
    password: Option<Seq<u8>>,
    keep_alive: u16,
)
    requires
        packet::fields_fit(PacketView::Connect { client_id, username, password, keep_alive }),
    ensures
        ({
            let connect = PacketView::Connect { client_id, username, password, keep_alive };
            packet::connect_of(packet::body(connect)) == Ok::<PacketView, ErrorView>(connect)
        }),
{
    let flags = packet::connect_flags(username is Some, password is Some);
    let name = match username {
        Some(name) => wire::text_field(name),
        None => Seq::empty(),
    };
    let secret = match password {
        Some(secret) => wire::data_field(secret),
        None => Seq::empty(),
    };
    lemma_parts(
        wire::text_field("MQTT"@),
        4,
        flags,
        wire::u16_bytes(keep_alive),
        wire::text_field(client_id),
        name,
        secret,
    );
    lemma_connect_opens(
        seq![flags] + (wire::u16_bytes(keep_alive) + presented(client_id, username, password).0),
    );
    lemma_presented_reads_back(flags, client_id, username, password);
    lemma_connect_payload(
        flags,
        keep_alive,
        client_id,
        username,
        password,
        wire::text_field(client_id) + (name + secret),
        name + secret,
        secret,
    );
}

/// The body of PUBLISH, under its head, decodes to what it reads back as.
proof fn lemma_publish_reads_back(publish: PublishView)
    requires
        wire::text_fits(publish.topic),
    ensures
        ({
            let whole = PacketView::Publish(publish);
            packet::publish_of(packet::head(whole), packet::body(whole)) == Ok::<
                PacketView,
                ErrorView,
            >(as_read(whole))
        }),
{
    let whole = PacketView::Publish(publish);
    let id = match publish.id {
        Some(id) => id,
        None => 1,
    };
    let tail = if publish.qos > 0 {
        wire::u16_bytes(id)
    } else {
        Seq::empty()
    } + publish.payload;
    assert(packet::body(whole) =~= wire::text_field(publish.topic) + tail);
    wire::law_text_reads_back(publish.topic, tail);
    if publish.qos > 0 {
        wire::law_u16_reads_back(id, publish.payload);
    } else {
        assert(tail =~= publish.payload);
    }
}

/// The body of PUBACK decodes to the packet that it was made of.
proof fn lemma_puback_reads_back(id: u16)
    ensures
        packet::puback_of(wire::u16_bytes(id)) == Ok::<PacketView, ErrorView>(
            PacketView::PubAck(id),
        ),
{
    assert(wire::u16_bytes(id) =~= wire::u16_bytes(id) + Seq::empty());
    wire::law_u16_reads_back(id, Seq::empty());
}

/// The body of SUBSCRIBE decodes to the packet that it was made of.
proof fn lemma_subscribe_reads_back(id: u16, filters: Seq<(Seq<char>, u8)>)
    requires
        packet::filters_fit(filters),
    ensures
        packet::subscribe_of(wire::u16_bytes(id) + packet::filter_fields(filters)) == Ok::<
            PacketView,
            ErrorView,
        >(PacketView::Subscribe { id, filters }),
{
    wire::law_u16_reads_back(id, packet::filter_fields(filters));
    lemma_filters_read_back(filters);
}

/// The body of SUBACK decodes to the packet that it was made of.
proof fn lemma_suback_reads_back(id: u16, codes: Seq<u8>)
    ensures
        packet::suback_of(wire::u16_bytes(id) + codes) == Ok::<PacketView, ErrorView>(
            PacketView::SubAck { id, codes },
        ),
{
    wire::law_u16_reads_back(id, codes);
}

/// The body of CONNACK decodes to the packet that it was made of.
proof fn lemma_connack_reads_back(session_present: bool, code: u8)
    ensures
        ({
            let connack = PacketView::ConnAck { session_present, code };
            packet::connack_of(packet::body(connack)) == Ok::<PacketView, ErrorView>(connack)
        }),
{
}

/// Every packet whose fields can be written decodes, from its head and body, to
/// what it reads back as.
pub proof fn law_body_reads_back(packet: PacketView)
    requires
        packet::fields_fit(packet),
    ensures
        packet::decoded(packet::head(packet), packet::body(packet)) == Ok::<PacketView, ErrorView>(
            as_read(packet),
        ),
{
    let head = packet::head(packet);
    match packet {
        PacketView::Connect { client_id, username, password, keep_alive } => {
            lemma_connect_reads_back(client_id, username, password, keep_alive);
        },
        PacketView::ConnAck { session_present, code } => {
            lemma_connack_reads_back(session_present, code);
        },
        PacketView::Publish(publish) => {
            lemma_publish_reads_back(publish);
            assert(head / 16 == 3);
        },
        PacketView::PubAck(id) => {
            lemma_puback_reads_back(id);
        },
        PacketView::Subscribe { id, filters } => {
            lemma_subscribe_reads_back(id, filters);
        },
        PacketView::SubAck { id, codes } => {
            lemma_suback_reads_back(id, codes);
        },
        _ => {},
    }
}

/// A frame reads as its head and body decode, whatever follows it, and what
/// follows is left to be read.
proof fn lemma_frame_reads(head: u8, body: Seq<u8>, rest: Seq<u8>)
    requires
        body.len() <= wire::MAX_REMAINING,
    ensures
        ({
            let (result, left) = packet::reading(
                seq![head] + wire::length_bytes(body.len()) + body + rest,
            );
            &&& left == rest
            &&& result == match packet::decoded(head, body) {
                Ok(packet) => Ok::<Option<PacketView>, ErrorView>(Some(packet)),
                Err(error) => Err(error),
            }
        }),
{
    let length = wire::length_bytes(body.len());
    let input = seq![head] + length + body + rest;
    wire::law_length_reads_back(body.len(), body + rest);
    assert(input.skip(1) =~= length + (body + rest));
    assert(input.skip(1 + length.len() as int) =~= body + rest);
    assert((body + rest).take(body.len() as int) =~= body);
    assert((body + rest).skip(body.len() as int) =~= rest);
}

/// What encoding a packet gives reads back as that packet, whatever follows it,
/// and what follows is left to be read.
pub proof fn law_packet_reads_back(packet: PacketView, bytes: Seq<u8>, rest: Seq<u8>)
    requires
        packet::encoded(packet) == Ok::<Seq<u8>, ErrorView>(bytes),
    ensures
        packet::reading(bytes + rest).0 == Ok::<Option<PacketView>, ErrorView>(
            Some(as_read(packet)),
        ),
        packet::reading(bytes + rest).1 == rest,
{
    law_body_reads_back(packet);
    lemma_frame_reads(packet::head(packet), packet::body(packet), rest);
}

/// A packet in the form that it is spoken in: a PUBLISH says no more than quality
/// of service 2, and has an identifier just where that is above 0.
pub open spec fn well_formed(packet: PacketView) -> bool {
    packet matches PacketView::Publish(publish) ==> {
        &&& publish.qos <= 2
        &&& publish.id is Some <==> publish.qos > 0
    }
}

/// A packet reads back as itself just where it is well formed.
pub proof fn law_well_formed_packets_read_back_as_themselves(packet: PacketView)
    ensures
        as_read(packet) == packet <==> well_formed(packet),
        well_formed(as_read(packet)),
{
}

/// Packets that encode to the same bytes read back as the same packet.
pub proof fn law_encoding_keeps_packets_apart(one: PacketView, other: PacketView)
    requires
        packet::encoded(one) is Ok,
        packet::encoded(one) == packet::encoded(other),
    ensures
        as_read(one) == as_read(other),
{
    law_packet_reads_back(one, packet::frame(one), Seq::empty());
    law_packet_reads_back(other, packet::frame(other), Seq::empty());
}

/// `packets` on the wire, one behind another.
pub open spec fn frames(packets: Seq<PacketView>) -> Seq<u8>
    decreases packets.len(),
{
    if packets.len() == 0 {
        Seq::empty()
    } else {
        packet::frame(packets[0]) + frames(packets.skip(1))
    }
}

/// What reading `count` packets from `input` gives, and what is left of it.
pub open spec fn reading_many(input: Seq<u8>, count: nat) -> (
    Seq<Result<Option<PacketView>, ErrorView>>,
    Seq<u8>,
)
    decreases count,
{
    if count == 0 {
        (Seq::empty(), input)
    } else {
        let (first, rest) = packet::reading(input);
        let (others, left) = reading_many(rest, (count - 1) as nat);
        (seq![first] + others, left)
    }
}

/// Packets sent one behind another are read one by one in that order, and what
/// follows them is left to be read.
pub proof fn law_packets_are_read_in_order(packets: Seq<PacketView>, rest: Seq<u8>)
    requires
        forall|i: int| 0 <= i < packets.len() ==> packet::encoded(#[trigger] packets[i]) is Ok,
    ensures
        reading_many(frames(packets) + rest, packets.len()).0 == Seq::new(
            packets.len(),
            |i: int| Ok::<Option<PacketView>, ErrorView>(Some(as_read(packets[i]))),
        ),
        reading_many(frames(packets) + rest, packets.len()).1 == rest,
    decreases packets.len(),
{
    let all = Seq::new(
        packets.len(),
        |i: int| Ok::<Option<PacketView>, ErrorView>(Some(as_read(packets[i]))),
    );
    if packets.len() == 0 {
        assert(frames(packets) + rest =~= rest);
        assert(reading_many(frames(packets) + rest, 0).0 =~= all);
    } else {
        let others = packets.skip(1);
        let tail = frames(others) + rest;
        assert forall|i: int| 0 <= i < others.len() implies packet::encoded(
            #[trigger] others[i],
        ) is Ok by {
            assert(others[i] == packets[i + 1]);
        }
        law_packets_are_read_in_order(others, rest);
        law_packet_reads_back(packets[0], packet::frame(packets[0]), tail);
        assert(frames(packets) + rest =~= packet::frame(packets[0]) + tail);
        assert(reading_many(frames(packets) + rest, packets.len()).0 =~= all);
    }
}

/// A packet on the wire is its head, its length and its body, and no more.
pub proof fn law_frame_length(packet: PacketView)
    requires
        packet::encoded(packet) is Ok,
    ensures
        packet::frame(packet).len() == 1 + wire::length_width(packet::body(packet).len())
            + packet::body(packet).len(),
{
    wire::law_length_width(packet::body(packet).len());
}

/// Reading gives no packet and no error just where there is nothing to read; from
/// anything else it takes at least one byte off the front, and leaves the rest as
/// it is.
pub proof fn law_reading_makes_progress(input: Seq<u8>)
    ensures
        packet::reading(input).0 == Ok::<Option<PacketView>, ErrorView>(None) <==> input.len() == 0,
        input.len() > 0 ==> packet::reading(input).1.len() < input.len(),
        ({
            let left = packet::reading(input).1;
            left == input.skip(input.len() - left.len())
        }),
{
    let left = packet::reading(input).1;
    if input.len() == 0 {
        assert(left =~= input.skip(0));
    } else {
        wire::lemma_split_length_bounds(input.skip(1), wire::MAX_WIDTH as nat);
        assert(left =~= input.skip(input.len() - left.len()));
    }
}

/// Filters that were read fit, and take as many bytes to write as they did.
proof fn lemma_filters_read_fit(rest: Seq<u8>)
    ensures
        packet::filters_of(rest) matches Ok(filters) ==> packet::filters_fit(filters)
            && packet::filter_fields(filters).len() == rest.len(),
    decreases rest.len(),
{
    if let Ok(filters) = packet::filters_of(rest) {
        if rest.len() > 0 {
            wire::lemma_text_read_fits(rest);
            let (filter, after) = wire::split_text(rest)->Ok_0;
            let (qos, others) = wire::split_u8(after)->Ok_0;
            lemma_filters_read_fit(others);
            let more = packet::filters_of(others)->Ok_0;
            assert(filters =~= seq![(filter, qos)] + more);
            assert(filters.skip(1) =~= more);
            assert forall|i: int| 0 <= i < filters.len() implies wire::text_fits(
                #[trigger] filters[i].0,
            ) by {
                if i > 0 {
                    assert(filters[i] == more[i - 1]);
                    assert(wire::text_fits(more[i - 1].0));
                }
            }
        }
    }
}

/// What follows the protocol level of a CONNECT that was read fits, and takes no
/// more bytes to write than it did.
proof fn lemma_connect_payload_read_fits(rest: Seq<u8>)
    ensures
        packet::connect_payload(rest) matches Ok(connect) ==> packet::fields_fit(connect)
            && packet::body(connect).len() <= rest.len() + 7,
{
    reveal(packet::split_will);
    reveal(packet::split_username);
    reveal(packet::password_of);
    if let Ok(connect) = packet::connect_payload(rest) {
        let (flags, timed) = wire::split_u8(rest)->Ok_0;
        let (keep_alive, named) = wire::split_u16(timed)->Ok_0;
        let (client_id, willed) = wire::split_text(named)->Ok_0;
        wire::lemma_text_read_fits(named);
        let name = packet::split_will(flags, willed)->Ok_0;
        assert(name.len() <= willed.len()) by {
            if packet::has_bit(flags, 0x04) {
                wire::lemma_text_read_fits(willed);
                wire::lemma_data_read_fits(wire::split_text(willed)->Ok_0.1);
            }
        }
        let (username, secret) = packet::split_username(flags, name)->Ok_0;
        wire::lemma_text_read_fits(name);
        wire::lemma_data_read_fits(secret);
        packet::lemma_protocol_name();
    }
}

/// A packet that was decoded fits, takes no more bytes to write than it did, and
/// is well formed but that a PUBLISH may say quality of service 3.
proof fn lemma_decoded_fits(head: u8, body: Seq<u8>)
    ensures
        packet::decoded(head, body) matches Ok(packet) ==> {
            &&& packet::fields_fit(packet)
            &&& packet::body(packet).len() <= body.len()
            &&& packet matches PacketView::Publish(publish) ==> {
                &&& publish.qos <= 3
                &&& publish.id is Some <==> publish.qos > 0
            }
        },
{
    let kind = head / 16;
    if kind == 1 {
        if let Ok((name, levelled)) = wire::split_text(body) {
            wire::lemma_text_read_fits(body);
            packet::lemma_protocol_name();
            if let Ok((level, rest)) = wire::split_u8(levelled) {
                lemma_connect_payload_read_fits(rest);
            }
        }
    } else if kind == 3 {
        wire::lemma_text_read_fits(body);
    } else if kind == 8 {
        if let Ok((id, rest)) = wire::split_u16(body) {
            lemma_filters_read_fit(rest);
        }
    }
}

/// Every packet that can be read can be sent on, and is well formed but that a
/// PUBLISH may say quality of service 3.
pub proof fn law_packets_read_can_be_sent(input: Seq<u8>, packet: PacketView)
    requires
        packet::reading(input).0 == Ok::<Option<PacketView>, ErrorView>(Some(packet)),
    ensures
        packet::encoded(packet) is Ok,
        well_formed(packet) || (packet matches PacketView::Publish(publish) && publish.qos == 3),
{
    wire::lemma_split_length_bounds(input.skip(1), wire::MAX_WIDTH as nat);
    assert(wire::place(4) == 268_435_456) by {
        reveal_with_fuel(wire::place, 5);
    }
    if let wire::Length::Whole { value, width } = wire::split_length(
        input.skip(1),
        wire::MAX_WIDTH as nat,
    ) {
        lemma_decoded_fits(input[0], input.skip(1 + width as int).take(value as int));
    }
}

/// What is wrong with filters stays wrong.
proof fn lemma_filter_errors_are_permanent(rest: Seq<u8>)
    ensures
        packet::filters_of(rest) matches Err(error) ==> !error.retryable,
    decreases rest.len(),
{
    if rest.len() > 0 {
        if let Ok((_, after)) = wire::split_text(rest) {
            if let Ok((_, others)) = wire::split_u8(after) {
                lemma_filter_errors_are_permanent(others);
            }
        }
    }
}

/// What is wrong with a CONNECT stays wrong.
proof fn lemma_connect_errors_are_permanent(body: Seq<u8>)
    ensures
        packet::connect_of(body) matches Err(error) ==> !error.retryable,
{
    reveal(packet::split_will);
    reveal(packet::split_username);
    reveal(packet::password_of);
}

/// No packet that does not encode is worth trying again, and no bytes are that do
/// not read, where they do not just end too soon.
pub proof fn law_malformed_is_permanent(packet: PacketView, input: Seq<u8>)
    ensures
        packet::encoded(packet) matches Err(error) ==> !error.retryable,
        !packet::is_cut_short(input) ==> (packet::reading(input).0 matches Err(error)
            ==> !error.retryable),
{
    if input.len() > 0 {
        if let wire::Length::Whole { value, width } = wire::split_length(
            input.skip(1),
            wire::MAX_WIDTH as nat,
        ) {
            let body = input.skip(1 + width as int).take(value as int);
            lemma_connect_errors_are_permanent(body);
            lemma_filter_errors_are_permanent(body.skip(2));
        }
    }
}

} // verus!
