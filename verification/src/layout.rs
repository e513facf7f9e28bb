//! The bytes of every packet, one by one, and what every byte is read as.
use crate::error::ErrorView;
use crate::packet::{PacketView, PublishView};
use crate::{packet, wire};
use vstd::prelude::*;
use vstd::utf8::*;

verus! {

/// `value` in two bytes, the high one first.
pub open spec fn two_bytes(value: int) -> Seq<u8> {
    seq![(value / 256) as u8, (value % 256) as u8]
}

/// `data` behind the number of its bytes.
pub open spec fn counted(data: Seq<u8>) -> Seq<u8> {
    two_bytes(data.len() as int) + data
}

/// The UTF-8 of `text` behind the number of its bytes.
pub open spec fn counted_text(text: Seq<char>) -> Seq<u8> {
    counted(encode_utf8(text))
}

/// A packet of this head and body: between them stands the length of the body, in
/// groups of seven bits, the lowest first, each but the last with 128 added.
pub open spec fn framed(head: u8, body: Seq<u8>) -> Seq<u8> {
    let n = body.len();
    if n < 128 {
        seq![head, n as u8] + body
    } else if n < 16_384 {
        seq![head, (128 + n % 128) as u8, (n / 128) as u8] + body
    } else if n < 2_097_152 {
        seq![head, (128 + n % 128) as u8, (128 + n / 128 % 128) as u8, (n / 16_384) as u8] + body
    } else {
        seq![
            head,
            (128 + n % 128) as u8,
            (128 + n / 128 % 128) as u8,
            (128 + n / 16_384 % 128) as u8,
            (n / 2_097_152) as u8,
        ] + body
    }
}

/// The failure of a field that is too long to be counted.
pub open spec fn overlong() -> ErrorView {
    ErrorView { retryable: false, message: "a string over 65535 bytes"@ }
}

/// The failure of a packet that is too long to be framed.
pub open spec fn oversized() -> ErrorView {
    ErrorView { retryable: false, message: "a packet over what MQTT can frame"@ }
}

/// The failure of a packet that ends before a byte that is due.
pub open spec fn shorter() -> ErrorView {
    ErrorView { retryable: false, message: "a packet shorter than its header"@ }
}

/// The failure of a field that ends behind its packet.
pub open spec fn past_the_end() -> ErrorView {
    ErrorView { retryable: false, message: "a length that runs past the packet"@ }
}

/// The failure of a text that is none.
pub open spec fn not_text() -> ErrorView {
    ErrorView { retryable: false, message: "a string that is not UTF-8"@ }
}

/// A field is its data behind their number, where they can be counted.
proof fn lemma_counted(data: Seq<u8>)
    ensures
        data.len() <= 65_535 ==> counted(data) == wire::data_field(data),
        data.len() <= 65_535 <==> wire::data_fits(data),
{
    if data.len() <= 65_535 {
        assert(counted(data) =~= wire::data_field(data));
    }
}

/// An integer is its two bytes.
proof fn lemma_two_bytes(value: u16)
    ensures
        two_bytes(value as int) == wire::u16_bytes(value),
{
    assert(two_bytes(value as int) =~= wire::u16_bytes(value));
}

/// A frame is its head, the length of its body, and its body.
proof fn lemma_framed(head: u8, body: Seq<u8>)
    requires
        body.len() <= 268_435_455,
    ensures
        framed(head, body) == seq![head] + wire::length_bytes(body.len()) + body,
{
    reveal_with_fuel(wire::length_bytes, 4);
    assert(framed(head, body) =~= seq![head] + wire::length_bytes(body.len()) + body);
}

/// A text field that was read is the text, counted, before what follows it.
proof fn lemma_text_comes_from(rest: Seq<u8>)
    ensures
        wire::split_text(rest) matches Ok((text, tail)) ==> rest == counted_text(text) + tail
            && encode_utf8(text).len() <= 65_535,
{
    reveal(wire::text_of);
    lemma_data_comes_from(rest);
    if let Ok((data, tail)) = wire::split_data(rest) {
        if valid_utf8(data) {
            decode_utf8_encode_utf8(data);
        }
    }
}

/// A data field that was read is the data, counted, before what follows it.
proof fn lemma_data_comes_from(rest: Seq<u8>)
    ensures
        wire::split_data(rest) matches Ok((data, tail)) ==> rest == counted(data) + tail
            && data.len() <= 65_535,
{
    if let Ok((data, tail)) = wire::split_data(rest) {
        assert(rest =~= counted(data) + tail);
    }
}

/// An integer that was read is its two bytes before what follows it.
proof fn lemma_u16_comes_from(rest: Seq<u8>)
    ensures
        wire::split_u16(rest) matches Ok((value, tail)) ==> rest == two_bytes(value as int) + tail,
{
    if let Ok((value, tail)) = wire::split_u16(rest) {
        assert(rest =~= two_bytes(value as int) + tail);
    }
}

/// The first byte of a PUBLISH says type 3, never that it is sent again, the
/// quality of service but 2 at most, and whether it is retained. Behind the length
/// come the topic, the identifier (1 where none is given) only above quality of
/// service 0, and the payload. It fails just where the topic cannot be counted or
/// the whole cannot be framed.
pub proof fn law_publish_is_laid_out(publish: PublishView)
    ensures
        ({
            let topic = encode_utf8(publish.topic).len();
            let size = 2 + topic + (if publish.qos > 0 {
                2int
            } else {
                0
            }) + publish.payload.len();
            match packet::encoded(PacketView::Publish(publish)) {
                Err(error) => if topic > 65_535 {
                    error == overlong()
                } else {
                    size > 268_435_455 && error == oversized()
                },
                Ok(bytes) => {
                    &&& topic <= 65_535
                    &&& size <= 268_435_455
                    &&& bytes[0] / 16 == 3
                    &&& bytes[0] / 8 % 2 == 0
                    &&& bytes[0] / 2 % 4 == if publish.qos > 2 {
                        2
                    } else {
                        publish.qos
                    }
                    &&& bytes[0] % 2 == 1 <==> publish.retain
                    &&& publish.qos == 0 ==> bytes == framed(
                        bytes[0],
                        counted_text(publish.topic) + publish.payload,
                    )
                    &&& publish.qos > 0 ==> bytes == framed(
                        bytes[0],
                        counted_text(publish.topic) + two_bytes(
                            match publish.id {
                                Some(id) => id as int,
                                None => 1,
                            },
                        ) + publish.payload,
                    )
                },
            }
        }),
{
    let whole = PacketView::Publish(publish);
    lemma_counted(encode_utf8(publish.topic));
    if let Ok(bytes) = packet::encoded(whole) {
        lemma_framed(packet::head(whole), packet::body(whole));
        if publish.qos == 0 {
            assert(packet::body(whole) =~= counted_text(publish.topic) + publish.payload);
        } else {
            lemma_two_bytes(
                match publish.id {
                    Some(id) => id,
                    None => 1,
                },
            );
        }
    }
}

/// CONNECT is of the protocol `MQTT` at level 4. Its flags ask for a clean session,
/// speak of no will, and say just what of the user name and the password is there.
/// The keep-alive, the name, and those two follow, each whole. It fails just where
/// one of them cannot be counted.
pub proof fn law_connect_is_laid_out(
    client_id: Seq<char>,
    username: Option<Seq<char>>,
    password: Option<Seq<u8>>,
    keep_alive: u16,
)
    ensures
        match packet::encoded(PacketView::Connect { client_id, username, password, keep_alive }) {
            Err(error) => {
                &&& error == overlong()
                &&& {
                    ||| encode_utf8(client_id).len() > 65_535
                    ||| username matches Some(name) && encode_utf8(name).len() > 65_535
                    ||| password matches Some(secret) && secret.len() > 65_535
                }
            },
            Ok(bytes) => {
                &&& encode_utf8(client_id).len() <= 65_535
                &&& username matches Some(name) ==> encode_utf8(name).len() <= 65_535
                &&& password matches Some(secret) ==> secret.len() <= 65_535
                &&& bytes == framed(
                    0x10,
                    connect_form(
                        (2 + (if username is Some {
                            128int
                        } else {
                            0
                        }) + (if password is Some {
                            64int
                        } else {
                            0
                        })) as u8,
                        keep_alive,
                        client_id,
                        Seq::empty(),
                        Seq::empty(),
                        match username {
                            Some(name) => name,
                            None => Seq::empty(),
                        },
                        match password {
                            Some(secret) => secret,
                            None => Seq::empty(),
                        },
                    ),
                )
            },
        },
{
    let whole = PacketView::Connect { client_id, username, password, keep_alive };
    let flags = packet::connect_flags(username is Some, password is Some);
    let name = match username {
        Some(name) => name,
        None => Seq::empty(),
    };
    let secret = match password {
        Some(secret) => secret,
        None => Seq::empty(),
    };
    lemma_counted(encode_utf8(client_id));
    lemma_counted(encode_utf8(name));
    lemma_counted(secret);
    packet::lemma_protocol_name();
    lemma_two_bytes(keep_alive);
    let form = connect_form(
        flags,
        keep_alive,
        client_id,
        Seq::empty(),
        Seq::empty(),
        name,
        secret,
    );
    if packet::fields_fit(whole) {
        assert(packet::body(whole) =~= form);
        lemma_framed(0x10, form);
        assert(packet::encoded(whole) == Ok::<Seq<u8>, ErrorView>(framed(0x10, form)));
    }
}

/// The body of a CONNECT whose flags are `flags`: of the will, the user name and the
/// password there is what the flags say.
pub open spec fn connect_form(
    flags: u8,
    keep_alive: u16,
    client_id: Seq<char>,
    will_topic: Seq<char>,
    will_message: Seq<u8>,
    username: Seq<char>,
    password: Seq<u8>,
) -> Seq<u8> {
    let will = if flags / 4 % 2 == 1 {
        counted_text(will_topic) + counted(will_message)
    } else {
        Seq::empty()
    };
    let name = if flags / 128 == 1 {
        counted_text(username)
    } else {
        Seq::empty()
    };
    let secret = if flags / 64 % 2 == 1 {
        counted(password)
    } else {
        Seq::empty()
    };
    seq![0u8, 4, 0x4d, 0x51, 0x54, 0x54, 4, flags] + two_bytes(keep_alive as int) + counted_text(
        client_id,
    ) + will + name + secret
}

/// The packets of a fixed size are these bytes.
pub proof fn law_small_packets_are_laid_out(session_present: bool, code: u8, id: u16)
    ensures
        packet::encoded(PacketView::ConnAck { session_present, code }) == Ok::<Seq<u8>, ErrorView>(
            seq![
                0x20,
                2,
                if session_present {
                    1
                } else {
                    0
                },
                code,
            ],
        ),
        packet::encoded(PacketView::PubAck(id)) == Ok::<Seq<u8>, ErrorView>(
            seq![0x40, 2, (id / 256) as u8, (id % 256) as u8],
        ),
        packet::encoded(PacketView::PingReq) == Ok::<Seq<u8>, ErrorView>(seq![0xc0, 0]),
        packet::encoded(PacketView::PingResp) == Ok::<Seq<u8>, ErrorView>(seq![0xd0, 0]),
        packet::encoded(PacketView::Disconnect) == Ok::<Seq<u8>, ErrorView>(seq![0xe0, 0]),
{
    let flag: u8 = if session_present {
        1
    } else {
        0
    };
    assert(packet::frame(PacketView::ConnAck { session_present, code }) =~= seq![
        0x20,
        2,
        flag,
        code,
    ]);
    assert(packet::frame(PacketView::PubAck(id)) =~= seq![
        0x40,
        2,
        (id / 256) as u8,
        (id % 256) as u8,
    ]);
    assert(packet::frame(PacketView::PingReq) =~= seq![0xc0, 0]);
    assert(packet::frame(PacketView::PingResp) =~= seq![0xd0, 0]);
    assert(packet::frame(PacketView::Disconnect) =~= seq![0xe0, 0]);
}

/// SUBACK is its identifier and its codes, and fails just where they cannot be
/// framed.
pub proof fn law_suback_is_laid_out(id: u16, codes: Seq<u8>)
    ensures
        packet::encoded(PacketView::SubAck { id, codes }) == if codes.len() + 2 > 268_435_455 {
            Err::<Seq<u8>, ErrorView>(oversized())
        } else {
            Ok(framed(0x90, two_bytes(id as int) + codes))
        },
{
    lemma_two_bytes(id);
    if codes.len() + 2 <= 268_435_455 {
        lemma_framed(0x90, two_bytes(id as int) + codes);
    }
}

/// Filters one behind another, each counted and before the quality of service asked
/// for.
pub open spec fn asked(filters: Seq<(Seq<char>, u8)>) -> Seq<u8>
    decreases filters.len(),
{
    if filters.len() == 0 {
        Seq::empty()
    } else {
        asked(filters.drop_last()) + counted_text(filters.last().0) + seq![filters.last().1]
    }
}

/// Filters that can be counted are written as such.
proof fn lemma_asked(filters: Seq<(Seq<char>, u8)>)
    requires
        packet::filters_fit(filters),
    ensures
        asked(filters) == packet::filter_fields(filters),
    decreases filters.len(),
{
    if filters.len() > 0 {
        let others = filters.drop_last();
        assert forall|i: int| 0 <= i < others.len() implies wire::text_fits(
            #[trigger] others[i].0,
        ) by {
            assert(others[i] == filters[i]);
            assert(wire::text_fits(filters[i].0));
        }
        lemma_asked(others);
        assert(wire::text_fits(filters[filters.len() - 1].0));
        lemma_counted(encode_utf8(filters.last().0));
        packet::lemma_filter_fields_push(others, filters.last());
        assert(others.push(filters.last()) =~= filters);
    }
}

/// SUBSCRIBE is its identifier and its filters in their order, each with the quality
/// of service asked for. It fails just where a filter cannot be counted or the whole
/// cannot be framed.
pub proof fn law_subscribe_is_laid_out(id: u16, filters: Seq<(Seq<char>, u8)>)
    ensures
        packet::encoded(PacketView::Subscribe { id, filters }) == if exists|i: int|
            0 <= i < filters.len() && encode_utf8(#[trigger] filters[i].0).len() > 65_535 {
            Err::<Seq<u8>, ErrorView>(overlong())
        } else if asked(filters).len() + 2 > 268_435_455 {
            Err(oversized())
        } else {
            Ok(framed(0x82, two_bytes(id as int) + asked(filters)))
        },
{
    let whole = PacketView::Subscribe { id, filters };
    if exists|i: int|
        0 <= i < filters.len() && encode_utf8(#[trigger] filters[i].0).len() > 65_535 {
        let i = choose|i: int|
            0 <= i < filters.len() && encode_utf8(#[trigger] filters[i].0).len() > 65_535;
        assert(!wire::text_fits(filters[i].0));
        assert(!packet::filters_fit(filters));
    } else {
        assert forall|i: int| 0 <= i < filters.len() implies wire::text_fits(
            #[trigger] filters[i].0,
        ) by {
            assert(!(encode_utf8(filters[i].0).len() > 65_535));
        }
        lemma_asked(filters);
        lemma_two_bytes(id);
        assert(packet::body(whole) == two_bytes(id as int) + asked(filters));
        if asked(filters).len() + 2 <= 268_435_455 {
            lemma_framed(0x82, two_bytes(id as int) + asked(filters));
        }
    }
}

/// A body of type 3 is a topic, an identifier just where bits 1 and 2 of the head
/// say a quality of service above 0, and a payload: these and the two flags are what
/// it decodes to, whether or not bit 3 says that it is sent again.
pub proof fn law_publish_is_decoded(head: u8, topic: Seq<char>, id: u16, payload: Seq<u8>)
    requires
        head / 16 == 3,
        encode_utf8(topic).len() <= 65_535,
    ensures
        head / 2 % 4 == 0 ==> packet::decoded(head, counted_text(topic) + payload) == Ok::<
            PacketView,
            ErrorView,
        >(
            PacketView::Publish(
                PublishView { topic, qos: 0, retain: head % 2 == 1, id: None, payload },
            ),
        ),
        head / 2 % 4 != 0 ==> packet::decoded(
            head,
            counted_text(topic) + two_bytes(id as int) + payload,
        ) == Ok::<PacketView, ErrorView>(
            PacketView::Publish(
                PublishView {
                    topic,
                    qos: head / 2 % 4,
                    retain: head % 2 == 1,
                    id: Some(id),
                    payload,
                },
            ),
        ),
{
    lemma_counted(encode_utf8(topic));
    lemma_two_bytes(id);
    wire::law_text_reads_back(topic, payload);
    wire::law_text_reads_back(topic, two_bytes(id as int) + payload);
    wire::law_u16_reads_back(id, payload);
    assert(counted_text(topic) + two_bytes(id as int) + payload =~= counted_text(topic) + (
    two_bytes(id as int) + payload));
}

/// What decodes under a head of type 3 is a PUBLISH of just what stands in the body,
/// and every body that does not decode is short of a byte that is due, has a topic
/// that ends behind it, or one that is no text.
pub proof fn law_publish_comes_from_its_bytes(head: u8, body: Seq<u8>)
    requires
        head / 16 == 3,
    ensures
        ({
            let count = 256 * body[0] + body[1];
            let topic = body.subrange(2, 2 + count);
            match packet::decoded(head, body) {
                Ok(PacketView::Publish(publish)) => {
                    &&& encode_utf8(publish.topic).len() <= 65_535
                    &&& publish.qos == head / 2 % 4
                    &&& publish.retain == (head % 2 == 1)
                    &&& publish.id is Some <==> publish.qos > 0
                    &&& body == counted_text(publish.topic) + (match publish.id {
                        Some(id) => two_bytes(id as int),
                        None => Seq::empty(),
                    }) + publish.payload
                },
                Ok(_) => false,
                Err(error) => if body.len() < 2 {
                    error == shorter()
                } else if body.len() < 2 + count {
                    error == past_the_end()
                } else if !valid_utf8(topic) {
                    error == not_text()
                } else {
                    &&& error == shorter()
                    &&& head / 2 % 4 != 0
                    &&& body.len() < 4 + count
                },
            }
        }),
{
    reveal(wire::text_of);
    lemma_text_comes_from(body);
    if let Ok((topic, rest)) = wire::split_text(body) {
        lemma_u16_comes_from(rest);
        if let Ok(PacketView::Publish(publish)) = packet::decoded(head, body) {
            assert(body =~= counted_text(publish.topic) + (match publish.id {
                Some(id) => two_bytes(id as int),
                None => Seq::empty(),
            }) + publish.payload);
        }
    }
    if body.len() >= 2 {
        let count = 256 * body[0] + body[1];
        if body.len() >= 2 + count {
            assert(body.skip(2).take(count) =~= body.subrange(2, 2 + count));
        }
    }
}

/// The packets of a fixed size are read from their first bytes, under every head of
/// their type, whatever follows; too short a body is refused.
pub proof fn law_small_packets_are_decoded(head: u8, body: Seq<u8>)
    ensures
        head / 16 == 2 ==> packet::decoded(head, body) == if body.len() < 2 {
            Err::<PacketView, ErrorView>(shorter())
        } else {
            Ok(PacketView::ConnAck { session_present: body[0] % 2 == 1, code: body[1] })
        },
        head / 16 == 4 ==> packet::decoded(head, body) == if body.len() < 2 {
            Err::<PacketView, ErrorView>(shorter())
        } else {
            Ok(PacketView::PubAck((256 * body[0] + body[1]) as u16))
        },
        head / 16 == 9 ==> packet::decoded(head, body) == if body.len() < 2 {
            Err::<PacketView, ErrorView>(shorter())
        } else {
            Ok(
                PacketView::SubAck {
                    id: (256 * body[0] + body[1]) as u16,
                    codes: body.subrange(2, body.len() as int),
                },
            )
        },
        head / 16 == 12 ==> packet::decoded(head, body) == Ok::<PacketView, ErrorView>(
            PacketView::PingReq,
        ),
        head / 16 == 13 ==> packet::decoded(head, body) == Ok::<PacketView, ErrorView>(
            PacketView::PingResp,
        ),
        head / 16 == 14 ==> packet::decoded(head, body) == Ok::<PacketView, ErrorView>(
            PacketView::Disconnect,
        ),
{
    if body.len() >= 2 {
        assert(body.skip(2) =~= body.subrange(2, body.len() as int));
    }
}

/// A packet of any other type is refused, and the failure names the type.
pub proof fn law_other_types_are_refused(head: u8, body: Seq<u8>)
    ensures
        ({
            let refused = |number: Seq<char>|
                Err::<PacketView, ErrorView>(
                    ErrorView {
                        retryable: false,
                        message: "a control packet of type "@ + number
                            + " this transport does not speak"@,
                    },
                );
            &&& head / 16 == 0 ==> packet::decoded(head, body) == refused(seq!['0'])
            &&& head / 16 == 5 ==> packet::decoded(head, body) == refused(seq!['5'])
            &&& head / 16 == 6 ==> packet::decoded(head, body) == refused(seq!['6'])
            &&& head / 16 == 7 ==> packet::decoded(head, body) == refused(seq!['7'])
            &&& head / 16 == 10 ==> packet::decoded(head, body) == refused(seq!['1', '0'])
            &&& head / 16 == 11 ==> packet::decoded(head, body) == refused(seq!['1', '1'])
            &&& head / 16 == 15 ==> packet::decoded(head, body) == refused(seq!['1', '5'])
        }),
{
    reveal_with_fuel(crate::text::decimal, 2);
    assert(crate::text::decimal(0) =~= seq!['0']);
    assert(crate::text::decimal(5) =~= seq!['5']);
    assert(crate::text::decimal(6) =~= seq!['6']);
    assert(crate::text::decimal(7) =~= seq!['7']);
    assert(crate::text::decimal(10) =~= seq!['1', '0']);
    assert(crate::text::decimal(11) =~= seq!['1', '1']);
    assert(crate::text::decimal(15) =~= seq!['1', '5']);
}

/// Filters that stand one behind another are read so.
proof fn lemma_asked_is_read(filters: Seq<(Seq<char>, u8)>)
    requires
        forall|i: int|
            0 <= i < filters.len() ==> encode_utf8(#[trigger] filters[i].0).len() <= 65_535,
    ensures
        packet::filters_of(asked(filters)) == Ok::<Seq<(Seq<char>, u8)>, ErrorView>(filters),
{
    assert forall|i: int| 0 <= i < filters.len() implies wire::text_fits(
        #[trigger] filters[i].0,
    ) by {
        assert(encode_utf8(filters[i].0).len() <= 65_535);
    }
    lemma_asked(filters);
    crate::laws::lemma_filters_read_back(filters);
}

/// Filters that were read stood one behind another.
proof fn lemma_filters_come_from(rest: Seq<u8>)
    ensures
        packet::filters_of(rest) matches Ok(filters) ==> packet::filters_fit(filters) && rest
            == packet::filter_fields(filters),
    decreases rest.len(),
{
    if let Ok(filters) = packet::filters_of(rest) {
        if rest.len() > 0 {
            lemma_text_comes_from(rest);
            let (filter, after) = wire::split_text(rest)->Ok_0;
            let (qos, others) = wire::split_u8(after)->Ok_0;
            let more = packet::filters_of(others)->Ok_0;
            lemma_filters_come_from(others);
            lemma_counted(encode_utf8(filter));
            assert(filters =~= seq![(filter, qos)] + more);
            assert(filters.skip(1) =~= more);
            assert(after =~= seq![qos] + others);
            assert(rest =~= packet::filter_fields(filters));
            assert forall|i: int| 0 <= i < filters.len() implies wire::text_fits(
                #[trigger] filters[i].0,
            ) by {
                if i > 0 {
                    assert(filters[i] == more[i - 1]);
                    assert(wire::text_fits(more[i - 1].0));
                }
            }
        } else {
            assert(rest =~= packet::filter_fields(filters));
        }
    }
}

/// A body of type 8 is an identifier and filters, each with the quality of service
/// asked for, whatever that is: these are what it decodes to, and what it decodes to
/// is what stands in it.
pub proof fn law_subscribe_is_decoded(head: u8, id: u16, filters: Seq<(Seq<char>, u8)>)
    requires
        head / 16 == 8,
        forall|i: int|
            0 <= i < filters.len() ==> encode_utf8(#[trigger] filters[i].0).len() <= 65_535,
    ensures
        packet::decoded(head, two_bytes(id as int) + asked(filters)) == Ok::<
            PacketView,
            ErrorView,
        >(PacketView::Subscribe { id, filters }),
{
    lemma_two_bytes(id);
    lemma_asked_is_read(filters);
    wire::law_u16_reads_back(id, asked(filters));
}

/// What decodes under a head of type 8 is a SUBSCRIBE of just what stands in the
/// body; what does not is short of a byte that is due, or has a filter that ends
/// behind it or is no text.
pub proof fn law_subscribe_comes_from_its_bytes(head: u8, body: Seq<u8>)
    requires
        head / 16 == 8,
    ensures
        match packet::decoded(head, body) {
            Ok(PacketView::Subscribe { id, filters }) => body == two_bytes(id as int) + asked(
                filters,
            ),
            Ok(_) => false,
            Err(error) => error == shorter() || error == past_the_end() || error == not_text(),
        },
        body.len() < 2 ==> packet::decoded(head, body) == Err::<PacketView, ErrorView>(shorter()),
{
    lemma_u16_comes_from(body);
    if let Ok((id, rest)) = wire::split_u16(body) {
        lemma_filters_come_from(rest);
        lemma_filter_failures(rest);
        if let Ok(filters) = packet::filters_of(rest) {
            lemma_asked(filters);
        }
    }
}

/// How filters can fail to be read.
proof fn lemma_filter_failures(rest: Seq<u8>)
    ensures
        packet::filters_of(rest) matches Err(error) ==> error == shorter() || error
            == past_the_end() || error == not_text(),
    decreases rest.len(),
{
    if rest.len() > 0 {
        if let Ok((_, after)) = wire::split_text(rest) {
            if let Ok((_, others)) = wire::split_u8(after) {
                lemma_filter_failures(others);
            }
        }
    }
}

/// A user name and a password that the flags speak of are read as they stand there.
proof fn lemma_presented_is_read(
    flags: u8,
    username: Seq<char>,
    password: Seq<u8>,
    rest: Seq<u8>,
)
    requires
        encode_utf8(username).len() <= 65_535,
        password.len() <= 65_535,
    ensures
        ({
            let secret = (if flags / 64 % 2 == 1 {
                counted(password)
            } else {
                Seq::empty()
            }) + rest;
            let name = (if flags / 128 == 1 {
                counted_text(username)
            } else {
                Seq::empty()
            }) + secret;
            &&& packet::split_username(flags, name) == Ok::<
                (Option<Seq<char>>, Seq<u8>),
                ErrorView,
            >(
                (
                    if flags / 128 == 1 {
                        Some(username)
                    } else {
                        None
                    },
                    secret,
                ),
            )
            &&& packet::password_of(flags, secret) == Ok::<Option<Seq<u8>>, ErrorView>(
                if flags / 64 % 2 == 1 {
                    Some(password)
                } else {
                    None
                },
            )
        }),
{
    reveal(packet::split_username);
    reveal(packet::password_of);
    let secret = (if flags / 64 % 2 == 1 {
        counted(password)
    } else {
        Seq::empty()
    }) + rest;
    lemma_counted(encode_utf8(username));
    lemma_counted(password);
    wire::law_text_reads_back(username, secret);
    wire::law_data_reads_back(password, rest);
    assert(Seq::empty() + secret =~= secret);
    assert(Seq::empty() + rest =~= rest);
}

/// A will that the flags speak of is passed over.
proof fn lemma_will_is_passed_over(
    flags: u8,
    will_topic: Seq<char>,
    will_message: Seq<u8>,
    rest: Seq<u8>,
)
    requires
        encode_utf8(will_topic).len() <= 65_535,
        will_message.len() <= 65_535,
    ensures
        packet::split_will(
            flags,
            (if flags / 4 % 2 == 1 {
                counted_text(will_topic) + counted(will_message)
            } else {
                Seq::empty()
            }) + rest,
        ) == Ok::<Seq<u8>, ErrorView>(rest),
{
    reveal(packet::split_will);
    lemma_counted(encode_utf8(will_topic));
    lemma_counted(will_message);
    wire::law_text_reads_back(will_topic, counted(will_message) + rest);
    wire::law_data_reads_back(will_message, rest);
    assert(counted_text(will_topic) + counted(will_message) + rest =~= counted_text(will_topic) + (
    counted(will_message) + rest));
    assert(Seq::empty() + rest =~= rest);
}

/// The protocol name and level of a CONNECT.
#[verifier::opaque]
spec fn opening() -> Seq<u8> {
    seq![0u8, 4, 0x4d, 0x51, 0x54, 0x54, 4]
}

/// What the body of a CONNECT decodes to.
#[verifier::opaque]
spec fn opened(body: Seq<u8>) -> Result<PacketView, ErrorView> {
    packet::connect_of(body)
}

/// What follows the protocol level of a CONNECT decodes to.
#[verifier::opaque]
spec fn continued(rest: Seq<u8>) -> Result<PacketView, ErrorView> {
    packet::connect_payload(rest)
}

/// The text at the start of `rest`, and what follows it.
#[verifier::opaque]
spec fn text_at(rest: Seq<u8>) -> Result<(Seq<char>, Seq<u8>), ErrorView> {
    wire::split_text(rest)
}

/// A CONNECT is decoded under every head of its type.
proof fn lemma_opened(head: u8, body: Seq<u8>)
    requires
        head / 16 == 1,
    ensures
        packet::decoded(head, body) == opened(body),
{
    reveal(opened);
}

/// The protocol name and level, and what follows them.
proof fn lemma_continued(rest: Seq<u8>)
    ensures
        opened(opening() + rest) == continued(rest),
{
    reveal(opened);
    reveal(continued);
    reveal(opening);
    packet::lemma_protocol_name();
    let levelled = seq![4u8] + rest;
    wire::law_text_reads_back("MQTT"@, levelled);
    assert(opening() + rest =~= wire::text_field("MQTT"@) + levelled);
    assert(levelled.skip(1) =~= rest);
}

/// What follows the protocol level is read field by field.
proof fn lemma_fields(flags: u8, keep_alive: u16, named: Seq<u8>)
    ensures
        continued(seq![flags] + (two_bytes(keep_alive as int) + named)) == match text_at(named) {
            Err(error) => Err::<PacketView, ErrorView>(error),
            Ok((client_id, willed)) => match packet::split_will(flags, willed) {
                Err(error) => Err(error),
                Ok(presented) => match packet::split_username(flags, presented) {
                    Err(error) => Err(error),
                    Ok((username, secret)) => match packet::password_of(flags, secret) {
                        Err(error) => Err(error),
                        Ok(password) => Ok(
                            PacketView::Connect { client_id, username, password, keep_alive },
                        ),
                    },
                },
            },
        },
{
    reveal(continued);
    reveal(text_at);
    let timed = two_bytes(keep_alive as int) + named;
    assert((seq![flags] + timed).skip(1) =~= timed);
    lemma_two_bytes(keep_alive);
    wire::law_u16_reads_back(keep_alive, named);
}

/// A text that can be counted is read as it stands there.
proof fn lemma_text_at(text: Seq<char>, rest: Seq<u8>)
    requires
        encode_utf8(text).len() <= 65_535,
    ensures
        text_at(counted_text(text) + rest) == Ok::<(Seq<char>, Seq<u8>), ErrorView>((text, rest)),
{
    reveal(text_at);
    lemma_counted(encode_utf8(text));
    wire::law_text_reads_back(text, rest);
}

/// A body of type 1 in the form of CONNECT decodes to what stands in it, whatever
/// the flags say besides, with a will passed over and with anything behind it. There
/// is a user name just where bit 7 of the flags says so, and a password just where
/// bit 6 does.
pub proof fn law_connect_is_decoded(
    head: u8,
    flags: u8,
    keep_alive: u16,
    client_id: Seq<char>,
    will_topic: Seq<char>,
    will_message: Seq<u8>,
    username: Seq<char>,
    password: Seq<u8>,
    rest: Seq<u8>,
)
    requires
        head / 16 == 1,
        encode_utf8(client_id).len() <= 65_535,
        encode_utf8(will_topic).len() <= 65_535,
        will_message.len() <= 65_535,
        encode_utf8(username).len() <= 65_535,
        password.len() <= 65_535,
    ensures
        packet::decoded(
            head,
            connect_form(
                flags,
                keep_alive,
                client_id,
                will_topic,
                will_message,
                username,
                password,
            ) + rest,
        ) == Ok::<PacketView, ErrorView>(
            PacketView::Connect {
                client_id,
                username: if flags / 128 == 1 {
                    Some(username)
                } else {
                    None
                },
                password: if flags / 64 % 2 == 1 {
                    Some(password)
                } else {
                    None
                },
                keep_alive,
            },
        ),
{
    let will = if flags / 4 % 2 == 1 {
        counted_text(will_topic) + counted(will_message)
    } else {
        Seq::empty()
    };
    let name = if flags / 128 == 1 {
        counted_text(username)
    } else {
        Seq::empty()
    };
    let secret = if flags / 64 % 2 == 1 {
        counted(password)
    } else {
        Seq::empty()
    };
    lemma_will_is_passed_over(flags, will_topic, will_message, name + (secret + rest));
    lemma_presented_is_read(flags, username, password, rest);
    lemma_connect_parts(flags, keep_alive, client_id, will, name, secret, rest);
    lemma_opened(
        head,
        connect_form(
            flags,
            keep_alive,
            client_id,
            will_topic,
            will_message,
            username,
            password,
        ) + rest,
    );
}

/// The parts of a CONNECT decode where each does.
proof fn lemma_connect_parts(
    flags: u8,
    keep_alive: u16,
    client_id: Seq<char>,
    will: Seq<u8>,
    name: Seq<u8>,
    secret: Seq<u8>,
    rest: Seq<u8>,
)
    requires
        encode_utf8(client_id).len() <= 65_535,
        packet::split_will(flags, will + (name + (secret + rest))) == Ok::<Seq<u8>, ErrorView>(
            name + (secret + rest),
        ),
        packet::split_username(flags, name + (secret + rest)) is Ok,
        packet::split_username(flags, name + (secret + rest))->Ok_0.1 == secret + rest,
        packet::password_of(flags, secret + rest) is Ok,
    ensures
        opened(
            seq![0u8, 4, 0x4d, 0x51, 0x54, 0x54, 4, flags] + two_bytes(keep_alive as int)
                + counted_text(client_id) + will + name + secret + rest,
        ) == Ok::<PacketView, ErrorView>(
            PacketView::Connect {
                client_id,
                username: packet::split_username(flags, name + (secret + rest))->Ok_0.0,
                password: packet::password_of(flags, secret + rest)->Ok_0,
                keep_alive,
            },
        ),
{
    let presented = name + (secret + rest);
    let willed = will + presented;
    let named = counted_text(client_id) + willed;
    lemma_form_parts(
        flags,
        two_bytes(keep_alive as int),
        counted_text(client_id),
        will,
        name,
        secret,
        rest,
    );
    lemma_continued(seq![flags] + (two_bytes(keep_alive as int) + named));
    lemma_fields(flags, keep_alive, named);
    lemma_text_at(client_id, willed);
}

/// The parts of a CONNECT one behind another, and each before all that follow.
proof fn lemma_form_parts(
    flags: u8,
    a: Seq<u8>,
    b: Seq<u8>,
    c: Seq<u8>,
    d: Seq<u8>,
    e: Seq<u8>,
    rest: Seq<u8>,
)
    ensures
        seq![0u8, 4, 0x4d, 0x51, 0x54, 0x54, 4, flags] + a + b + c + d + e + rest == opening() + (
        seq![flags] + (a + (b + (c + (d + (e + rest)))))),
{
    reveal(opening);
    let left = seq![0u8, 4, 0x4d, 0x51, 0x54, 0x54, 4, flags] + a + b + c + d + e + rest;
    assert(left =~= opening() + (seq![flags] + (a + (b + (c + (d + (e + rest)))))));
}

/// The will that stands in `rest`, if the flags speak of one, and what follows it.
proof fn lemma_will_comes_from(flags: u8, rest: Seq<u8>) -> (will: (Seq<char>, Seq<u8>))
    ensures
        packet::split_will(flags, rest) matches Ok(tail) ==> rest == (if flags / 4 % 2 == 1 {
            counted_text(will.0) + counted(will.1)
        } else {
            Seq::empty()
        }) + tail,
{
    reveal(packet::split_will);
    lemma_text_comes_from(rest);
    if let Ok((topic, message)) = wire::split_text(rest) {
        lemma_data_comes_from(message);
        if let Ok((data, tail)) = wire::split_data(message) {
            assert(counted_text(topic) + (counted(data) + tail) =~= counted_text(topic) + counted(
                data,
            ) + tail);
            assert(Seq::empty() + rest =~= rest);
            (topic, data)
        } else {
            assert(Seq::empty() + rest =~= rest);
            (topic, Seq::empty())
        }
    } else {
        assert(Seq::empty() + rest =~= rest);
        (Seq::empty(), Seq::empty())
    }
}

/// The user name and the password that stand in `rest`, and what follows them.
proof fn lemma_presented_comes_from(flags: u8, rest: Seq<u8>) -> (tail: Seq<u8>)
    ensures
        packet::split_username(flags, rest) matches Ok((username, after))
            ==> packet::password_of(flags, after) matches Ok(password) ==> {
            &&& username is Some <==> flags / 128 == 1
            &&& password is Some <==> flags / 64 % 2 == 1
            &&& rest == (match username {
                Some(name) => counted_text(name),
                None => Seq::empty(),
            }) + (match password {
                Some(secret) => counted(secret),
                None => Seq::empty(),
            }) + tail
        },
{
    reveal(packet::split_username);
    reveal(packet::password_of);
    lemma_text_comes_from(rest);
    if let Ok((username, after)) = packet::split_username(flags, rest) {
        lemma_data_comes_from(after);
        let name = match username {
            Some(name) => counted_text(name),
            None => Seq::empty(),
        };
        assert(rest =~= name + after);
        if let Ok((secret, tail)) = wire::split_data(after) {
            if flags / 64 % 2 == 1 {
                assert(rest =~= name + counted(secret) + tail);
                tail
            } else {
                assert(rest =~= name + Seq::empty() + after);
                after
            }
        } else {
            assert(rest =~= name + Seq::empty() + after);
            after
        }
    } else {
        Seq::empty()
    }
}

/// What decodes under a head of type 1 is a CONNECT of just what stands in the body,
/// behind a protocol `MQTT` at level 4; what does not is of another protocol or level,
/// is short of a byte that is due, or has a field that ends behind it or is no text.
pub proof fn law_connect_comes_from_its_bytes(head: u8, body: Seq<u8>)
    requires
        head / 16 == 1,
    ensures
        match packet::decoded(head, body) {
            Ok(PacketView::Connect { client_id, username, password, keep_alive }) => {
                &&& body.len() >= 10
                &&& username is Some <==> body[7] / 128 == 1
                &&& password is Some <==> body[7] / 64 % 2 == 1
                &&& exists|will_topic: Seq<char>, will_message: Seq<u8>, rest: Seq<u8>|
                    body == #[trigger] connect_with(
                        body[7],
                        keep_alive,
                        client_id,
                        will_topic,
                        will_message,
                        username,
                        password,
                        rest,
                    )
            },
            Ok(_) => false,
            Err(error) => {
                ||| error == shorter()
                ||| error == past_the_end()
                ||| error == not_text()
                ||| error == another_protocol()
            },
        },
{
    lemma_opened(head, body);
    reveal(opened);
    lemma_connect_failures(body);
    lemma_opening_comes_from(body);
    reveal(opening);
    if packet::connect_of(body) is Ok {
        lemma_payload_comes_from(body.skip(7));
        assert(opening() + body.skip(7) =~= body);
    }
}

/// What decodes to CONNECT is of the protocol `MQTT` at level 4.
proof fn lemma_opening_comes_from(body: Seq<u8>)
    ensures
        packet::connect_of(body) is Ok ==> {
            &&& body.len() >= 7
            &&& body.take(7) == opening()
            &&& packet::connect_of(body) == packet::connect_payload(body.skip(7))
        },
{
    reveal(opening);
    if packet::connect_of(body) is Ok {
        lemma_text_comes_from(body);
        packet::lemma_protocol_name();
        lemma_counted(encode_utf8("MQTT"@));
        let (_, levelled) = wire::split_text(body)->Ok_0;
        let (level, rest) = wire::split_u8(levelled)->Ok_0;
        assert(levelled =~= seq![level] + rest);
        assert(body =~= opening() + rest);
        assert(body.take(7) =~= opening());
        assert(body.skip(7) =~= rest);
    }
}

/// What decodes behind the protocol level is just what stands there.
proof fn lemma_payload_comes_from(rest: Seq<u8>)
    ensures
        packet::connect_payload(rest) matches Ok(packet) ==> packet matches PacketView::Connect {
            client_id,
            username,
            password,
            keep_alive,
        } && {
            &&& rest.len() >= 3
            &&& username is Some <==> rest[0] / 128 == 1
            &&& password is Some <==> rest[0] / 64 % 2 == 1
            &&& exists|will_topic: Seq<char>, will_message: Seq<u8>, tail: Seq<u8>|
                opening() + rest == #[trigger] connect_with(
                    rest[0],
                    keep_alive,
                    client_id,
                    will_topic,
                    will_message,
                    username,
                    password,
                    tail,
                )
        },
{
    if let Ok(PacketView::Connect { client_id, username, password, keep_alive })
        = packet::connect_payload(rest) {
        let (flags, timed) = wire::split_u8(rest)->Ok_0;
        lemma_u16_comes_from(timed);
        let (_, named) = wire::split_u16(timed)->Ok_0;
        lemma_text_comes_from(named);
        let (_, willed) = wire::split_text(named)->Ok_0;
        let (will_topic, will_message) = lemma_will_comes_from(flags, willed);
        let presented = packet::split_will(flags, willed)->Ok_0;
        let tail = lemma_presented_comes_from(flags, presented);
        let will = if flags / 4 % 2 == 1 {
            counted_text(will_topic) + counted(will_message)
        } else {
            Seq::empty()
        };
        let name = match username {
            Some(name) => counted_text(name),
            None => Seq::empty(),
        };
        let secret = match password {
            Some(secret) => counted(secret),
            None => Seq::empty(),
        };
        assert(rest =~= seq![flags] + timed);
        assert(name + secret + tail =~= name + (secret + tail));
        lemma_form_parts(
            flags,
            two_bytes(keep_alive as int),
            counted_text(client_id),
            will,
            name,
            secret,
            tail,
        );
        assert(opening() + rest == connect_with(
            flags,
            keep_alive,
            client_id,
            will_topic,
            will_message,
            username,
            password,
            tail,
        ));
    }
}

/// The form of a CONNECT with these fields and this will, before `rest`.
pub open spec fn connect_with(
    flags: u8,
    keep_alive: u16,
    client_id: Seq<char>,
    will_topic: Seq<char>,
    will_message: Seq<u8>,
    username: Option<Seq<char>>,
    password: Option<Seq<u8>>,
    rest: Seq<u8>,
) -> Seq<u8> {
    connect_form(
        flags,
        keep_alive,
        client_id,
        will_topic,
        will_message,
        match username {
            Some(name) => name,
            None => Seq::empty(),
        },
        match password {
            Some(secret) => secret,
            None => Seq::empty(),
        },
    ) + rest
}

/// The failure of a CONNECT of another protocol or level.
pub open spec fn another_protocol() -> ErrorView {
    ErrorView { retryable: false, message: "a CONNECT that is not MQTT 3.1.1"@ }
}

/// How a CONNECT can fail to be read.
proof fn lemma_connect_failures(body: Seq<u8>)
    ensures
        packet::connect_of(body) matches Err(error) ==> {
            ||| error == shorter()
            ||| error == past_the_end()
            ||| error == not_text()
            ||| error == another_protocol()
        },
{
    reveal(packet::split_will);
    reveal(packet::split_username);
    reveal(packet::password_of);
}

/// A CONNECT of another protocol or another level is refused as such, whatever
/// follows.
pub proof fn law_other_protocols_are_refused(
    head: u8,
    protocol: Seq<char>,
    level: u8,
    rest: Seq<u8>,
)
    requires
        head / 16 == 1,
        encode_utf8(protocol).len() <= 65_535,
        protocol != seq!['M', 'Q', 'T', 'T'] || level != 4,
    ensures
        packet::decoded(head, counted_text(protocol) + seq![level] + rest) == Err::<
            PacketView,
            ErrorView,
        >(another_protocol()),
{
    reveal_strlit("MQTT");
    assert("MQTT"@ =~= seq!['M', 'Q', 'T', 'T']);
    lemma_counted(encode_utf8(protocol));
    wire::law_text_reads_back(protocol, seq![level] + rest);
    assert(counted_text(protocol) + seq![level] + rest =~= counted_text(protocol) + (seq![level]
        + rest));
}

/// A packet is read from its head, from the length in the next one to four bytes,
/// whose last is the first below 128, and from as many bytes as that says; what
/// follows is left. Where there are not as many, it fails and leaves nothing.
pub proof fn law_a_packet_is_as_long_as_it_says(input: Seq<u8>, width: int)
    requires
        1 <= width <= 4,
        width < input.len(),
        forall|i: int| 1 <= i < width ==> #[trigger] input[i] >= 128,
        input[width] < 128,
    ensures
        ({
            let length = input[1] % 128 + (if width > 1 {
                128 * (input[2] % 128)
            } else {
                0
            }) + (if width > 2 {
                16_384 * (input[3] % 128)
            } else {
                0
            }) + (if width > 3 {
                2_097_152 * (input[4] % 128)
            } else {
                0
            });
            let end = 1 + width + length;
            let (result, left) = packet::reading(input);
            if input.len() < end {
                result is Err && left.len() == 0
            } else {
                &&& left == input.subrange(end, input.len() as int)
                &&& result == match packet::decoded(input[0], input.subrange(1 + width, end)) {
                    Ok(packet) => Ok::<Option<PacketView>, ErrorView>(Some(packet)),
                    Err(error) => Err(error),
                }
            }
        }),
{
    let length = input[1] % 128 + (if width > 1 {
        128 * (input[2] % 128)
    } else {
        0
    }) + (if width > 2 {
        16_384 * (input[3] % 128)
    } else {
        0
    }) + (if width > 3 {
        2_097_152 * (input[4] % 128)
    } else {
        0
    });
    let end = 1 + width + length;
    lemma_length_by_the_bytes(input, width);
    let rest = input.skip(1 + width);
    if input.len() >= end {
        assert(rest.take(length) =~= input.subrange(1 + width, end));
        assert(rest.skip(length) =~= input.subrange(end, input.len() as int));
    }
}

/// The remaining length that stands behind the first byte of `input`.
proof fn lemma_length_by_the_bytes(input: Seq<u8>, width: int)
    requires
        1 <= width <= 4,
        width < input.len(),
        forall|i: int| 1 <= i < width ==> #[trigger] input[i] >= 128,
        input[width] < 128,
    ensures
        wire::split_length(input.skip(1), wire::MAX_WIDTH as nat) == (wire::Length::Whole {
            value: (input[1] % 128 + (if width > 1 {
                128 * (input[2] % 128)
            } else {
                0
            }) + (if width > 2 {
                16_384 * (input[3] % 128)
            } else {
                0
            }) + (if width > 3 {
                2_097_152 * (input[4] % 128)
            } else {
                0
            })) as nat,
            width: width as nat,
        }),
{
    reveal_with_fuel(wire::split_length, 5);
    if width > 1 {
        assert(input[1] >= 128);
        assert(input.skip(1).skip(1) =~= input.skip(2));
    }
    if width > 2 {
        assert(input[2] >= 128);
        assert(input.skip(2).skip(1) =~= input.skip(3));
    }
    if width > 3 {
        assert(input[3] >= 128);
        assert(input.skip(3).skip(1) =~= input.skip(4));
    }
}

/// Nothing is read from nothing; a length that four bytes do not end is refused, and
/// what follows them is left; and bytes that end before the length does are refused.
pub proof fn law_a_length_ends_within_four_bytes(input: Seq<u8>)
    ensures
        input.len() == 0 ==> packet::reading(input) == (
            Ok::<Option<PacketView>, ErrorView>(None),
            Seq::<u8>::empty(),
        ),
        input.len() > 4 && input[1] >= 128 && input[2] >= 128 && input[3] >= 128 && input[4] >= 128
            ==> packet::reading(input) == (
            Err::<Option<PacketView>, ErrorView>(
                ErrorView { retryable: false, message: "a remaining length over four bytes"@ },
            ),
            input.subrange(5, input.len() as int),
        ),
        0 < input.len() <= 4 && (forall|i: int|
            1 <= i < input.len() ==> #[trigger] input[i] >= 128) ==> packet::reading(input).0 is Err
            && packet::reading(input).1.len() == 0,
{
    reveal_with_fuel(wire::split_length, 5);
    if input.len() == 0 {
        assert(input =~= Seq::empty());
    } else {
        if input.len() > 1 {
            assert(input.skip(1).skip(1) =~= input.skip(2));
        }
        if input.len() > 2 {
            assert(input.skip(2).skip(1) =~= input.skip(3));
        }
        if input.len() > 3 {
            assert(input.skip(3).skip(1) =~= input.skip(4));
        }
        if input.len() > 4 {
            assert(input.skip(5) =~= input.subrange(5, input.len() as int));
        }
    }
}

/// The most that a field and a packet may hold.
pub proof fn law_limits()
    ensures
        packet::MAX_REMAINING == 128 * 128 * 128 * 128 - 1,
        wire::MAX_FIELD == 256 * 256 - 1,
{
}

/// Why the data at the start of `rest` cannot be read, if they cannot: there are no two
/// bytes that count them, or fewer bytes than those say.
pub open spec fn data_failure(rest: Seq<u8>) -> Option<ErrorView> {
    if rest.len() < 2 {
        Some(shorter())
    } else if rest.len() < 2 + 256 * rest[0] + rest[1] {
        Some(past_the_end())
    } else {
        None
    }
}

/// Why the text at the start of `rest` cannot be read, if it cannot: as data cannot, or
/// because the data are no UTF-8.
pub open spec fn text_failure(rest: Seq<u8>) -> Option<ErrorView> {
    if data_failure(rest) is Some {
        data_failure(rest)
    } else if !valid_utf8(rest.subrange(2, 2 + 256 * rest[0] + rest[1])) {
        Some(not_text())
    } else {
        None
    }
}

/// Fields fail to be read for these reasons and no others.
proof fn lemma_field_failures(rest: Seq<u8>)
    ensures
        match data_failure(rest) {
            Some(error) => wire::split_data(rest) == Err::<(Seq<u8>, Seq<u8>), ErrorView>(error),
            None => wire::split_data(rest) is Ok,
        },
        match text_failure(rest) {
            Some(error) => wire::split_text(rest) == Err::<(Seq<char>, Seq<u8>), ErrorView>(error),
            None => wire::split_text(rest) is Ok,
        },
{
    reveal(wire::text_of);
    if data_failure(rest) is None {
        let count = 256 * rest[0] + rest[1];
        assert(rest.skip(2).take(count) =~= rest.subrange(2, 2 + count));
    }
}

/// A SUBSCRIBE fails as the first filter does that cannot be read, or because no
/// quality of service follows it.
pub proof fn law_subscribe_fails_as_its_first_bad_filter(
    head: u8,
    id: u16,
    filters: Seq<(Seq<char>, u8)>,
    filter: Seq<char>,
    rest: Seq<u8>,
)
    requires
        head / 16 == 8,
        forall|i: int|
            0 <= i < filters.len() ==> encode_utf8(#[trigger] filters[i].0).len() <= 65_535,
        encode_utf8(filter).len() <= 65_535,
    ensures
        rest.len() > 0 && text_failure(rest) is Some ==> packet::decoded(
            head,
            two_bytes(id as int) + (asked(filters) + rest),
        ) == Err::<PacketView, ErrorView>(text_failure(rest)->0),
        packet::decoded(head, two_bytes(id as int) + (asked(filters) + counted_text(filter)))
            == Err::<PacketView, ErrorView>(shorter()),
{
    assert forall|i: int| 0 <= i < filters.len() implies wire::text_fits(
        #[trigger] filters[i].0,
    ) by {
        assert(encode_utf8(filters[i].0).len() <= 65_535);
    }
    lemma_asked(filters);
    lemma_two_bytes(id);
    lemma_counted(encode_utf8(filter));
    lemma_field_failures(rest);
    wire::law_u16_reads_back(id, asked(filters) + rest);
    wire::law_u16_reads_back(id, asked(filters) + counted_text(filter));
    if rest.len() > 0 && text_failure(rest) is Some {
        lemma_filters_fail(filters, rest, text_failure(rest)->0);
    }
    wire::law_text_reads_back(filter, Seq::empty());
    assert(counted_text(filter) + Seq::empty() =~= counted_text(filter));
    lemma_filters_fail(filters, counted_text(filter), shorter());
}

/// Filters fail as what stands behind those that can be read does.
proof fn lemma_filters_fail(filters: Seq<(Seq<char>, u8)>, rest: Seq<u8>, error: ErrorView)
    requires
        packet::filters_fit(filters),
        packet::filters_of(rest) == Err::<Seq<(Seq<char>, u8)>, ErrorView>(error),
    ensures
        packet::filters_of(packet::filter_fields(filters) + rest) == Err::<
            Seq<(Seq<char>, u8)>,
            ErrorView,
        >(error),
    decreases filters.len(),
{
    if filters.len() == 0 {
        assert(packet::filter_fields(filters) + rest =~= rest);
    } else {
        let (filter, qos) = filters[0];
        let others = filters.skip(1);
        let tail = packet::filter_fields(others) + rest;
        assert(wire::text_fits(filters[0].0));
        assert forall|i: int| 0 <= i < others.len() implies wire::text_fits(
            #[trigger] others[i].0,
        ) by {
            assert(others[i] == filters[i + 1]);
            assert(wire::text_fits(filters[i + 1].0));
        }
        lemma_filters_fail(others, rest, error);
        wire::law_text_reads_back(filter, seq![qos] + tail);
        assert(packet::filter_fields(filters) + rest =~= wire::text_field(filter) + (seq![qos]
            + tail));
        assert((seq![qos] + tail).skip(1) =~= tail);
    }
}

/// A CONNECT fails as its protocol name does where that cannot be read, and is too
/// short where no level follows, or less than the flags and the keep-alive.
pub proof fn law_connect_fails_as_its_opening_does(head: u8, protocol: Seq<char>, rest: Seq<u8>)
    requires
        head / 16 == 1,
        encode_utf8(protocol).len() <= 65_535,
    ensures
        text_failure(rest) is Some ==> packet::decoded(head, rest) == Err::<PacketView, ErrorView>(
            text_failure(rest)->0,
        ),
        packet::decoded(head, counted_text(protocol)) == Err::<PacketView, ErrorView>(shorter()),
        rest.len() < 3 ==> packet::decoded(
            head,
            seq![0u8, 4, 0x4d, 0x51, 0x54, 0x54, 4] + rest,
        ) == Err::<PacketView, ErrorView>(shorter()),
{
    lemma_field_failures(rest);
    lemma_counted(encode_utf8(protocol));
    wire::law_text_reads_back(protocol, Seq::empty());
    assert(counted_text(protocol) + Seq::empty() =~= counted_text(protocol));
    lemma_continued(rest);
    reveal(opened);
    reveal(continued);
    reveal(opening);
}

/// A CONNECT fails as the first field does that cannot be read of those that its flags
/// speak of: the name, the topic and the message of a will, the user name, the password.
pub proof fn law_connect_fails_as_its_first_bad_field(
    head: u8,
    flags: u8,
    keep_alive: u16,
    client_id: Seq<char>,
    will_topic: Seq<char>,
    will_message: Seq<u8>,
    username: Seq<char>,
    rest: Seq<u8>,
)
    requires
        head / 16 == 1,
        encode_utf8(client_id).len() <= 65_535,
        encode_utf8(will_topic).len() <= 65_535,
        will_message.len() <= 65_535,
        encode_utf8(username).len() <= 65_535,
    ensures
        ({
            let begun = |fields: Seq<u8>|
                packet::decoded(
                    head,
                    seq![0u8, 4, 0x4d, 0x51, 0x54, 0x54, 4] + (seq![flags] + (two_bytes(
                        keep_alive as int,
                    ) + fields)),
                );
            let name = counted_text(client_id);
            let will = if flags / 4 % 2 == 1 {
                counted_text(will_topic) + counted(will_message)
            } else {
                Seq::empty()
            };
            let user = if flags / 128 == 1 {
                counted_text(username)
            } else {
                Seq::empty()
            };
            &&& text_failure(rest) matches Some(error) ==> begun(rest) == Err::<
                PacketView,
                ErrorView,
            >(error)
            &&& flags / 4 % 2 == 1 && text_failure(rest) is Some ==> begun(name + rest)
                == Err::<PacketView, ErrorView>(text_failure(rest)->0)
            &&& flags / 4 % 2 == 1 && data_failure(rest) is Some ==> begun(
                name + (counted_text(will_topic) + rest),
            ) == Err::<PacketView, ErrorView>(data_failure(rest)->0)
            &&& flags / 128 == 1 && text_failure(rest) is Some ==> begun(
                name + (will + rest),
            ) == Err::<PacketView, ErrorView>(text_failure(rest)->0)
            &&& flags / 64 % 2 == 1 && data_failure(rest) is Some ==> begun(
                name + (will + (user + rest)),
            ) == Err::<PacketView, ErrorView>(data_failure(rest)->0)
        }),
{
    let will = if flags / 4 % 2 == 1 {
        counted_text(will_topic) + counted(will_message)
    } else {
        Seq::empty()
    };
    let user = if flags / 128 == 1 {
        counted_text(username)
    } else {
        Seq::empty()
    };
    lemma_begun(flags, keep_alive, client_id, rest);
    lemma_begun(flags, keep_alive, client_id, counted_text(will_topic) + rest);
    lemma_begun(flags, keep_alive, client_id, will + rest);
    lemma_begun(flags, keep_alive, client_id, will + (user + rest));
    lemma_will_is_passed_over(flags, will_topic, will_message, rest);
    lemma_will_is_passed_over(flags, will_topic, will_message, user + rest);
    lemma_later_fields_fail(flags, will_topic, username, rest);
    lemma_text_failure_at(rest);
    let name = counted_text(client_id);
    lemma_begun_is_decoded(head, flags, keep_alive, rest);
    lemma_begun_is_decoded(head, flags, keep_alive, name + rest);
    lemma_begun_is_decoded(head, flags, keep_alive, name + (counted_text(will_topic) + rest));
    lemma_begun_is_decoded(head, flags, keep_alive, name + (will + rest));
    lemma_begun_is_decoded(head, flags, keep_alive, name + (will + (user + rest)));
}

/// A text fails to be read for the reasons that there are.
proof fn lemma_text_failure_at(rest: Seq<u8>)
    ensures
        text_failure(rest) is Some ==> text_at(rest) == Err::<(Seq<char>, Seq<u8>), ErrorView>(
            text_failure(rest)->0,
        ),
{
    reveal(text_at);
    lemma_field_failures(rest);
}

/// What a CONNECT with these fields behind its keep-alive decodes to.
#[verifier::opaque]
spec fn begun(flags: u8, keep_alive: u16, fields: Seq<u8>) -> Result<PacketView, ErrorView> {
    opened(opening() + (seq![flags] + (two_bytes(keep_alive as int) + fields)))
}

/// A CONNECT that has begun is one under every head of its type.
proof fn lemma_begun_is_decoded(head: u8, flags: u8, keep_alive: u16, fields: Seq<u8>)
    requires
        head / 16 == 1,
    ensures
        packet::decoded(
            head,
            seq![0u8, 4, 0x4d, 0x51, 0x54, 0x54, 4] + (seq![flags] + (two_bytes(keep_alive as int)
                + fields)),
        ) == begun(flags, keep_alive, fields),
{
    reveal(begun);
    reveal(opening);
    lemma_opened(
        head,
        seq![0u8, 4, 0x4d, 0x51, 0x54, 0x54, 4] + (seq![flags] + (two_bytes(keep_alive as int)
            + fields)),
    );
}

/// A CONNECT as far as its name, and what follows it.
proof fn lemma_begun(flags: u8, keep_alive: u16, client_id: Seq<char>, rest: Seq<u8>)
    requires
        encode_utf8(client_id).len() <= 65_535,
    ensures
        ({
            &&& text_at(rest) matches Err(error) ==> begun(flags, keep_alive, rest) == Err::<
                PacketView,
                ErrorView,
            >(error)
            &&& match packet::split_will(flags, rest) {
                Err(error) => begun(flags, keep_alive, counted_text(client_id) + rest) == Err::<PacketView, ErrorView>(
                    error,
                ),
                Ok(presented) => match packet::split_username(flags, presented) {
                    Err(error) => begun(flags, keep_alive, counted_text(client_id) + rest) == Err::<
                        PacketView,
                        ErrorView,
                    >(error),
                    Ok((_, secret)) => packet::password_of(flags, secret) matches Err(error)
                        ==> begun(flags, keep_alive, counted_text(client_id) + rest) == Err::<PacketView, ErrorView>(
                        error,
                    ),
                },
            }
        }),
{
    reveal(begun);
    let named = counted_text(client_id) + rest;
    lemma_continued(seq![flags] + (two_bytes(keep_alive as int) + rest));
    lemma_continued(seq![flags] + (two_bytes(keep_alive as int) + named));
    lemma_fields(flags, keep_alive, rest);
    lemma_fields(flags, keep_alive, named);
    lemma_text_at(client_id, rest);
}

/// How the fields behind the name fail that the flags speak of.
proof fn lemma_later_fields_fail(
    flags: u8,
    will_topic: Seq<char>,
    username: Seq<char>,
    rest: Seq<u8>,
)
    requires
        encode_utf8(will_topic).len() <= 65_535,
        encode_utf8(username).len() <= 65_535,
    ensures
        flags / 4 % 2 == 1 && text_failure(rest) is Some ==> packet::split_will(
            flags,
            rest,
        ) == Err::<Seq<u8>, ErrorView>(text_failure(rest)->0),
        flags / 4 % 2 == 1 && data_failure(rest) is Some ==> packet::split_will(
            flags,
            counted_text(will_topic) + rest,
        ) == Err::<Seq<u8>, ErrorView>(data_failure(rest)->0),
        flags / 128 == 1 && text_failure(rest) is Some ==> packet::split_username(
            flags,
            rest,
        ) == Err::<(Option<Seq<char>>, Seq<u8>), ErrorView>(text_failure(rest)->0),
        flags / 64 % 2 == 1 && data_failure(rest) is Some ==> packet::password_of(
            flags,
            rest,
        ) == Err::<Option<Seq<u8>>, ErrorView>(data_failure(rest)->0),
        packet::split_username(
            flags,
            (if flags / 128 == 1 {
                counted_text(username)
            } else {
                Seq::empty()
            }) + rest,
        ) matches Ok((_, secret)) && secret == rest,
{
    reveal(packet::split_will);
    reveal(packet::split_username);
    reveal(packet::password_of);
    lemma_field_failures(rest);
    lemma_counted(encode_utf8(will_topic));
    lemma_counted(encode_utf8(username));
    wire::law_text_reads_back(will_topic, rest);
    wire::law_text_reads_back(username, rest);
    assert(Seq::empty() + rest =~= rest);
}

} // verus!
