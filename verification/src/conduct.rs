//! What each end of a connection sends, and what it makes of every packet.
use crate::client::{Credentials, CredentialsView, Served, ServedView};
use crate::error::{Error, ErrorView};
use crate::packet::{Packet, PacketView, Publish, PublishView};
use crate::reader::{Fed, FedView, ReaderView};
use crate::session::{Event, EventView, SessionView};
use crate::step::{Arrived, ArrivedView, Next, Step, StepView};
use crate::{client, error, laws, layout, packet, session, show, text, transport};
use vstd::prelude::*;
use vstd::utf8::*;

verus! {

/// A failure that trying again does not mend.
pub open spec fn for_good(message: Seq<char>) -> ErrorView {
    ErrorView { retryable: false, message }
}

/// What the far end reads of a packet that is sent alone: it, and nothing behind it.
proof fn lemma_read_alone(packet: PacketView)
    requires
        packet::encoded(packet) is Ok,
    ensures
        packet::reading(packet::encoded(packet)->Ok_0) == (
            Ok::<Option<PacketView>, ErrorView>(Some(laws::as_read(packet))),
            Seq::<u8>::empty(),
        ),
{
    let bytes = packet::encoded(packet)->Ok_0;
    laws::law_packet_reads_back(packet, bytes, Seq::empty());
    assert(bytes + Seq::empty() =~= bytes);
}

/// What a client sends to connect is a CONNECT that presents the name, the user name
/// and the password of its credentials, each as it is or not at all, and asks for no
/// keep-alive; it sends nothing else. It fails just where one of them is too long.
pub proof fn law_a_client_presents_its_credentials(credentials: CredentialsView)
    ensures
        match packet::encoded(client::connect_packet(credentials)) {
            Ok(bytes) => packet::reading(bytes) matches (
                Ok(Some(PacketView::Connect { client_id, username, password, keep_alive })),
                left,
            ) && {
                &&& client_id == credentials.client_id
                &&& username == credentials.username
                &&& password == credentials.password
                &&& keep_alive == 0
                &&& left.len() == 0
                &&& encode_utf8(client_id).len() <= 65_535
                &&& username matches Some(name) ==> encode_utf8(name).len() <= 65_535
                &&& password matches Some(secret) ==> secret.len() <= 65_535
            },
            Err(error) => {
                &&& error == layout::overlong()
                &&& {
                    ||| encode_utf8(credentials.client_id).len() > 65_535
                    ||| credentials.username matches Some(name) && encode_utf8(name).len() > 65_535
                    ||| credentials.password matches Some(secret) && secret.len() > 65_535
                }
            },
        },
{
    layout::law_connect_is_laid_out(
        credentials.client_id,
        credentials.username,
        credentials.password,
        0,
    );
    if packet::encoded(client::connect_packet(credentials)) is Ok {
        lemma_read_alone(client::connect_packet(credentials));
    }
}

/// What a client sends to publish is a PUBLISH of the topic and the payload given,
/// never retained, at the quality of service given but 2 at most, and with the
/// identifier awaited; it sends nothing else. It fails just where the topic is too
/// long or the whole cannot be framed.
pub proof fn law_a_client_publishes_what_it_is_given(
    topic: Seq<char>,
    payload: Seq<u8>,
    qos: u8,
    id: Option<u16>,
)
    requires
        id is Some <==> qos > 0,
    ensures
        ({
            let count = encode_utf8(topic).len();
            let size = 2 + count + (if qos > 0 {
                2int
            } else {
                0
            }) + payload.len();
            match packet::encoded(client::publish_packet(topic, payload, qos, id)) {
                Ok(bytes) => packet::reading(bytes) matches (
                    Ok(Some(PacketView::Publish(sent))),
                    left,
                ) && {
                    &&& count <= 65_535
                    &&& size <= 268_435_455
                    &&& !sent.retain
                    &&& sent.topic == topic
                    &&& sent.payload == payload
                    &&& sent.qos == if qos > 2 {
                        2
                    } else {
                        qos
                    }
                    &&& sent.id == id
                    &&& left.len() == 0
                    &&& bytes[0] / 8 == 6
                },
                Err(error) => if count > 65_535 {
                    error == layout::overlong()
                } else {
                    size > 268_435_455 && error == layout::oversized()
                },
            }
        }),
{
    let publish = PublishView { topic, qos, retain: false, id, payload };
    layout::law_publish_is_laid_out(publish);
    if packet::encoded(client::publish_packet(topic, payload, qos, id)) is Ok {
        lemma_read_alone(client::publish_packet(topic, payload, qos, id));
    }
}

/// What a client sends to subscribe is a SUBSCRIBE to the one filter given, at the
/// quality of service given, with the identifier awaited; it sends nothing else. It
/// fails just where the filter is too long.
pub proof fn law_a_client_subscribes_to_what_it_is_given(id: u16, filter: Seq<char>, qos: u8)
    ensures
        match packet::encoded(client::subscribe_packet(id, filter, qos)) {
            Ok(bytes) => packet::reading(bytes) matches (
                Ok(Some(PacketView::Subscribe { id: sent, filters })),
                left,
            ) && {
                &&& encode_utf8(filter).len() <= 65_535
                &&& sent == id
                &&& filters.len() == 1
                &&& filters[0].0 == filter
                &&& filters[0].1 == qos
                &&& left.len() == 0
            },
            Err(error) => error == layout::overlong() && encode_utf8(filter).len() > 65_535,
        },
{
    let filters = seq![(filter, qos)];
    layout::law_subscribe_is_laid_out(id, filters);
    assert(filters[0].0 == filter);
    if encode_utf8(filter).len() <= 65_535 {
        reveal_with_fuel(layout::asked, 2);
        assert(layout::asked(filters).len() == 3 + encode_utf8(filter).len());
        assert(packet::encoded(client::subscribe_packet(id, filter, qos)) is Ok);
        lemma_read_alone(client::subscribe_packet(id, filter, qos));
    }
}

/// A client is connected just where the broker answers with a CONNACK of code 0,
/// whatever else it says; another code is named in the failure.
pub proof fn law_a_connack_of_code_0_connects(
    reply: Option<PacketView>,
    session_present: bool,
    code: u8,
)
    ensures
        code == 0 ==> client::connect_verdict(
            Some(PacketView::ConnAck { session_present, code }),
        ) is Ok,
        code != 0 ==> client::connect_verdict(Some(PacketView::ConnAck { session_present, code }))
            == Err::<(), ErrorView>(
            for_good("the broker refused the connection with code "@ + text::decimal(code as nat)),
        ),
        !(reply matches Some(PacketView::ConnAck { .. })) ==> client::connect_verdict(reply)
            == Err::<(), ErrorView>(for_good("the broker did not answer CONNECT"@)),
{
}

/// A packet of the broker that is no ping and no answer to one is handed on as it is,
/// and a DISCONNECT as a close is; a ping is answered, and its answer absorbed.
pub proof fn law_a_client_serves_pings_only(reply: Option<PacketView>)
    ensures
        client::served(Some(PacketView::PingReq)) == ServedView::Again(Some(seq![0xd0u8, 0])),
        client::served(Some(PacketView::PingResp)) == ServedView::Again(None),
        client::served(Some(PacketView::Disconnect)) == ServedView::Handed(None),
        !(reply matches Some(PacketView::PingReq)) && !(reply matches Some(PacketView::PingResp))
            && !(reply matches Some(PacketView::Disconnect)) ==> client::served(reply)
            == ServedView::Handed(reply),
{
    layout::law_small_packets_are_laid_out(false, 0, 0);
}

/// A client that waits for a PUBACK is done with the one of its identifier and with
/// nothing else; another PUBACK, a disconnection and any other packet but pings fail.
pub proof fn law_a_publication_waits_for_its_own_puback(
    id: u16,
    acked: u16,
    reply: Option<PacketView>,
)
    ensures
        client::publish_step(id, Some(PacketView::PubAck(id))) == Ok::<StepView<()>, ErrorView>(
            StepView { send: None, next: Next::Return(()) },
        ),
        acked != id ==> client::publish_step(id, Some(PacketView::PubAck(acked))) == Err::<
            StepView<()>,
            ErrorView,
        >(for_good("a PUBACK for another packet"@)),
        client::publish_step(id, Some(PacketView::PingReq)) == Ok::<StepView<()>, ErrorView>(
            StepView { send: Some(seq![0xd0u8, 0]), next: Next::Read },
        ),
        client::publish_step(id, Some(PacketView::PingResp)) == Ok::<StepView<()>, ErrorView>(
            StepView { send: None, next: Next::Read },
        ),
        !(reply matches Some(PacketView::PubAck(_))) && !(reply matches Some(PacketView::PingReq))
            && !(reply matches Some(PacketView::PingResp)) ==> client::publish_step(id, reply)
            == Err::<StepView<()>, ErrorView>(for_good("the broker did not acknowledge"@)),
{
    layout::law_small_packets_are_laid_out(false, 0, 0);
}

/// A client that waits for a SUBACK is done with the one of its identifier, unless
/// its first code is 0x80, which refuses the filter; any other packet but pings fails.
pub proof fn law_a_subscription_waits_for_its_own_suback(
    id: u16,
    filter: Seq<char>,
    acked: u16,
    codes: Seq<u8>,
    reply: Option<PacketView>,
)
    ensures
        codes.len() == 0 || codes[0] != 0x80 ==> client::subscribe_step(
            id,
            filter,
            Some(PacketView::SubAck { id, codes }),
        ) == Ok::<StepView<()>, ErrorView>(StepView { send: None, next: Next::Return(()) }),
        codes.len() > 0 && codes[0] == 0x80 ==> client::subscribe_step(
            id,
            filter,
            Some(PacketView::SubAck { id, codes }),
        ) == Err::<StepView<()>, ErrorView>(for_good("the broker refused "@ + filter)),
        acked != id ==> client::subscribe_step(
            id,
            filter,
            Some(PacketView::SubAck { id: acked, codes }),
        ) == Err::<StepView<()>, ErrorView>(for_good("the broker did not answer SUBSCRIBE"@)),
        client::subscribe_step(id, filter, Some(PacketView::PingReq)) == Ok::<
            StepView<()>,
            ErrorView,
        >(StepView { send: Some(seq![0xd0u8, 0]), next: Next::Read }),
        client::subscribe_step(id, filter, Some(PacketView::PingResp)) == Ok::<
            StepView<()>,
            ErrorView,
        >(StepView { send: None, next: Next::Read }),
        !(reply matches Some(PacketView::SubAck { .. })) && !(reply matches Some(
            PacketView::PingReq,
        )) && !(reply matches Some(PacketView::PingResp)) ==> client::subscribe_step(
            id,
            filter,
            reply,
        ) == Err::<StepView<()>, ErrorView>(for_good("the broker did not answer SUBSCRIBE"@)),
{
    layout::law_small_packets_are_laid_out(false, 0, 0);
}

/// The URI of a message is made of where it came from, its topic and its quality of
/// service.
pub open spec fn uri(peer: Seq<char>, publish: PublishView) -> Seq<char> {
    "mqtt://"@ + peer + "/"@ + publish.topic + "?qos="@ + text::decimal(publish.qos as nat)
}

/// The acknowledgement of a message: the four bytes of its PUBACK just where it has an
/// identifier.
pub open spec fn acknowledgement(id: Option<u16>) -> Option<Seq<u8>> {
    match id {
        Some(id) => Some(seq![0x40u8, 2, (id / 256) as u8, (id % 256) as u8]),
        None => None,
    }
}

/// Every PUBLISH of the broker is acknowledged where it has an identifier, and handed
/// up with its payload, its topic and its quality of service, whatever these are and
/// whether or not it was retained. Nothing is handed up where the broker disconnected,
/// pings are answered, and every other packet is passed over in silence.
pub proof fn law_a_client_hands_up_every_message(
    broker: Seq<char>,
    publish: PublishView,
    reply: Option<PacketView>,
)
    ensures
        client::message_step(broker, Some(PacketView::Publish(publish))) == (StepView {
            send: acknowledgement(publish.id),
            next: Next::Return(
                Some(ArrivedView { origin_uri: uri(broker, publish), bytes: publish.payload }),
            ),
        }),
        client::message_step(broker, None) == (StepView {
            send: None,
            next: Next::Return(None::<ArrivedView>),
        }),
        client::message_step(broker, Some(PacketView::Disconnect)) == (StepView {
            send: None,
            next: Next::Return(None::<ArrivedView>),
        }),
        client::message_step(broker, Some(PacketView::PingReq)) == (StepView {
            send: Some(seq![0xd0u8, 0]),
            next: Next::<Option<ArrivedView>>::Read,
        }),
        reply is Some && !(reply matches Some(PacketView::Publish(_))) && !(reply matches Some(
            PacketView::Disconnect,
        )) && !(reply matches Some(PacketView::PingReq)) ==> client::message_step(broker, reply)
            == (StepView { send: None, next: Next::<Option<ArrivedView>>::Read }),
{
    layout::law_small_packets_are_laid_out(
        false,
        0,
        match publish.id {
            Some(id) => id,
            None => 0,
        },
    );
}

/// A session opens with every CONNECT, whatever it presents, under the name that it
/// gives and with no filter known, and with nothing else; the acceptance is four bytes.
pub proof fn law_a_session_opens_with_any_connect(
    peer: Seq<char>,
    client_id: Seq<char>,
    username: Option<Seq<char>>,
    password: Option<Seq<u8>>,
    keep_alive: u16,
    packet: Option<PacketView>,
)
    ensures
        session::opened(
            peer,
            Some(PacketView::Connect { client_id, username, password, keep_alive }),
        ) matches Ok(opened) && {
            &&& opened.peer == peer
            &&& opened.client_id == client_id
            &&& opened.subscribed.len() == 0
        },
        !(packet matches Some(PacketView::Connect { .. })) ==> session::opened(peer, packet)
            == Err::<SessionView, ErrorView>(for_good("the client did not open with CONNECT"@)),
        packet::frame(session::acceptance()) == seq![0x20u8, 2, 0, 0],
{
    layout::law_small_packets_are_laid_out(false, 0, 0);
}

/// Every PUBLISH of the client is acknowledged where it has an identifier, and handed
/// up with its payload, its topic and its quality of service, whatever these are and
/// whether or not it is retained; the session knows no more for it.
pub proof fn law_a_session_hands_up_every_message(serving: SessionView, publish: PublishView)
    ensures
        ({
            let packet = Some(PacketView::Publish(publish));
            let arrived = ArrivedView {
                origin_uri: uri(serving.peer, publish),
                bytes: publish.payload,
            };
            &&& serving.event_step(packet) == Ok::<StepView<Option<EventView>>, ErrorView>(
                StepView {
                    send: acknowledgement(publish.id),
                    next: Next::Return(Some(EventView::Published(arrived))),
                },
            )
            &&& serving.publish_step(packet) == Ok::<StepView<Option<ArrivedView>>, ErrorView>(
                StepView {
                    send: acknowledgement(publish.id),
                    next: Next::Return(Some(arrived)),
                },
            )
            &&& serving.after(packet) == serving
        }),
{
    layout::law_small_packets_are_laid_out(
        false,
        0,
        match publish.id {
            Some(id) => id,
            None => 0,
        },
    );
}

/// Every filter of a SUBSCRIBE is granted in its place: at quality of service 0 where
/// that was asked for, and at 1 where more was. The SUBACK that says so has the
/// identifier of the SUBSCRIBE; the filters are reported and become known, all of them
/// and in their order. It fails just where the grants cannot be framed.
pub proof fn law_a_session_grants_every_filter(
    serving: SessionView,
    id: u16,
    filters: Seq<(Seq<char>, u8)>,
    codes: Seq<u8>,
    names: Seq<Seq<char>>,
)
    requires
        codes.len() == filters.len(),
        names.len() == filters.len(),
        forall|i: int|
            0 <= i < filters.len() ==> #[trigger] codes[i] == if filters[i].1 == 0 {
                0u8
            } else {
                1
            },
        forall|i: int| 0 <= i < filters.len() ==> #[trigger] names[i] == filters[i].0,
    ensures
        ({
            let packet = Some(PacketView::Subscribe { id, filters });
            let suback = layout::framed(0x90, layout::two_bytes(id as int) + codes);
            &&& codes.len() + 2 <= 268_435_455 ==> serving.event_step(packet) == Ok::<
                StepView<Option<EventView>>,
                ErrorView,
            >(
                StepView {
                    send: Some(suback),
                    next: Next::Return(Some(EventView::Subscribed(names))),
                },
            ) && serving.publish_step(packet) == Ok::<StepView<Option<ArrivedView>>, ErrorView>(
                StepView { send: Some(suback), next: Next::Read },
            )
            &&& codes.len() + 2 > 268_435_455 ==> serving.event_step(packet) == Err::<
                StepView<Option<EventView>>,
                ErrorView,
            >(layout::oversized()) && serving.publish_step(packet) == Err::<
                StepView<Option<ArrivedView>>,
                ErrorView,
            >(layout::oversized())
            &&& serving.after(packet).peer == serving.peer
            &&& serving.after(packet).client_id == serving.client_id
            &&& serving.after(packet).subscribed == serving.subscribed + names
        }),
{
    layout::law_suback_is_laid_out(id, codes);
    assert(session::grants(filters) =~= codes);
    assert(session::names(filters) =~= names);
}

/// A ping is answered and a PUBACK absorbed, a DISCONNECT and a close end the session,
/// and what only a broker sends, or a second CONNECT, is an error that shows it; the
/// session knows no more for any of these.
pub proof fn law_a_session_deals_with_the_rest(serving: SessionView, packet: Option<PacketView>)
    ensures
        serving.event_step(Some(PacketView::PingReq)) == Ok::<
            StepView<Option<EventView>>,
            ErrorView,
        >(StepView { send: Some(seq![0xd0u8, 0]), next: Next::Read }),
        serving.publish_step(Some(PacketView::PingReq)) == Ok::<
            StepView<Option<ArrivedView>>,
            ErrorView,
        >(StepView { send: Some(seq![0xd0u8, 0]), next: Next::Read }),
        packet matches Some(PacketView::PubAck(_)) ==> serving.event_step(packet) == Ok::<
            StepView<Option<EventView>>,
            ErrorView,
        >(StepView { send: None, next: Next::Read }) && serving.publish_step(packet) == Ok::<
            StepView<Option<ArrivedView>>,
            ErrorView,
        >(StepView { send: None, next: Next::Read }),
        packet is None || packet == Some(PacketView::Disconnect) ==> serving.event_step(packet)
            == Ok::<StepView<Option<EventView>>, ErrorView>(
            StepView { send: None, next: Next::Return(None) },
        ) && serving.publish_step(packet) == Ok::<StepView<Option<ArrivedView>>, ErrorView>(
            StepView { send: None, next: Next::Return(None) },
        ),
        packet matches Some(sent) && (sent is Connect || sent is ConnAck || sent is SubAck
            || sent is PingResp) ==> serving.event_step(packet) == Err::<
            StepView<Option<EventView>>,
            ErrorView,
        >(for_good(show::shown(packet->0) + " from a client"@)) && serving.publish_step(packet)
            == Err::<StepView<Option<ArrivedView>>, ErrorView>(
            for_good(show::shown(packet->0) + " from a client"@),
        ),
        !(packet matches Some(PacketView::Subscribe { .. })) ==> serving.after(packet) == serving,
{
    layout::law_small_packets_are_laid_out(false, 0, 0);
}

/// Listening keeps each message behind those before it and goes on, ends where the
/// broker disconnected, and ends where a failure may pass and there is something to
/// give; any other failure is what it gives.
pub proof fn law_listening_gathers(
    arrived: Seq<ArrivedView>,
    message: ArrivedView,
    failure: ErrorView,
)
    ensures
        transport::gathered(arrived, Ok(Some(message))) == (
            arrived + seq![message],
            Ok::<bool, ErrorView>(true),
        ),
        transport::gathered(arrived, Ok(None)) == (arrived, Ok::<bool, ErrorView>(false)),
        transport::gathered(arrived, Err(failure)) == (
            arrived,
            if failure.retryable && arrived.len() != 0 {
                Ok(false)
            } else {
                Err::<bool, ErrorView>(failure)
            },
        ),
{
    assert(arrived.push(message) =~= arrived + seq![message]);
}

/// The number that a row of decimal digits stands for.
pub open spec fn number(digits: Seq<char>) -> int
    decreases digits.len(),
{
    if digits.len() == 0 {
        0
    } else {
        10 * number(digits.drop_last()) + (digits.last() as int - '0' as int)
    }
}

/// A number is shown in decimal digits that stand for it, and with no 0 before it.
pub proof fn law_decimal_digits_stand_for_the_number(value: nat)
    ensures
        number(text::decimal(value)) == value,
        text::decimal(value).len() > 0,
        value > 0 ==> text::decimal(value)[0] != '0',
        value == 0 ==> text::decimal(value).len() == 1,
        forall|i: int|
            0 <= i < text::decimal(value).len() ==> '0' <= #[trigger] text::decimal(value)[i]
                <= '9',
    decreases value,
{
    let digits = text::decimal(value);
    if value < 10 {
        assert(digits.drop_last() =~= Seq::empty());
        assert(number(digits.drop_last()) == 0);
    } else {
        law_decimal_digits_stand_for_the_number(value / 10);
        assert(digits.drop_last() =~= text::decimal(value / 10));
        assert(digits[0] == text::decimal(value / 10)[0]);
    }
}

/// A packet is shown by its name and by each of its fields behind the field's name.
pub proof fn law_packets_are_shown_field_by_field(
    client_id: Seq<char>,
    username: Seq<char>,
    password: Seq<u8>,
    number: u16,
    code: u8,
    data: Seq<u8>,
)
    ensures
        show::shown(
            PacketView::Connect { client_id, username: None, password: None, keep_alive: number },
        ) == "Connect { client_id: "@ + show::quoted(client_id) + ", username: "@ + "None"@
            + ", password: "@ + "None"@ + ", keep_alive: "@ + text::decimal(number as nat) + " }"@,
        show::shown(
            PacketView::Connect {
                client_id,
                username: Some(username),
                password: Some(password),
                keep_alive: number,
            },
        ) == "Connect { client_id: "@ + show::quoted(client_id) + ", username: "@ + ("Some("@
            + show::quoted(username) + ")"@) + ", password: "@ + ("Some("@ + show::shown_bytes(
            password,
        ) + ")"@) + ", keep_alive: "@ + text::decimal(number as nat) + " }"@,
        show::shown(
            PacketView::Connect {
                client_id,
                username: Some(username),
                password: None,
                keep_alive: number,
            },
        ) == "Connect { client_id: "@ + show::quoted(client_id) + ", username: "@ + ("Some("@
            + show::quoted(username) + ")"@) + ", password: "@ + "None"@ + ", keep_alive: "@
            + text::decimal(number as nat) + " }"@,
        show::shown(
            PacketView::Connect {
                client_id,
                username: None,
                password: Some(password),
                keep_alive: number,
            },
        ) == "Connect { client_id: "@ + show::quoted(client_id) + ", username: "@ + "None"@
            + ", password: "@ + ("Some("@ + show::shown_bytes(password) + ")"@) + ", keep_alive: "@
            + text::decimal(number as nat) + " }"@,
        show::shown(PacketView::ConnAck { session_present: true, code })
            == "ConnAck { session_present: "@ + "true"@ + ", code: "@ + text::decimal(code as nat)
            + " }"@,
        show::shown(PacketView::ConnAck { session_present: false, code })
            == "ConnAck { session_present: "@ + "false"@ + ", code: "@ + text::decimal(code as nat)
            + " }"@,
        show::shown(PacketView::PubAck(number)) == "PubAck("@ + text::decimal(number as nat) + ")"@,
        show::shown(PacketView::SubAck { id: number, codes: data }) == "SubAck { id: "@
            + text::decimal(number as nat) + ", codes: "@ + show::shown_bytes(data) + " }"@,
        show::shown(PacketView::PingReq) == "PingReq"@,
        show::shown(PacketView::PingResp) == "PingResp"@,
        show::shown(PacketView::Disconnect) == "Disconnect"@,
{
}

/// A PUBLISH and a SUBSCRIBE are shown so too.
pub proof fn law_messages_and_filters_are_shown_field_by_field(
    publish: PublishView,
    id: u16,
    filters: Seq<(Seq<char>, u8)>,
    shown: Seq<Seq<char>>,
)
    requires
        shown.len() == filters.len(),
        forall|i: int|
            0 <= i < filters.len() ==> #[trigger] shown[i] == "("@ + show::quoted(filters[i].0)
                + ", "@ + text::decimal(filters[i].1 as nat) + ")"@,
    ensures
        show::shown(PacketView::Publish(publish)) == "Publish("@ + ("Publish { topic: "@
            + show::quoted(publish.topic) + ", qos: "@ + text::decimal(publish.qos as nat)
            + ", retain: "@ + (if publish.retain {
            "true"@
        } else {
            "false"@
        }) + ", id: "@ + (match publish.id {
            Some(id) => "Some("@ + text::decimal(id as nat) + ")"@,
            None => "None"@,
        }) + ", payload: "@ + show::shown_bytes(publish.payload) + " }"@) + ")"@,
        show::shown(PacketView::Subscribe { id, filters }) == "Subscribe { id: "@ + text::decimal(
            id as nat,
        ) + ", filters: "@ + show::listed(shown) + " }"@,
{
    assert(filters.map_values(|filter: (Seq<char>, u8)| show::shown_filter(filter)) =~= shown);
}

/// A list is shown in brackets, its items in their order with a comma and a space
/// between them; a list of bytes shows each as a number.
pub proof fn law_lists_are_shown_item_by_item(
    items: Seq<Seq<char>>,
    last: Seq<char>,
    data: Seq<u8>,
    numbers: Seq<Seq<char>>,
)
    requires
        numbers.len() == data.len(),
        forall|i: int|
            0 <= i < data.len() ==> #[trigger] numbers[i] == text::decimal(data[i] as nat),
    ensures
        show::listed(Seq::empty()) == seq!['[', ']'],
        show::listed(seq![last]) == seq!['['] + last + seq![']'],
        items.len() > 0 ==> show::listed(items.push(last)) == show::listed(items).drop_last()
            + seq![',', ' '] + last + seq![']'],
        show::shown_bytes(data) == show::listed(numbers),
{
    reveal_strlit("[");
    reveal_strlit("]");
    reveal_strlit(", ");
    assert(show::listed(Seq::empty()) =~= seq!['[', ']']);
    assert(show::listed(seq![last]) =~= seq!['['] + last + seq![']']);
    if items.len() > 0 {
        assert(items.push(last).drop_last() =~= items);
        assert(show::listed(items.push(last)) =~= show::listed(items).drop_last() + seq![',', ' ']
            + last + seq![']']);
    }
    assert(data.map_values(|byte: u8| text::decimal(byte as nat)) =~= numbers);
}

/// What a packet is said to hold is what its fields hold, every one of them.
pub proof fn law_a_packet_holds_its_fields(packet: Packet, publish: Publish)
    ensures
        publish@.topic == publish.topic@,
        publish@.qos == publish.qos,
        publish@.retain == publish.retain,
        publish@.id == publish.id,
        publish@.payload == publish.payload@,
        match packet {
            Packet::Connect { client_id, username, password, keep_alive } => packet@ matches
                PacketView::Connect {
                client_id: id,
                username: name,
                password: secret,
                keep_alive: seconds,
            } && {
                &&& id == client_id@
                &&& username matches Some(given) ==> name == Some(given@)
                &&& username is None ==> name is None
                &&& password matches Some(given) ==> secret == Some(given@)
                &&& password is None ==> secret is None
                &&& seconds == keep_alive
            },
            Packet::ConnAck { session_present, code } => packet@ == (PacketView::ConnAck {
                session_present,
                code,
            }),
            Packet::Publish(message) => packet@ == PacketView::Publish(message@),
            Packet::PubAck(id) => packet@ == PacketView::PubAck(id),
            Packet::Subscribe { id, filters } => packet@ matches PacketView::Subscribe {
                id: number,
                filters: asked,
            } && {
                &&& number == id
                &&& asked.len() == filters@.len()
                &&& forall|i: int|
                    0 <= i < filters@.len() ==> (#[trigger] asked[i]).0 == filters@[i].0@
                        && asked[i].1 == filters@[i].1
            },
            Packet::SubAck { id, codes } => packet@ == (PacketView::SubAck { id, codes: codes@ }),
            Packet::PingReq => packet@ == PacketView::PingReq,
            Packet::PingResp => packet@ == PacketView::PingResp,
            Packet::Disconnect => packet@ == PacketView::Disconnect,
        },
        packet.deep_view() == packet@,
{
}

/// What credentials, a message, a failure and an event are said to hold is what their
/// fields hold, every one of them.
pub proof fn law_values_hold_their_fields(
    credentials: Credentials,
    arrived: Arrived,
    failure: Error,
    event: Event,
)
    ensures
        credentials@.client_id == credentials.client_id@,
        credentials.username matches Some(name) ==> credentials@.username == Some(name@),
        credentials.username is None ==> credentials@.username is None,
        credentials.password matches Some(secret) ==> credentials@.password == Some(secret@),
        credentials.password is None ==> credentials@.password is None,
        arrived@.origin_uri == arrived.origin_uri@,
        arrived@.bytes == arrived.bytes@,
        arrived.deep_view() == arrived@,
        failure@.retryable == failure.retryable,
        failure@.message == failure.message@,
        event matches Event::Published(message) ==> event.deep_view() == EventView::Published(
            message@,
        ),
        event matches Event::Subscribed(filters) ==> (event.deep_view() matches
            EventView::Subscribed(names) && names.len() == filters@.len() && forall|i: int|
            0 <= i < names.len() ==> #[trigger] names[i] == filters@[i]@),
{
}

/// What a step, and what a client makes of a packet, is said to be is what it is: the
/// bytes to send, and what comes after.
pub proof fn law_steps_hold_their_fields<T: DeepView>(step: Step<T>, served: Served, fed: Fed)
    ensures
        step.send matches Some(bytes) ==> step.deep_view().send == Some(bytes@),
        step.send is None ==> step.deep_view().send is None,
        step.next is Read ==> step.deep_view().next is Read,
        step.next matches Next::Return(value) ==> step.deep_view().next == Next::Return(
            value.deep_view(),
        ),
        served matches Served::Again(Some(bytes)) ==> served@ == ServedView::Again(Some(bytes@)),
        served matches Served::Again(None) ==> served@ == ServedView::Again(None),
        served matches Served::Handed(Some(packet)) ==> served@ == ServedView::Handed(
            Some(packet@),
        ),
        served matches Served::Handed(None) ==> served@ == ServedView::Handed(None),
        fed matches Fed::More(reader) ==> fed.deep_view() == FedView::More(reader@),
        fed matches Fed::Whole(packet) ==> fed.deep_view() == FedView::Whole(packet@),
{
}

/// The model of a result tells a success from a failure, and holds what either holds;
/// and bytes are those of a packet just where encoding it gives them.
pub proof fn law_results_hold_what_they_say<T: DeepView>(
    value: T,
    failure: Error,
    bytes: Vec<u8>,
    packet: PacketView,
)
    ensures
        error::outcome(Ok::<T, Error>(value)) == Ok::<T::V, ErrorView>(value.deep_view()),
        error::outcome(Err::<T, Error>(failure)) == Err::<T::V, ErrorView>(failure@),
        packet::is_encoded(Ok(bytes), packet) <==> packet::encoded(packet) == Ok::<
            Seq<u8>,
            ErrorView,
        >(bytes@),
        packet::is_encoded(Err(failure), packet) <==> packet::encoded(packet) == Err::<
            Seq<u8>,
            ErrorView,
        >(failure@),
{
}

/// A reader wants one byte for the head and for each byte of the length, and then the
/// whole body at once; it says in these words what it does.
pub proof fn law_a_reader_wants_what_is_next(head: u8, value: nat, width: nat, length: nat)
    ensures
        ReaderView::Head.wanted() == 1,
        (ReaderView::Length { head, value, width }).wanted() == 1,
        (ReaderView::Body { head, length }).wanted() == length,
        ReaderView::Head.purpose() == "reading the fixed header"@,
        (ReaderView::Length { head, value, width }).purpose() == "reading the remaining length"@,
        (ReaderView::Body { head, length }).purpose() == "reading the packet body"@,
{
}

} // verus!
