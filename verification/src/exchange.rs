//! What holds of the two ends of a connection taken together, and of one end
//! over a run of packets.
use crate::client::{ClientView, CredentialsView, ServedView};
use crate::error::ErrorView;
use crate::packet::{PacketView, PublishView};
use crate::session::{EventView, SessionView};
use crate::step::{ArrivedView, Next, StepView};
use crate::{client, laws, packet, session, step, transport};
use vstd::prelude::*;

verus! {

/// What the far end takes in of a packet that is sent alone.
proof fn lemma_taken_in(packet: PacketView)
    requires
        packet::encoded(packet) is Ok,
    ensures
        packet::encoded(packet) == Ok::<Seq<u8>, ErrorView>(packet::frame(packet)),
        packet::reading(packet::frame(packet)).0 == Ok::<Option<PacketView>, ErrorView>(
            Some(laws::as_read(packet)),
        ),
{
    laws::law_packet_reads_back(packet, packet::frame(packet), Seq::empty());
    assert(packet::frame(packet) + Seq::empty() =~= packet::frame(packet));
}

/// A client that presents credentials is accepted under the name that they give,
/// and takes the acceptance for one.
pub proof fn law_a_client_is_accepted(
    credentials: CredentialsView,
    connect: Seq<u8>,
    peer: Seq<char>,
)
    requires
        packet::encoded(client::connect_packet(credentials)) == Ok::<Seq<u8>, ErrorView>(connect),
    ensures
        packet::reading(connect).0 == Ok::<Option<PacketView>, ErrorView>(
            Some(client::connect_packet(credentials)),
        ),
        session::opened(peer, Some(client::connect_packet(credentials))) == Ok::<
            SessionView,
            ErrorView,
        >(SessionView { peer, client_id: credentials.client_id, subscribed: Seq::empty() }),
        packet::reading(packet::frame(session::acceptance())).0 == Ok::<
            Option<PacketView>,
            ErrorView,
        >(Some(session::acceptance())),
        client::connect_verdict(Some(session::acceptance())) is Ok,
{
    lemma_taken_in(client::connect_packet(credentials));
    lemma_taken_in(session::acceptance());
}

/// What a client publishes reaches the session whole, under a URI that names the
/// peer, the topic and the quality of service; at quality of service 0 nothing
/// is sent back, and above 0 what is sent back is the acknowledgement that the
/// client waits for.
pub proof fn law_a_message_is_delivered_and_acknowledged(
    sender: ClientView,
    receiver: SessionView,
    topic: Seq<char>,
    payload: Seq<u8>,
    qos: u8,
    publish: Seq<u8>,
)
    requires
        ({
            let id = if qos > 0 {
                Some(sender.next_id())
            } else {
                None
            };
            packet::encoded(client::publish_packet(topic, payload, qos, id)) == Ok::<
                Seq<u8>,
                ErrorView,
            >(publish)
        }),
    ensures
        packet::reading(publish).0 matches Ok(taken) && {
            let arrived = ArrivedView {
                origin_uri: step::origin(receiver.peer, topic, packet::capped(qos)),
                bytes: payload,
            };
            &&& receiver.after(taken) == receiver
            &&& receiver.event_step(taken) matches Ok(took) && {
                &&& took.next == Next::Return(Some(EventView::Published(arrived)))
                &&& qos == 0 ==> took.send is None
                &&& qos > 0 ==> (took.send matches Some(puback) && packet::reading(
                    puback,
                ).0 matches Ok(reply) && client::publish_step(sender.next_id(), reply) == Ok::<
                    StepView<()>,
                    ErrorView,
                >(StepView { send: None, next: Next::Return(()) }))
            }
        },
{
    let id = if qos > 0 {
        Some(sender.next_id())
    } else {
        None
    };
    lemma_taken_in(client::publish_packet(topic, payload, qos, id));
    lemma_taken_in(PacketView::PubAck(sender.next_id()));
}

/// What a client subscribes to is added to what the session knows, and granted,
/// and the client takes the grant for one.
pub proof fn law_a_subscription_is_granted(
    asking: ClientView,
    granting: SessionView,
    filter: Seq<char>,
    qos: u8,
    subscribe: Seq<u8>,
)
    requires
        packet::encoded(client::subscribe_packet(asking.next_id(), filter, qos)) == Ok::<
            Seq<u8>,
            ErrorView,
        >(subscribe),
    ensures
        packet::reading(subscribe).0 matches Ok(taken) && {
            &&& granting.after(taken) == (SessionView {
                subscribed: granting.subscribed.push(filter),
                ..granting
            })
            &&& granting.event_step(taken) matches Ok(took) && {
                &&& took.next == Next::Return(Some(EventView::Subscribed(seq![filter])))
                &&& took.send matches Some(suback) && packet::reading(suback).0 matches Ok(reply)
                    && client::subscribe_step(asking.next_id(), filter, reply) == Ok::<
                    StepView<()>,
                    ErrorView,
                >(StepView { send: None, next: Next::Return(()) })
            }
        },
{
    let id = asking.next_id();
    let filters = seq![(filter, qos)];
    let granted = PacketView::SubAck { id, codes: session::grants(filters) };
    lemma_taken_in(client::subscribe_packet(id, filter, qos));
    assert(packet::body(granted).len() == 3);
    lemma_taken_in(granted);
    assert(session::names(filters) =~= seq![filter]);
    assert(granting.subscribed + session::names(filters) =~= granting.subscribed.push(filter));
}

/// What a session delivers reaches the client whole, under a URI that names the
/// broker and the topic, and the client sends nothing back.
pub proof fn law_a_delivery_arrives(
    broker: Seq<char>,
    topic: Seq<char>,
    payload: Seq<u8>,
    publish: Seq<u8>,
)
    requires
        packet::encoded(client::publish_packet(topic, payload, 0, None)) == Ok::<
            Seq<u8>,
            ErrorView,
        >(publish),
    ensures
        packet::reading(publish).0 matches Ok(taken) && client::message_step(broker, taken) == (
        StepView {
            send: None,
            next: Next::Return(
                Some(ArrivedView { origin_uri: step::origin(broker, topic, 0), bytes: payload }),
            ),
        }),
{
    lemma_taken_in(client::publish_packet(topic, payload, 0, None));
}

/// A client that a broker refuses, or that hears anything but what it asked for,
/// fails for good, and so does a session whose client sends what it may not.
pub proof fn law_refusals_are_permanent(
    id: u16,
    filter: Seq<char>,
    peer: Seq<char>,
    serving: SessionView,
    packet: Option<PacketView>,
)
    ensures
        client::connect_verdict(packet) matches Err(error) ==> !error.retryable,
        client::publish_step(id, packet) matches Err(error) ==> !error.retryable,
        client::subscribe_step(id, filter, packet) matches Err(error) ==> !error.retryable,
        session::opened(peer, packet) matches Err(error) ==> !error.retryable,
        serving.event_step(packet) matches Err(error) ==> !error.retryable,
        serving.publish_step(packet) matches Err(error) ==> !error.retryable,
{
}

/// A ping that a client sends is answered by the session, which knows no more for
/// it, and the client absorbs the answer.
pub proof fn law_a_ping_is_answered(serving: SessionView)
    ensures
        serving.after(Some(PacketView::PingReq)) == serving,
        serving.event_step(Some(PacketView::PingReq)) matches Ok(took) && {
            &&& took.next == Next::<Option<EventView>>::Read
            &&& took.send matches Some(answer) && packet::reading(answer).0 matches Ok(reply)
                && client::served(reply) == ServedView::Again(None)
        },
{
    lemma_taken_in(PacketView::PingResp);
}

/// What an operation comes to on `replies`, of which it takes in as many as it
/// needs, or `None` where it still waits after them all.
pub open spec fn concluded<V>(
    step: spec_fn(Option<PacketView>) -> Result<StepView<V>, ErrorView>,
    replies: Seq<Option<PacketView>>,
) -> Option<Result<V, ErrorView>>
    decreases replies.len(),
{
    if replies.len() == 0 {
        None
    } else {
        match step(replies[0]) {
            Err(error) => Some(Err(error)),
            Ok(took) => match took.next {
                Next::Return(value) => Some(Ok(value)),
                Next::Read => concluded(step, replies.skip(1)),
            },
        }
    }
}

/// A ping, or the answer to one.
pub open spec fn is_ping(reply: Option<PacketView>) -> bool {
    reply == Some(PacketView::PingReq) || reply == Some(PacketView::PingResp)
}

/// Packets on which an operation goes on reading change nothing of what it comes
/// to on those that follow.
proof fn lemma_passed_over<V>(
    step: spec_fn(Option<PacketView>) -> Result<StepView<V>, ErrorView>,
    passed: Seq<Option<PacketView>>,
    replies: Seq<Option<PacketView>>,
)
    requires
        forall|i: int|
            0 <= i < passed.len() ==> (step(#[trigger] passed[i]) matches Ok(took) && took.next
                == Next::<V>::Read),
    ensures
        concluded(step, passed + replies) == concluded(step, replies),
    decreases passed.len(),
{
    if passed.len() == 0 {
        assert(passed + replies =~= replies);
    } else {
        let others = passed.skip(1);
        assert forall|i: int| 0 <= i < others.len() implies (step(
            #[trigger] others[i],
        ) matches Ok(took) && took.next == Next::<V>::Read) by {
            assert(others[i] == passed[i + 1]);
        }
        lemma_passed_over(step, others, replies);
        assert((passed + replies).skip(1) =~= others + replies);
        assert((passed + replies)[0] == passed[0]);
    }
}

/// What a client sends on a ping, and nothing on any other packet.
pub open spec fn ping_answer(reply: Option<PacketView>) -> Option<Seq<u8>> {
    if reply == Some(PacketView::PingReq) {
        Some(packet::frame(PacketView::PingResp))
    } else {
        None
    }
}

/// However many pings and answers to pings come before the reply, a client's
/// operation comes to the same, and each ping is answered.
pub proof fn law_pings_change_nothing(
    id: u16,
    filter: Seq<char>,
    broker: Seq<char>,
    pings: Seq<Option<PacketView>>,
    replies: Seq<Option<PacketView>>,
)
    requires
        forall|i: int| 0 <= i < pings.len() ==> is_ping(#[trigger] pings[i]),
    ensures
        ({
            let step = |reply: Option<PacketView>| client::publish_step(id, reply);
            concluded(step, pings + replies) == concluded(step, replies)
        }),
        ({
            let step = |reply: Option<PacketView>| client::subscribe_step(id, filter, reply);
            concluded(step, pings + replies) == concluded(step, replies)
        }),
        awaited(broker, pings + replies) == awaited(broker, replies),
        forall|i: int|
            0 <= i < pings.len() ==> {
                let send = ping_answer(#[trigger] pings[i]);
                &&& client::publish_step(id, pings[i]) == Ok::<StepView<()>, ErrorView>(
                    StepView { send, next: Next::Read },
                )
                &&& client::subscribe_step(id, filter, pings[i]) == Ok::<StepView<()>, ErrorView>(
                    StepView { send, next: Next::Read },
                )
                &&& client::message_step(broker, pings[i]) == (StepView {
                    send,
                    next: Next::<Option<ArrivedView>>::Read,
                })
            },
{
    lemma_passed_over(
        |reply: Option<PacketView>| client::publish_step(id, reply),
        pings,
        replies,
    );
    lemma_passed_over(
        |reply: Option<PacketView>| client::subscribe_step(id, filter, reply),
        pings,
        replies,
    );
    lemma_passed_over(
        |reply: Option<PacketView>|
            Ok::<StepView<Option<ArrivedView>>, ErrorView>(client::message_step(broker, reply)),
        pings,
        replies,
    );
}

/// What waiting for a message from `broker` comes to on `replies`, of which it
/// takes in as many as it needs, or `None` where it still waits after them all.
pub open spec fn awaited(broker: Seq<char>, replies: Seq<Option<PacketView>>) -> Option<
    Result<Option<ArrivedView>, ErrorView>,
> {
    concluded(
        |reply: Option<PacketView>|
            Ok::<StepView<Option<ArrivedView>>, ErrorView>(client::message_step(broker, reply)),
        replies,
    )
}

/// A message of `broker` as it arrives.
pub open spec fn arrival(broker: Seq<char>, publish: PublishView) -> ArrivedView {
    ArrivedView {
        origin_uri: step::origin(broker, publish.topic, publish.qos),
        bytes: publish.payload,
    }
}

/// The broker disconnected: it said so, or it closed the connection.
pub open spec fn is_disconnection(reply: Option<PacketView>) -> bool {
    reply is None || reply == Some(PacketView::Disconnect)
}

/// A packet of a broker that is still connected, and no message.
pub open spec fn is_no_message(reply: Option<PacketView>) -> bool {
    !is_disconnection(reply) && !(reply matches Some(PacketView::Publish(_)))
}

/// However many packets that are no message come before it, the next message of a
/// broker is the same, and of those packets the pings are answered.
pub proof fn law_what_is_no_message_is_passed_over(
    broker: Seq<char>,
    passed: Seq<Option<PacketView>>,
    replies: Seq<Option<PacketView>>,
)
    requires
        forall|i: int| 0 <= i < passed.len() ==> is_no_message(#[trigger] passed[i]),
    ensures
        awaited(broker, passed + replies) == awaited(broker, replies),
        forall|i: int|
            0 <= i < passed.len() ==> client::message_step(broker, #[trigger] passed[i]) == (
            StepView { send: ping_answer(passed[i]), next: Next::<Option<ArrivedView>>::Read }),
{
    lemma_passed_over(
        |reply: Option<PacketView>|
            Ok::<StepView<Option<ArrivedView>>, ErrorView>(client::message_step(broker, reply)),
        passed,
        replies,
    );
}

/// The wait for a message goes on as long as there is none and the broker stays
/// connected.
proof fn lemma_waits(broker: Seq<char>, replies: Seq<Option<PacketView>>)
    requires
        forall|i: int| 0 <= i < replies.len() ==> is_no_message(#[trigger] replies[i]),
    ensures
        awaited(broker, replies) is None,
{
    law_what_is_no_message_is_passed_over(broker, replies, Seq::empty());
    assert(replies + Seq::empty() =~= replies);
}

/// `count` packets that are no message come first of `replies`, and then one that
/// is, or the broker disconnected.
pub open spec fn ends_after(replies: Seq<Option<PacketView>>, count: int) -> bool {
    &&& 0 <= count < replies.len()
    &&& !is_no_message(replies[count])
    &&& forall|i: int| 0 <= i < count ==> is_no_message(#[trigger] replies[i])
}

/// The first reply that is a message is what the wait for one gives, and the wait
/// gives none just where the broker disconnected before it. It never fails, and it
/// goes on just as long as there is no message and the broker stays connected.
pub proof fn law_no_message_means_disconnected(
    broker: Seq<char>,
    replies: Seq<Option<PacketView>>,
)
    ensures
        forall|count: int| #[trigger]
            ends_after(replies, count) ==> awaited(broker, replies) == Some(
                Ok::<Option<ArrivedView>, ErrorView>(
                    match replies[count] {
                        Some(PacketView::Publish(publish)) => Some(arrival(broker, publish)),
                        _ => None,
                    },
                ),
            ),
        awaited(broker, replies) is Some <==> exists|count: int| ends_after(replies, count),
        awaited(broker, replies) == Some(Ok::<Option<ArrivedView>, ErrorView>(None)) <==> (exists|
            count: int,
        |
            #[trigger] ends_after(replies, count) && is_disconnection(replies[count])),
{
    assert forall|count: int| #[trigger] ends_after(replies, count) implies awaited(broker, replies)
        == Some(
        Ok::<Option<ArrivedView>, ErrorView>(
            match replies[count] {
                Some(PacketView::Publish(publish)) => Some(arrival(broker, publish)),
                _ => None,
            },
        ),
    ) by {
        law_what_is_no_message_is_passed_over(broker, replies.take(count), replies.skip(count));
        assert(replies.take(count) + replies.skip(count) =~= replies);
        assert(replies.skip(count)[0] == replies[count]);
    }
    if forall|i: int| 0 <= i < replies.len() ==> is_no_message(#[trigger] replies[i]) {
        lemma_waits(broker, replies);
    } else {
        let count = lemma_first_end(replies, 0);
        assert(ends_after(replies, count));
    }
}

/// Where the first `start` replies are no message but not all are, the wait ends
/// after so many.
proof fn lemma_first_end(replies: Seq<Option<PacketView>>, start: int) -> (count: int)
    requires
        0 <= start <= replies.len(),
        forall|i: int| 0 <= i < start ==> is_no_message(#[trigger] replies[i]),
        exists|i: int| 0 <= i < replies.len() && !is_no_message(#[trigger] replies[i]),
    ensures
        ends_after(replies, count),
    decreases replies.len() - start,
{
    if is_no_message(replies[start]) {
        lemma_first_end(replies, start + 1)
    } else {
        start
    }
}

/// What waiting for a message of the client comes to on `packets`, of which it
/// takes in as many as it needs, or `None` where it still waits after them all.
pub open spec fn published(serving: SessionView, packets: Seq<Option<PacketView>>) -> Option<
    Result<Option<ArrivedView>, ErrorView>,
>
    decreases packets.len(),
{
    if packets.len() == 0 {
        None
    } else {
        match serving.publish_step(packets[0]) {
            Err(error) => Some(Err(error)),
            Ok(took) => match took.next {
                Next::Return(value) => Some(Ok(value)),
                Next::Read => published(serving.after(packets[0]), packets.skip(1)),
            },
        }
    }
}

/// The session once all of `packets` have been taken in.
pub open spec fn after_all(serving: SessionView, packets: Seq<Option<PacketView>>) -> SessionView
    decreases packets.len(),
{
    if packets.len() == 0 {
        serving
    } else {
        after_all(serving.after(packets[0]), packets.skip(1))
    }
}

/// A packet of the client on which its session goes on waiting for a message: a
/// ping, an acknowledgement, or a subscription whose grants can be encoded.
pub open spec fn is_dealt_with(packet: Option<PacketView>) -> bool {
    match packet {
        Some(PacketView::PingReq) => true,
        Some(PacketView::PubAck(_)) => true,
        Some(PacketView::Subscribe { id, filters }) => packet::encoded(
            PacketView::SubAck { id, codes: session::grants(filters) },
        ) is Ok,
        _ => false,
    }
}

/// What a session sends to its client on a packet that it deals with: the answer
/// to a ping, the grants of a subscription, and nothing on an acknowledgement.
pub open spec fn answer(packet: Option<PacketView>) -> Option<Seq<u8>> {
    match packet {
        Some(PacketView::PingReq) => Some(packet::frame(PacketView::PingResp)),
        Some(PacketView::Subscribe { id, filters }) => Some(
            packet::frame(PacketView::SubAck { id, codes: session::grants(filters) }),
        ),
        _ => None,
    }
}

/// However many pings, acknowledgements and subscriptions come before it, the
/// message that a session waits for is the same, and only what the client
/// subscribed to is known besides. On the way each ping is answered and each
/// subscription is granted.
pub proof fn law_subscriptions_are_granted_on_the_way(
    serving: SessionView,
    passed: Seq<Option<PacketView>>,
    packets: Seq<Option<PacketView>>,
)
    requires
        forall|i: int| 0 <= i < passed.len() ==> is_dealt_with(#[trigger] passed[i]),
    ensures
        published(serving, passed + packets) == published(after_all(serving, passed), packets),
        after_all(serving, passed).peer == serving.peer,
        after_all(serving, passed).client_id == serving.client_id,
        forall|i: int|
            0 <= i < passed.len() ==> after_all(serving, passed.take(i)).publish_step(
                #[trigger] passed[i],
            ) == Ok::<StepView<Option<ArrivedView>>, ErrorView>(
                StepView { send: answer(passed[i]), next: Next::Read },
            ),
    decreases passed.len(),
{
    if passed.len() == 0 {
        assert(passed + packets =~= packets);
    } else {
        let others = passed.skip(1);
        assert forall|i: int| 0 <= i < others.len() implies is_dealt_with(#[trigger] others[i]) by {
            assert(others[i] == passed[i + 1]);
        }
        assert(is_dealt_with(passed[0]));
        law_subscriptions_are_granted_on_the_way(serving.after(passed[0]), others, packets);
        assert((passed + packets).skip(1) =~= others + packets);
        assert((passed + packets)[0] == passed[0]);
    }
}

/// However many pings and acknowledgements come before it, the next thing that the
/// client does is the same to its session. On the way each ping is answered, and
/// nothing is sent on an acknowledgement.
pub proof fn law_acknowledgements_are_absorbed(
    serving: SessionView,
    passed: Seq<Option<PacketView>>,
    packets: Seq<Option<PacketView>>,
)
    requires
        forall|i: int|
            0 <= i < passed.len() ==> (#[trigger] passed[i] == Some(PacketView::PingReq) || (
            passed[i] matches Some(PacketView::PubAck(_)))),
    ensures
        ({
            let step = |packet: Option<PacketView>| serving.event_step(packet);
            concluded(step, passed + packets) == concluded(step, packets)
        }),
        forall|i: int| 0 <= i < passed.len() ==> serving.after(#[trigger] passed[i]) == serving,
        forall|i: int|
            0 <= i < passed.len() ==> serving.event_step(#[trigger] passed[i]) == Ok::<
                StepView<Option<EventView>>,
                ErrorView,
            >(StepView { send: answer(passed[i]), next: Next::Read }),
{
    lemma_passed_over(
        |packet: Option<PacketView>| serving.event_step(packet),
        passed,
        packets,
    );
}

/// `asking` once it has used `count` packet identifiers.
pub open spec fn used(asking: ClientView, count: nat) -> ClientView
    decreases count,
{
    if count == 0 {
        asking
    } else {
        used(asking, (count - 1) as nat).advanced()
    }
}

/// Each packet identifier is one more than the one before it, with 1 behind 65535,
/// and the first of a new client is 1.
pub proof fn law_identifiers_follow(asking: ClientView, count: nat)
    ensures
        asking.next_id() == if asking.last_id == 65_535 {
            1int
        } else {
            asking.last_id + 1
        },
        asking.advanced().last_id == asking.next_id(),
        asking.advanced().broker == asking.broker,
        asking.last_id == 0 ==> asking.next_id() == 1,
        count > 0 ==> used(asking, count).last_id == (asking.last_id + count - 1) % 65_535 + 1,
    decreases count,
{
    if count > 1 {
        law_identifiers_follow(asking, (count - 1) as nat);
    } else if count == 1 {
        assert(used(asking, 0) == asking);
    }
}

/// No packet identifier is 0, and no two of 65535 that follow one another are the
/// same.
pub proof fn law_identifiers_differ(asking: ClientView, earlier: nat, later: nat)
    requires
        0 < earlier < later < earlier + 65_535,
    ensures
        used(asking, earlier).last_id != 0,
        used(asking, earlier).last_id != used(asking, later).last_id,
{
    law_identifiers_follow(asking, earlier);
    law_identifiers_follow(asking, later);
}

/// Each filter of a subscription is granted, in its place, at no more than what
/// was asked for and no more than 1; what the client subscribed to before stays,
/// and so does who the client is and where from.
pub proof fn law_subscriptions_add_up(
    serving: SessionView,
    id: u16,
    filters: Seq<(Seq<char>, u8)>,
)
    ensures
        session::grants(filters).len() == filters.len(),
        forall|i: int|
            0 <= i < filters.len() ==> (#[trigger] session::grants(filters)[i] <= 1
                && session::grants(filters)[i] <= filters[i].1),
        ({
            let after = serving.after(Some(PacketView::Subscribe { id, filters }));
            &&& after.peer == serving.peer
            &&& after.client_id == serving.client_id
            &&& after.subscribed.take(serving.subscribed.len() as int) == serving.subscribed
            &&& after.subscribed.skip(serving.subscribed.len() as int) == session::names(filters)
        }),
{
    let after = serving.after(Some(PacketView::Subscribe { id, filters }));
    assert(after.subscribed.take(serving.subscribed.len() as int) =~= serving.subscribed);
    assert(after.subscribed.skip(serving.subscribed.len() as int) =~= session::names(filters));
}

/// What listening comes to on what is `heard`, after `arrived` was gathered: all
/// that was gathered or the failure, or `None` where the listening goes on after
/// it all.
pub open spec fn listened(
    arrived: Seq<ArrivedView>,
    heard: Seq<Result<Option<ArrivedView>, ErrorView>>,
) -> Option<Result<Seq<ArrivedView>, ErrorView>>
    decreases heard.len(),
{
    if heard.len() == 0 {
        None
    } else {
        let (now, goes_on) = transport::gathered(arrived, heard[0]);
        match goes_on {
            Ok(true) => listened(now, heard.skip(1)),
            Ok(false) => Some(Ok(now)),
            Err(error) => Some(Err(error)),
        }
    }
}

/// Listening gives every message in the order of its arrival, where the broker
/// disconnects after them, and also where a failure that may pass follows at
/// least one; where any other failure comes, it gives that failure.
pub proof fn law_every_message_is_received(
    arrived: Seq<ArrivedView>,
    messages: Seq<ArrivedView>,
    end: Result<Option<ArrivedView>, ErrorView>,
)
    requires
        end matches Ok(last) ==> last is None,
    ensures
        listened(
            arrived,
            Seq::new(
                messages.len(),
                |i: int| Ok::<Option<ArrivedView>, ErrorView>(Some(messages[i])),
            ).push(end),
        ) == Some(
            match end {
                Ok(_) => Ok::<Seq<ArrivedView>, ErrorView>(arrived + messages),
                Err(error) => if error.retryable && (arrived + messages).len() > 0 {
                    Ok(arrived + messages)
                } else {
                    Err(error)
                },
            },
        ),
    decreases messages.len(),
{
    let heard = Seq::new(
        messages.len(),
        |i: int| Ok::<Option<ArrivedView>, ErrorView>(Some(messages[i])),
    ).push(end);
    if messages.len() == 0 {
        assert(arrived + messages =~= arrived);
        assert(heard[0] == end);
    } else {
        let others = messages.skip(1);
        law_every_message_is_received(arrived.push(messages[0]), others, end);
        assert(heard.skip(1) =~= Seq::new(
            others.len(),
            |i: int| Ok::<Option<ArrivedView>, ErrorView>(Some(others[i])),
        ).push(end));
        assert(arrived.push(messages[0]) + others =~= arrived + messages);
        assert(heard[0] == Ok::<Option<ArrivedView>, ErrorView>(Some(messages[0])));
    }
}

/// What the wait for a message from `broker` leaves of `replies`.
pub open spec fn unread(broker: Seq<char>, replies: Seq<Option<PacketView>>) -> Seq<
    Option<PacketView>,
>
    decreases replies.len(),
{
    if replies.len() == 0 {
        replies
    } else {
        match client::message_step(broker, replies[0]).next {
            Next::Return(_) => replies.skip(1),
            Next::Read => unread(broker, replies.skip(1)),
        }
    }
}

/// A wait takes a reply, where there is one.
pub proof fn lemma_a_wait_takes(broker: Seq<char>, replies: Seq<Option<PacketView>>)
    ensures
        unread(broker, replies).len() <= replies.len(),
        replies.len() > 0 ==> unread(broker, replies).len() < replies.len(),
    decreases replies.len(),
{
    if replies.len() > 0 {
        lemma_a_wait_takes(broker, replies.skip(1));
    }
}

/// What is heard on `replies`: what each wait for a message from `broker` comes to,
/// one wait behind another, as long as they come to an end.
pub open spec fn hearing(broker: Seq<char>, replies: Seq<Option<PacketView>>) -> Seq<
    Result<Option<ArrivedView>, ErrorView>,
>
    decreases replies.len(),
{
    match awaited(broker, replies) {
        None => Seq::empty(),
        Some(heard) => {
            proof {
                lemma_a_wait_takes(broker, replies);
            }
            seq![heard] + hearing(broker, unread(broker, replies))
        },
    }
}

/// The messages of `broker` among `replies`, in their order.
pub open spec fn messages(broker: Seq<char>, replies: Seq<Option<PacketView>>) -> Seq<ArrivedView>
    decreases replies.len(),
{
    if replies.len() == 0 {
        Seq::empty()
    } else {
        let first = match replies[0] {
            Some(PacketView::Publish(publish)) => seq![arrival(broker, publish)],
            _ => Seq::empty(),
        };
        first + messages(broker, replies.skip(1))
    }
}

/// What the first of `replies` makes of what is heard: a message is heard before
/// the rest, and what is no message is not heard.
proof fn lemma_hearing_first(broker: Seq<char>, replies: Seq<Option<PacketView>>)
    requires
        replies.len() > 0,
        !is_disconnection(replies[0]),
    ensures
        hearing(broker, replies) == match replies[0] {
            Some(PacketView::Publish(publish)) => seq![
                Ok::<Option<ArrivedView>, ErrorView>(Some(arrival(broker, publish))),
            ],
            _ => Seq::empty(),
        } + hearing(broker, replies.skip(1)),
{
    if is_no_message(replies[0]) {
        assert(seq![replies[0]] + replies.skip(1) =~= replies);
        law_what_is_no_message_is_passed_over(broker, seq![replies[0]], replies.skip(1));
        assert(unread(broker, replies) == unread(broker, replies.skip(1)));
        assert(hearing(broker, replies) =~= Seq::empty() + hearing(broker, replies.skip(1)));
    } else {
        law_no_message_means_disconnected(broker, replies);
        assert(ends_after(replies, 0));
    }
}

/// Where the broker disconnects, listening gives one arrival for each message that
/// it sent before, in order, and nothing else, whatever came between them.
pub proof fn law_all_is_received_until_the_broker_disconnects(
    broker: Seq<char>,
    arrived: Seq<ArrivedView>,
    replies: Seq<Option<PacketView>>,
    end: int,
)
    requires
        0 <= end < replies.len(),
        is_disconnection(replies[end]),
        forall|i: int| 0 <= i < end ==> !is_disconnection(#[trigger] replies[i]),
    ensures
        listened(arrived, hearing(broker, replies)) == Some(
            Ok::<Seq<ArrivedView>, ErrorView>(arrived + messages(broker, replies.take(end))),
        ),
    decreases end,
{
    let heard = hearing(broker, replies);
    if end == 0 {
        law_no_message_means_disconnected(broker, replies);
        assert(ends_after(replies, 0));
        assert(heard[0] == Ok::<Option<ArrivedView>, ErrorView>(None));
        assert(arrived + messages(broker, replies.take(0)) =~= arrived);
    } else {
        let others = replies.skip(1);
        let later = messages(broker, others.take(end - 1));
        assert(replies.take(end).skip(1) =~= others.take(end - 1));
        assert forall|i: int| 0 <= i < end - 1 implies !is_disconnection(#[trigger] others[i]) by {
            assert(others[i] == replies[i + 1]);
        }
        lemma_hearing_first(broker, replies);
        if let Some(PacketView::Publish(publish)) = replies[0] {
            let first = arrival(broker, publish);
            law_all_is_received_until_the_broker_disconnects(
                broker,
                arrived.push(first),
                others,
                end - 1,
            );
            assert(heard.skip(1) =~= hearing(broker, others));
            assert(heard[0] == Ok::<Option<ArrivedView>, ErrorView>(Some(first)));
            assert(arrived.push(first) + later =~= arrived + (seq![first] + later));
        } else {
            law_all_is_received_until_the_broker_disconnects(broker, arrived, others, end - 1);
            assert(heard =~= hearing(broker, others));
            assert(Seq::empty() + later =~= later);
        }
    }
}

/// Where a failure ends the listening, one that may pass loses none of the messages
/// that the broker sent before it, in order, where there is at least one; any other
/// is what listening gives.
pub proof fn law_all_is_received_until_a_failure(
    broker: Seq<char>,
    arrived: Seq<ArrivedView>,
    replies: Seq<Option<PacketView>>,
    failure: ErrorView,
)
    requires
        forall|i: int| 0 <= i < replies.len() ==> !is_disconnection(#[trigger] replies[i]),
    ensures
        listened(arrived, hearing(broker, replies).push(Err(failure))) == Some(
            if failure.retryable && (arrived + messages(broker, replies)).len() > 0 {
                Ok::<Seq<ArrivedView>, ErrorView>(arrived + messages(broker, replies))
            } else {
                Err(failure)
            },
        ),
    decreases replies.len(),
{
    let heard = hearing(broker, replies).push(Err(failure));
    if replies.len() == 0 {
        assert(arrived + messages(broker, replies) =~= arrived);
        assert(heard[0] == Err::<Option<ArrivedView>, ErrorView>(failure));
    } else {
        let others = replies.skip(1);
        let later = messages(broker, others);
        assert forall|i: int| 0 <= i < others.len() implies !is_disconnection(
            #[trigger] others[i],
        ) by {
            assert(others[i] == replies[i + 1]);
        }
        lemma_hearing_first(broker, replies);
        if let Some(PacketView::Publish(publish)) = replies[0] {
            let first = arrival(broker, publish);
            law_all_is_received_until_a_failure(broker, arrived.push(first), others, failure);
            assert(heard.skip(1) =~= hearing(broker, others).push(Err(failure)));
            assert(heard[0] == Ok::<Option<ArrivedView>, ErrorView>(Some(first)));
            assert(arrived.push(first) + later =~= arrived + (seq![first] + later));
        } else {
            law_all_is_received_until_a_failure(broker, arrived, others, failure);
            assert(heard =~= hearing(broker, others).push(Err(failure)));
            assert(Seq::empty() + later =~= later);
        }
    }
}

} // verus!
