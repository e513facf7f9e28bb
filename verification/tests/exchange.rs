use mqtt::packet::{encode, read};
use mqtt::{
    Arrived, Client, Credentials, Error, Event, MqttTransport, Next, Packet, Publish, Session, Step,
};

/// The packet that `bytes` are.
fn arriving(bytes: &[u8]) -> Option<Packet> {
    let mut reader = bytes;
    let packet = read(&mut reader).expect("read");
    assert!(reader.is_empty());
    packet
}

/// What a step returns, and what it sends first.
fn returned<T>(step: Step<T>) -> (Option<Vec<u8>>, T) {
    match step.next {
        Next::Return(value) => (step.send, value),
        Next::Read => panic!("reads on"),
    }
}

/// What a step sends before it reads on.
fn reading_on<T>(step: Step<T>) -> Option<Vec<u8>> {
    match step.next {
        Next::Read => step.send,
        Next::Return(_) => panic!("returns"),
    }
}

/// A client of `near` and the session that accepted it from `peer`.
fn connected(near: &MqttTransport, peer: &str) -> (Client, Session) {
    let (client, connect) = near.connect().expect("connecting");
    let (session, connack) =
        Session::accept(peer.to_string(), arriving(&connect)).expect("accepting");
    let client = client.connected(arriving(&connack)).expect("accepted");
    (client, session)
}

#[test]
fn a_client_publishes_to_a_session_and_is_acknowledged() {
    let near = MqttTransport::new("127.0.0.1:1883", "probe");
    let (mut client, mut session) = connected(&near, "127.0.0.1:50000");
    assert_eq!(session.client_id(), "xmip");
    let (broker, topic) = near.resolve(None, "sensor/1");
    assert_eq!(broker, "127.0.0.1:1883");
    let (bytes, awaited) = client.publish(topic, b"21.5", near.qos()).expect("sending");
    let step = session.next_publish(arriving(&bytes)).expect("first");
    let (puback, first) = returned(step);
    let first = first.expect("one");
    assert_eq!(first.bytes, b"21.5");
    assert!(first.origin_uri.ends_with("/sensor/1?qos=1"));
    assert_eq!(first.origin_uri, "mqtt://127.0.0.1:50000/sensor/1?qos=1");
    let reply = arriving(&puback.expect("acknowledged"));
    let id = awaited.expect("awaited");
    returned(Client::published(id, reply).expect("sent"));
    let goodbye = client.disconnect();
    let (sent, closed) = returned(session.next_publish(arriving(&goodbye)).expect("closed"));
    assert!(sent.is_none());
    assert!(closed.is_none());

    let (mut client, mut session) = connected(&near, "127.0.0.1:50001");
    let target = "mqtt://127.0.0.1:1883/sensor/2";
    let (_, topic) = near.resolve(Some(("127.0.0.1:1883", "sensor/2")), target);
    let (bytes, awaited) = client.publish(topic, b"", near.qos()).expect("sending");
    let (puback, second) = returned(session.next_publish(arriving(&bytes)).expect("second"));
    let second = second.expect("one");
    assert!(second.origin_uri.ends_with("/sensor/2?qos=1"));
    assert!(second.bytes.is_empty());
    let reply = arriving(&puback.expect("acknowledged"));
    let id = awaited.expect("awaited");
    let (sent, ()) = returned(Client::published(id, reply).expect("sent"));
    assert!(sent.is_none());
    let goodbye = client.disconnect();
    let (_, closed) = returned(session.next_publish(arriving(&goodbye)).expect("closed"));
    assert!(closed.is_none());
}

/// Listen to what the broker of `client` sends, until a wait ends the listening.
fn listen(client: &Client, replies: Vec<Option<Packet>>) -> (Vec<Option<Vec<u8>>>, Vec<Arrived>) {
    let mut sent = Vec::new();
    let mut arrived = Vec::new();
    for reply in replies {
        let step = client.next_publish(reply);
        sent.push(step.send);
        if let Next::Return(heard) = step.next {
            if !MqttTransport::receive(&mut arrived, Ok(heard)).expect("no failure") {
                return (sent, arrived);
            }
        }
    }
    panic!("still listening");
}

#[test]
fn all_that_a_broker_sends_before_it_disconnects_is_received() {
    let (client, _) = Client::connect("b", &Credentials::default()).expect("encodes");
    let message = |topic: &str, id: Option<u16>| {
        Some(Packet::Publish(Publish {
            topic: topic.into(),
            qos: if id.is_some() { 1 } else { 0 },
            retain: false,
            id,
            payload: topic.as_bytes().to_vec(),
        }))
    };
    let (sent, arrived) = listen(
        &client,
        vec![
            Some(Packet::PubAck(9)),
            message("x", None),
            Some(Packet::PingReq),
            message("y", Some(3)),
            Some(Packet::PingResp),
            Some(Packet::Disconnect),
            message("z", None),
        ],
    );
    let pong = Some(vec![0xd0, 0]);
    let puback = Some(vec![0x40, 2, 0, 3]);
    assert_eq!(sent, [None, None, pong, puback, None, None]);
    let uris: Vec<&str> = arrived.iter().map(|a| a.origin_uri.as_str()).collect();
    assert_eq!(uris, ["mqtt://b/x?qos=0", "mqtt://b/y?qos=1"]);
    assert_eq!(arrived[1].bytes, b"y");
    let (_, arrived) = listen(&client, vec![Some(Packet::PubAck(9)), None]);
    assert!(arrived.is_empty());
}

#[test]
fn a_session_delivers_to_a_subscribed_client() {
    let near = MqttTransport::new("127.0.0.1:1883", "sensor/#").at_qos(0);
    let (mut client, mut session) = connected(&near, "127.0.0.1:50000");
    let (bytes, id) = client
        .subscribe(near.topic(), near.qos())
        .expect("subscribing");
    let (suback, event) = returned(session.next_event(arriving(&bytes)).expect("subscribed"));
    assert_eq!(
        event,
        Some(Event::Subscribed(vec!["sensor/#".to_string()]))
    );
    assert_eq!(session.subscribed(), ["sensor/#"]);
    let reply = arriving(&suback.expect("granted"));
    returned(Client::subscribed(id, near.topic(), reply).expect("granted"));
    let mut arrived = Vec::new();
    for (topic, payload) in [("sensor/1", &b"first"[..]), ("sensor/2", &b"second"[..])] {
        let bytes = session.deliver(topic, payload).expect("delivering");
        let (sent, message) = returned(client.next_publish(arriving(&bytes)));
        assert!(sent.is_none());
        assert_eq!(MqttTransport::receive(&mut arrived, Ok(message)), Ok(true));
    }
    let (_, message) = returned(client.next_publish(None));
    assert_eq!(MqttTransport::receive(&mut arrived, Ok(message)), Ok(false));
    assert_eq!(arrived.len(), 2);
    assert_eq!(arrived[0].bytes, b"first");
    assert!(arrived[1].origin_uri.ends_with("/sensor/2?qos=0"));
}

#[test]
fn a_broker_that_refuses_is_a_permanent_error() {
    let (client, _) = MqttTransport::new("127.0.0.1:1883", "t")
        .connect()
        .expect("connecting");
    let refusal = encode(&Packet::ConnAck {
        session_present: false,
        code: 5,
    })
    .expect("encode");
    let error = client
        .connected(arriving(&refusal))
        .err()
        .expect("refused");
    assert!(!error.retryable);
    assert!(error.message.contains("code 5"));
}

#[test]
fn a_connection_needs_an_answer() {
    let connecting = || Client::connect("b", &Credentials::default()).expect("encodes").0;
    let unanswered = "the broker did not answer CONNECT";
    for reply in [None, Some(Packet::PingReq), Some(Packet::PubAck(1))] {
        let error = connecting().connected(reply).err().expect("unanswered");
        assert_eq!(error.message, unanswered);
    }
    let error = Session::accept("p".to_string(), Some(Packet::PingReq))
        .err()
        .expect("no CONNECT");
    assert_eq!(error.message, "the client did not open with CONNECT");
    assert!(Session::accept("p".to_string(), None).is_err());
    let credentials = Credentials {
        client_id: "x".repeat(65_536),
        ..Credentials::default()
    };
    let error = Client::connect("b", &credentials).err().expect("too long");
    assert_eq!(error.message, "a string over 65535 bytes");
}

#[test]
fn identifiers_go_round_without_zero() {
    let (mut client, _) = Client::connect("b", &Credentials::default()).expect("encodes");
    let mut last = 0;
    for turn in 1..=65_536u32 {
        let (_, awaited) = client.publish("t", b"", 1).expect("encodes");
        last = awaited.expect("awaited");
        if turn <= 65_535 {
            assert_eq!(u32::from(last), turn);
        }
    }
    assert_eq!(last, 1);
    let (_, awaited) = client.publish("t", b"", 0).expect("encodes");
    assert_eq!(awaited, None);
    let (_, id) = client.subscribe("t", 0).expect("encodes");
    assert_eq!(id, 2);
    assert!(client.subscribe(&"x".repeat(65_536), 0).is_err());
    let (_, id) = client.subscribe("t", 0).expect("encodes");
    assert_eq!(id, 4);
}

#[test]
fn an_acknowledgement_must_be_the_one_awaited() {
    returned(Client::published(7, Some(Packet::PubAck(7))).expect("acknowledged"));
    let error = |reply| Client::published(7, reply).err().expect("refused").message;
    assert_eq!(error(Some(Packet::PubAck(8))), "a PUBACK for another packet");
    assert_eq!(error(None), "the broker did not acknowledge");
    assert_eq!(error(Some(Packet::Disconnect)), "the broker did not acknowledge");
    let suback = |id, codes| Some(Packet::SubAck { id, codes });
    returned(Client::subscribed(7, "f", suback(7, vec![1])).expect("granted"));
    returned(Client::subscribed(7, "f", suback(7, Vec::new())).expect("granted"));
    returned(Client::subscribed(7, "f", suback(7, vec![0, 0x80])).expect("granted"));
    let error = |reply| Client::subscribed(7, "f", reply).err().expect("refused").message;
    assert_eq!(error(suback(7, vec![0x80])), "the broker refused f");
    assert_eq!(error(suback(8, vec![1])), "the broker did not answer SUBSCRIBE");
    assert_eq!(error(None), "the broker did not answer SUBSCRIBE");
}

#[test]
fn pings_are_answered_on_the_way() {
    let pong = Some(vec![0xd0, 0]);
    let step = Client::published(7, Some(Packet::PingReq)).expect("served");
    assert_eq!(reading_on(step), pong);
    let step = Client::subscribed(7, "f", Some(Packet::PingResp)).expect("served");
    assert_eq!(reading_on(step), None);
    let near = MqttTransport::new("b", "t");
    let (client, mut session) = connected(&near, "p");
    assert_eq!(reading_on(client.next_publish(Some(Packet::PingReq))), pong);
    assert_eq!(reading_on(client.next_publish(Some(Packet::PingResp))), None);
    let step = session.next_event(Some(Packet::PingReq)).expect("served");
    assert_eq!(reading_on(step), pong);
    let step = session.next_publish(Some(Packet::PubAck(3))).expect("absorbed");
    assert_eq!(reading_on(step), None);
}

#[test]
fn a_client_acknowledges_what_has_an_identifier() {
    let (client, _) = Client::connect("broker:1883", &Credentials::default()).expect("encodes");
    let message = Packet::Publish(Publish {
        topic: "a".into(),
        qos: 2,
        retain: true,
        id: Some(258),
        payload: vec![4],
    });
    let (sent, arrived) = returned(client.next_publish(Some(message)));
    assert_eq!(sent, Some(vec![0x40, 2, 1, 2]));
    assert_eq!(
        arrived,
        Some(Arrived {
            origin_uri: "mqtt://broker:1883/a?qos=2".into(),
            bytes: vec![4],
        })
    );
}

#[test]
fn only_a_broker_that_disconnected_has_no_next_message() {
    let (mut client, _) = Client::connect("b", &Credentials::default()).expect("encodes");
    for packet in [
        Packet::PubAck(1),
        Packet::SubAck {
            id: 1,
            codes: vec![0],
        },
        Packet::ConnAck {
            session_present: false,
            code: 0,
        },
        Packet::Subscribe {
            id: 1,
            filters: Vec::new(),
        },
        Packet::Connect {
            client_id: "c".into(),
            username: None,
            password: None,
            keep_alive: 0,
        },
    ] {
        assert_eq!(reading_on(client.next_publish(Some(packet))), None);
    }
    let message = Packet::Publish(Publish {
        topic: "t".into(),
        qos: 0,
        retain: false,
        id: None,
        payload: vec![1],
    });
    let (sent, arrived) = returned(client.next_publish(Some(message)));
    assert_eq!(sent, None);
    assert_eq!(arrived.expect("one").bytes, [1]);
    for end in [Some(Packet::Disconnect), None] {
        assert_eq!(returned(client.next_publish(end)), (None, None));
    }
    assert_eq!(client.take_id(), 1);
    assert_eq!(client.take_id(), 2);
}

#[test]
fn a_session_grants_each_filter_and_remembers_it() {
    let near = MqttTransport::new("b", "t");
    let (_, mut session) = connected(&near, "p");
    let subscribe = |id, filters: &[(&str, u8)]| {
        Some(Packet::Subscribe {
            id,
            filters: filters.iter().map(|(f, q)| (f.to_string(), *q)).collect(),
        })
    };
    let step = session.next_publish(subscribe(5, &[("a", 0), ("b", 2)])).expect("granted");
    assert_eq!(reading_on(step), Some(vec![0x90, 4, 0, 5, 0, 1]));
    let step = session.next_event(subscribe(6, &[("c", 1)])).expect("granted");
    let (sent, event) = returned(step);
    assert_eq!(sent, Some(vec![0x90, 3, 0, 6, 1]));
    assert_eq!(event, Some(Event::Subscribed(vec!["c".into()])));
    assert_eq!(session.subscribed(), ["a", "b", "c"]);
}

#[test]
fn a_client_may_not_send_what_only_a_broker_sends() {
    let near = MqttTransport::new("b", "t");
    let (_, mut session) = connected(&near, "p");
    for packet in [
        Packet::PingResp,
        Packet::ConnAck {
            session_present: true,
            code: 0,
        },
        Packet::SubAck {
            id: 3,
            codes: vec![1, 0],
        },
        Packet::Connect {
            client_id: "it's \"me\"".into(),
            username: Some("u".into()),
            password: Some(b"p".to_vec()),
            keep_alive: 30,
        },
    ] {
        let message = format!("{packet:?} from a client");
        let error = session.next_event(Some(packet)).err().expect("refused");
        assert_eq!(error.message, message);
        assert!(!error.retryable);
    }
    assert!(session.subscribed().is_empty());
}

#[test]
fn what_is_published_at_quality_of_service_0_is_not_acknowledged() {
    let near = MqttTransport::new("b", "t").at_qos(0);
    let (mut client, mut session) = connected(&near, "p");
    let (bytes, awaited) = client.publish("t", b"x", near.qos()).expect("encodes");
    assert_eq!(awaited, None);
    let (sent, event) = returned(session.next_event(arriving(&bytes)).expect("taken"));
    assert_eq!(sent, None);
    match event {
        Some(Event::Published(arrived)) => {
            assert_eq!(arrived.origin_uri, "mqtt://p/t?qos=0");
            assert_eq!(arrived.bytes, b"x");
        }
        other => panic!("{other:?}"),
    }
}

#[test]
fn listening_keeps_what_arrived_before_a_passing_failure() {
    let message = |text: &str| Arrived {
        origin_uri: "o".into(),
        bytes: text.as_bytes().to_vec(),
    };
    let failure = |retryable| Error {
        retryable,
        message: "quiet".into(),
    };
    let mut arrived = Vec::new();
    assert_eq!(
        MqttTransport::receive(&mut arrived, Err(failure(true))),
        Err(failure(true))
    );
    assert_eq!(MqttTransport::receive(&mut arrived, Ok(None)), Ok(false));
    assert_eq!(
        MqttTransport::receive(&mut arrived, Ok(Some(message("1")))),
        Ok(true)
    );
    assert_eq!(
        MqttTransport::receive(&mut arrived, Ok(Some(message("2")))),
        Ok(true)
    );
    assert_eq!(
        MqttTransport::receive(&mut arrived, Err(failure(true))),
        Ok(false)
    );
    assert_eq!(
        MqttTransport::receive(&mut arrived, Err(failure(false))),
        Err(failure(false))
    );
    assert_eq!(arrived, [message("1"), message("2")]);
}

#[test]
fn a_message_is_found_behind_pings_acknowledgements_and_subscriptions() {
    let near = MqttTransport::new("b", "t");
    let (mut client, mut session) = connected(&near, "p");
    let (subscribe, _) = client.subscribe("f", 1).expect("encodes");
    let mut answers = Vec::new();
    for packet in [
        Some(Packet::PingReq),
        arriving(&subscribe),
        Some(Packet::PubAck(9)),
    ] {
        let step = session.next_publish(packet).expect("dealt with");
        answers.push(reading_on(step));
    }
    assert_eq!(
        answers,
        [Some(vec![0xd0, 0]), Some(vec![0x90, 3, 0, 1, 1]), None]
    );
    let (publish, _) = client.publish("t", b"x", 1).expect("encodes");
    let (sent, message) = returned(session.next_publish(arriving(&publish)).expect("taken"));
    assert_eq!(sent, Some(vec![0x40, 2, 0, 2]));
    assert_eq!(message.expect("one").bytes, b"x");
    assert_eq!(session.subscribed(), ["f"]);
    assert_eq!(session.client_id(), "xmip");
}
