use mqtt::packet::{encode, read};
use mqtt::{Packet, Publish};

fn round_trip(packet: &Packet) {
    let bytes = encode(packet).expect("encode");
    let back = read(&mut bytes.as_slice()).expect("read").expect("one");
    assert_eq!(&back, packet);
}

#[test]
fn every_packet_round_trips() {
    round_trip(&Packet::Connect {
        client_id: "xmip".into(),
        username: Some("u".into()),
        password: Some(b"p".to_vec()),
        keep_alive: 30,
    });
    round_trip(&Packet::Connect {
        client_id: String::new(),
        username: None,
        password: None,
        keep_alive: 0,
    });
    round_trip(&Packet::ConnAck {
        session_present: true,
        code: 0,
    });
    round_trip(&Packet::Publish(Publish {
        topic: "a/b".into(),
        qos: 1,
        retain: true,
        id: Some(7),
        payload: vec![1, 2, 3],
    }));
    round_trip(&Packet::Publish(Publish {
        topic: "a".into(),
        qos: 0,
        retain: false,
        id: None,
        payload: Vec::new(),
    }));
    round_trip(&Packet::PubAck(9));
    round_trip(&Packet::Subscribe {
        id: 3,
        filters: vec![("a/#".into(), 1), ("b".into(), 0)],
    });
    round_trip(&Packet::SubAck {
        id: 3,
        codes: vec![1, 0],
    });
    round_trip(&Packet::PingReq);
    round_trip(&Packet::PingResp);
    round_trip(&Packet::Disconnect);
}

#[test]
fn a_long_body_takes_a_long_remaining_length() {
    let publish = Packet::Publish(Publish {
        topic: "t".into(),
        qos: 0,
        retain: false,
        id: None,
        payload: vec![0x2a; 70_000],
    });
    let bytes = encode(&publish).expect("encode");
    assert_eq!(bytes[1] & 0x80, 0x80, "continues");
    assert_eq!(bytes.len(), 1 + 3 + 3 + 70_000);
    round_trip(&publish);
}

#[test]
fn malformed_packets_are_refused() {
    assert!(read(&mut &[][..]).expect("closed").is_none());
    assert!(read(&mut &[0x30, 0x05, 0x00][..]).is_err(), "mid-packet");
    assert!(
        read(&mut &[0x30, 0x80, 0x80, 0x80, 0x80, 0x01][..]).is_err(),
        "five length bytes"
    );
    assert!(read(&mut &[0x50, 0x00][..]).is_err(), "PUBREC");
    assert!(read(&mut &[0x30, 0x02, 0x00, 0x05][..]).is_err(), "past");
    assert!(
        read(&mut &[0x10, 0x08, 0x00, 0x04, b'M', b'Q', b'T', b'T', 3, 0][..]).is_err(),
        "3.1"
    );
}

fn failure(bytes: &[u8]) -> mqtt::Error {
    let mut reader = bytes;
    read(&mut reader).expect_err("malformed")
}

#[test]
fn packets_take_these_bytes() {
    let connect = Packet::Connect {
        client_id: "xmip".into(),
        username: Some("u".into()),
        password: Some(b"p".to_vec()),
        keep_alive: 0x0102,
    };
    assert_eq!(
        encode(&connect).expect("encode"),
        b"\x10\x16\x00\x04MQTT\x04\xc2\x01\x02\x00\x04xmip\x00\x01u\x00\x01p"
    );
    let publish = Packet::Publish(Publish {
        topic: "a/b".into(),
        qos: 1,
        retain: true,
        id: Some(0x0107),
        payload: vec![1, 2, 3],
    });
    assert_eq!(
        encode(&publish).expect("encode"),
        b"\x33\x0a\x00\x03a/b\x01\x07\x01\x02\x03"
    );
    let subscribe = Packet::Subscribe {
        id: 3,
        filters: vec![("a/#".into(), 1), ("b".into(), 0)],
    };
    assert_eq!(
        encode(&subscribe).expect("encode"),
        b"\x82\x0c\x00\x03\x00\x03a/#\x01\x00\x01b\x00"
    );
    assert_eq!(
        encode(&Packet::ConnAck {
            session_present: true,
            code: 5
        })
        .expect("encode"),
        [0x20, 2, 1, 5]
    );
    assert_eq!(encode(&Packet::PubAck(9)).expect("encode"), [0x40, 2, 0, 9]);
    assert_eq!(
        encode(&Packet::SubAck {
            id: 3,
            codes: vec![1, 0x80]
        })
        .expect("encode"),
        [0x90, 4, 0, 3, 1, 0x80]
    );
    assert_eq!(encode(&Packet::PingReq).expect("encode"), [0xc0, 0]);
    assert_eq!(encode(&Packet::PingResp).expect("encode"), [0xd0, 0]);
    assert_eq!(encode(&Packet::Disconnect).expect("encode"), [0xe0, 0]);
}

#[test]
fn connect_flags_say_what_is_presented() {
    let flags = |username: Option<&str>, password: Option<&[u8]>| {
        let connect = Packet::Connect {
            client_id: String::new(),
            username: username.map(String::from),
            password: password.map(<[u8]>::to_vec),
            keep_alive: 0,
        };
        round_trip(&connect);
        encode(&connect).expect("encode")[9]
    };
    assert_eq!(flags(None, None), 0x02);
    assert_eq!(flags(None, Some(b"p")), 0x42);
    assert_eq!(flags(Some("u"), None), 0x82);
    assert_eq!(flags(Some("u"), Some(b"")), 0xc2);
}

#[test]
fn a_publish_reads_back_in_the_form_that_is_spoken() {
    let read_back = |qos: u8, id: Option<u16>| {
        let bytes = encode(&Packet::Publish(Publish {
            topic: "t".into(),
            qos,
            retain: false,
            id,
            payload: vec![9],
        }))
        .expect("encode");
        match read(&mut bytes.as_slice()).expect("read").expect("one") {
            Packet::Publish(publish) => (publish.qos, publish.id),
            other => panic!("{other:?}"),
        }
    };
    assert_eq!(read_back(0, Some(7)), (0, None));
    assert_eq!(read_back(1, None), (1, Some(1)));
    assert_eq!(read_back(2, Some(7)), (2, Some(7)));
    assert_eq!(read_back(255, Some(7)), (2, Some(7)));
}

#[test]
fn the_remaining_length_grows_with_the_body() {
    let width = |length: usize| {
        let bytes = encode(&Packet::SubAck {
            id: 1,
            codes: vec![0; length - 2],
        })
        .expect("encode");
        assert_eq!(read(&mut bytes.as_slice()).expect("read").is_some(), true);
        bytes.len() - 1 - length
    };
    assert_eq!(width(127), 1);
    assert_eq!(width(128), 2);
    assert_eq!(width(16_383), 2);
    assert_eq!(width(16_384), 3);
    assert_eq!(width(2_097_151), 3);
    assert_eq!(width(2_097_152), 4);
}

#[test]
fn packets_are_read_in_order_and_the_rest_is_left() {
    let mut bytes = encode(&Packet::PubAck(1)).expect("encode");
    bytes.extend(encode(&Packet::PingReq).expect("encode"));
    bytes.extend([0x40, 2, 0]);
    let mut reader = bytes.as_slice();
    assert_eq!(read(&mut reader).expect("first"), Some(Packet::PubAck(1)));
    assert_eq!(read(&mut reader).expect("second"), Some(Packet::PingReq));
    assert_eq!(reader, [0x40, 2, 0]);
    assert!(read(&mut reader).is_err());
    assert!(reader.is_empty());
}

#[test]
fn what_cannot_be_encoded_says_why() {
    let long = "x".repeat(65_536);
    let topic = |topic: &str, payload: Vec<u8>| {
        encode(&Packet::Publish(Publish {
            topic: topic.into(),
            qos: 0,
            retain: false,
            id: None,
            payload,
        }))
    };
    let error = topic(&long, Vec::new()).expect_err("topic");
    assert_eq!(error.message, "a string over 65535 bytes");
    assert!(!error.retryable);
    assert!(topic(&long[1..], Vec::new()).is_ok());
    let error = topic("t", vec![0; 268_435_453]).expect_err("body");
    assert_eq!(error.message, "a packet over what MQTT can frame");
    let error = encode(&Packet::Subscribe {
        id: 1,
        filters: vec![("a".into(), 0), (long.clone(), 0)],
    })
    .expect_err("filter");
    assert_eq!(error.message, "a string over 65535 bytes");
    let error = encode(&Packet::Connect {
        client_id: String::new(),
        username: None,
        password: Some(long.into_bytes()),
        keep_alive: 0,
    })
    .expect_err("password");
    assert_eq!(error.message, "a string over 65535 bytes");
}

#[test]
fn what_cannot_be_read_says_why() {
    assert_eq!(
        failure(&[0x30]).message,
        "reading the remaining length: the packet is cut short"
    );
    assert_eq!(
        failure(&[0x30, 0x80]).message,
        "reading the remaining length: the packet is cut short"
    );
    assert_eq!(
        failure(&[0x30, 5, 0]).message,
        "reading the packet body: the packet is cut short"
    );
    assert_eq!(
        failure(&[0x30, 0x80, 0x80, 0x80, 0x80]).message,
        "a remaining length over four bytes"
    );
    assert_eq!(
        failure(&[0x50, 0]).message,
        "a control packet of type 5 this transport does not speak"
    );
    assert_eq!(
        failure(&[0xf0, 0]).message,
        "a control packet of type 15 this transport does not speak"
    );
    assert_eq!(
        failure(&[0x40, 1, 0]).message,
        "a packet shorter than its header"
    );
    assert_eq!(
        failure(&[0x30, 2, 0, 5]).message,
        "a length that runs past the packet"
    );
    assert_eq!(
        failure(&[0x30, 3, 0, 1, 0xff]).message,
        "a string that is not UTF-8"
    );
    assert_eq!(
        failure(b"\x10\x08\x00\x04MQTT\x03\x00").message,
        "a CONNECT that is not MQTT 3.1.1"
    );
    assert_eq!(
        failure(b"\x10\x08\x00\x04MQTX\x04\x00").message,
        "a CONNECT that is not MQTT 3.1.1"
    );
    assert!(!failure(&[0x50, 0]).retryable);
}

#[test]
fn a_will_is_passed_over() {
    let bytes = b"\x10\x17\x00\x04MQTT\x04\x86\x00\x1e\x00\x01c\x00\x01w\x00\x02by\x00\x01u";
    assert_eq!(
        read(&mut &bytes[..]).expect("read"),
        Some(Packet::Connect {
            client_id: "c".into(),
            username: Some("u".into()),
            password: None,
            keep_alive: 30,
        })
    );
}

#[test]
fn text_outside_ascii_round_trips() {
    round_trip(&Packet::Publish(Publish {
        topic: "grüße/温度/🌡".into(),
        qos: 1,
        retain: false,
        id: Some(65_535),
        payload: "21.5 °C".as_bytes().to_vec(),
    }));
}

#[test]
fn a_packet_is_shown_as_it_is_debugged() {
    let packets = [
        Packet::Connect {
            client_id: "a \"b\"\n".into(),
            username: Some("ü".into()),
            password: Some(vec![0, 10, 255]),
            keep_alive: 65_535,
        },
        Packet::Connect {
            client_id: String::new(),
            username: None,
            password: None,
            keep_alive: 0,
        },
        Packet::ConnAck {
            session_present: false,
            code: 5,
        },
        Packet::Publish(Publish {
            topic: "a/b".into(),
            qos: 1,
            retain: true,
            id: Some(100),
            payload: vec![1, 2, 3],
        }),
        Packet::Publish(Publish {
            topic: "t".into(),
            qos: 0,
            retain: false,
            id: None,
            payload: Vec::new(),
        }),
        Packet::PubAck(9),
        Packet::Subscribe {
            id: 3,
            filters: vec![("a/#".into(), 1), ("b".into(), 0)],
        },
        Packet::SubAck {
            id: 3,
            codes: vec![7],
        },
        Packet::PingReq,
        Packet::PingResp,
        Packet::Disconnect,
    ];
    for packet in &packets {
        assert_eq!(mqtt::show::show(packet), format!("{packet:?}"));
    }
}

#[test]
fn a_packet_that_was_read_can_be_sent() {
    let mut reader = &b"\x36\x06\x00\x01t\x00\x07!"[..];
    let packet = read(&mut reader).expect("read").expect("one");
    match &packet {
        Packet::Publish(publish) => assert_eq!((publish.qos, publish.id), (3, Some(7))),
        other => panic!("{other:?}"),
    }
    assert_eq!(
        encode(&packet).expect("encode"),
        b"\x34\x06\x00\x01t\x00\x07!"
    );
}

#[test]
fn different_packets_take_different_bytes() {
    let publish = |qos, id, topic: &str, payload: &[u8]| {
        encode(&Packet::Publish(Publish {
            topic: topic.into(),
            qos,
            retain: false,
            id,
            payload: payload.to_vec(),
        }))
        .expect("encode")
    };
    let all = [
        publish(0, None, "a", b"b"),
        publish(0, None, "ab", b""),
        publish(1, Some(1), "a", b"b"),
        publish(1, Some(2), "a", b"b"),
        publish(2, Some(1), "a", b"b"),
        encode(&Packet::PubAck(1)).expect("encode"),
        encode(&Packet::PubAck(256)).expect("encode"),
    ];
    for (i, one) in all.iter().enumerate() {
        for other in &all[i + 1..] {
            assert_ne!(one, other);
        }
    }
    assert_eq!(publish(1, None, "a", b"b"), all[2]);
}
