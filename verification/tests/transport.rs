use mqtt::packet::read;
use mqtt::reader::{Fed, Reader};
use mqtt::wire::{Progress, RemainingLength};
use mqtt::{Credentials, Error, MqttTransport, Packet};
use std::time::Duration;

#[test]
fn a_transport_holds_what_it_was_given() {
    let transport = MqttTransport::new(String::from("b:1"), "t");
    assert_eq!(transport.broker(), "b:1");
    assert_eq!(transport.topic(), "t");
    assert_eq!(transport.qos(), 1);
    assert_eq!(transport.credentials().client_id, "xmip");
    assert_eq!(transport.credentials().username, None);
    assert_eq!(transport.credentials().password, None);
    assert_eq!(transport.timeout(), None);
    assert_eq!(transport.name(), "mqtt");
    let transport = transport
        .presenting(Credentials {
            client_id: "me".into(),
            username: Some("u".into()),
            password: Some(vec![1]),
        })
        .timing_out_after(Duration::from_secs(2));
    assert_eq!(transport.credentials().client_id, "me");
    assert_eq!(transport.credentials().username.as_deref(), Some("u"));
    assert_eq!(transport.credentials().password.as_deref(), Some(&[1][..]));
    assert_eq!(transport.timeout(), Some(Duration::from_secs(2)));
    assert_eq!(transport.broker(), "b:1");
}

#[test]
fn quality_of_service_is_0_or_1() {
    for (asked, held) in [(0, 0), (1, 1), (2, 1), (255, 1)] {
        assert_eq!(MqttTransport::new("b", "t").at_qos(asked).qos(), held);
    }
}

#[test]
fn a_target_names_the_broker_or_only_the_topic() {
    let transport = MqttTransport::new("b", "t");
    assert_eq!(transport.resolve(None, "a/b"), ("b", "a/b"));
    assert_eq!(
        transport.resolve(Some(("h:1883", "a/b")), "mqtt://h:1883/a/b"),
        ("h:1883", "a/b")
    );
    assert_eq!(
        transport.resolve(Some(("h:1883", "")), "mqtt://h:1883"),
        ("h:1883", "t")
    );
}

#[test]
fn a_remaining_length_is_read_byte_by_byte() {
    let read = |bytes: &[u8]| {
        let mut length = RemainingLength::new();
        for byte in bytes {
            match length.push(*byte) {
                Ok(Progress::More(longer)) => length = longer,
                Ok(Progress::Whole(value)) => return Ok(value),
                Err(error) => return Err(error.message),
            }
        }
        panic!("unfinished");
    };
    assert_eq!(read(&[0]), Ok(0));
    assert_eq!(read(&[0x7f]), Ok(127));
    assert_eq!(read(&[0x80, 1]), Ok(128));
    assert_eq!(read(&[0xff, 0xff, 0xff, 0x7f]), Ok(268_435_455));
    assert_eq!(read(&[0x80, 0x80, 0x80, 0]), Ok(0));
    assert_eq!(
        read(&[0xff, 0xff, 0xff, 0x80]),
        Err("a remaining length over four bytes".to_string())
    );
}

#[test]
fn nothing_is_presented_by_default() {
    let credentials = Credentials::default();
    assert_eq!(credentials.client_id, "");
    assert_eq!(credentials.username, None);
    assert_eq!(credentials.password, None);
}

/// Feed a reader what it wants of `input`, and say what it wanted.
fn feed(mut input: &[u8]) -> (Vec<usize>, Result<Packet, Error>) {
    let mut reader = Reader::new();
    let mut wanted = Vec::new();
    loop {
        let count = reader.wants();
        wanted.push(count);
        let (bytes, rest) = input.split_at(count);
        input = rest;
        match reader.feed(bytes) {
            Ok(Fed::More(next)) => reader = next,
            Ok(Fed::Whole(packet)) => return (wanted, Ok(packet)),
            Err(error) => return (wanted, Err(error)),
        }
    }
}

#[test]
fn a_packet_is_read_a_few_bytes_at_a_time() {
    let (wanted, packet) = feed(&[0x40, 2, 0, 9, 0xff]);
    assert_eq!(wanted, [1, 1, 2]);
    assert_eq!(packet, Ok(Packet::PubAck(9)));
    let (wanted, packet) = feed(&[0xc0, 0x80, 0]);
    assert_eq!(wanted, [1, 1, 1, 0]);
    assert_eq!(packet, Ok(Packet::PingReq));
    let input = [0x30, 0x80, 0x80, 0x80, 0x80, 0x01];
    let (wanted, packet) = feed(&input);
    assert_eq!(wanted, [1; 5]);
    let mut rest = &input[..];
    assert_eq!(packet.err(), read(&mut rest).err());
    assert_eq!(rest, [0x01]);
    let reader = Reader::new();
    assert!(reader.is_between_packets());
    assert_eq!(reader.doing(), "reading the fixed header");
    let Ok(Fed::More(reader)) = reader.feed(&[0x30]) else {
        panic!("more");
    };
    assert!(!reader.is_between_packets());
    assert_eq!(reader.doing(), "reading the remaining length");
    let Ok(Fed::More(reader)) = reader.feed(&[5]) else {
        panic!("more");
    };
    assert_eq!(reader.doing(), "reading the packet body");
    assert_eq!(reader.wants(), 5);
}
