//! Packets as text, in the form of `{:?}`.
use crate::packet::{Packet, PacketView, Publish, PublishView};
use crate::text;
use crate::text::put_decimal;
use vstd::prelude::*;
use vstd::string::StringExecFns;

verus! {

/// `text` in quotation marks and escaped, as `<str as Debug>::fmt` writes it.
pub uninterp spec fn quoted(text: Seq<char>) -> Seq<char>;

/// `format!("{:?}", text)`, whose result depends on the characters of `text`
/// alone. What it escapes, and how, is not stated.
#[verifier::external_body]
fn quote(text: &str) -> (result: String)
    ensures
        result@ == quoted(text@),
{
    format!("{:?}", text)
}

/// `items` one behind another, with a comma and a space between them.
pub open spec fn joined(items: Seq<Seq<char>>) -> Seq<char>
    decreases items.len(),
{
    if items.len() == 0 {
        Seq::empty()
    } else if items.len() == 1 {
        items[0]
    } else {
        joined(items.drop_last()) + ", "@ + items.last()
    }
}

/// `items` as a list.
pub open spec fn listed(items: Seq<Seq<char>>) -> Seq<char> {
    "["@ + joined(items) + "]"@
}

/// An item that may be given.
pub open spec fn optional(item: Option<Seq<char>>) -> Seq<char> {
    match item {
        Some(item) => "Some("@ + item + ")"@,
        None => "None"@,
    }
}

/// `data` as a list of numbers.
pub open spec fn shown_bytes(data: Seq<u8>) -> Seq<char> {
    listed(data.map_values(|byte: u8| text::decimal(byte as nat)))
}

/// `flag` as a word.
pub open spec fn shown_flag(flag: bool) -> Seq<char> {
    if flag {
        "true"@
    } else {
        "false"@
    }
}

/// A filter with the quality of service asked for.
pub open spec fn shown_filter(filter: (Seq<char>, u8)) -> Seq<char> {
    "("@ + quoted(filter.0) + ", "@ + text::decimal(filter.1 as nat) + ")"@
}

/// A PUBLISH without its name as a packet.
pub open spec fn shown_publish(publish: PublishView) -> Seq<char> {
    "Publish { topic: "@ + quoted(publish.topic) + ", qos: "@ + text::decimal(publish.qos as nat)
        + ", retain: "@ + shown_flag(publish.retain) + ", id: "@ + optional(
        match publish.id {
            Some(id) => Some(text::decimal(id as nat)),
            None => None,
        },
    ) + ", payload: "@ + shown_bytes(publish.payload) + " }"@
}

/// A packet as text.
pub open spec fn shown(packet: PacketView) -> Seq<char> {
    match packet {
        PacketView::Connect { client_id, username, password, keep_alive } => {
            "Connect { client_id: "@ + quoted(client_id) + ", username: "@ + optional(
                match username {
                    Some(name) => Some(quoted(name)),
                    None => None,
                },
            ) + ", password: "@ + optional(
                match password {
                    Some(secret) => Some(shown_bytes(secret)),
                    None => None,
                },
            ) + ", keep_alive: "@ + text::decimal(keep_alive as nat) + " }"@
        },
        PacketView::ConnAck { session_present, code } => {
            "ConnAck { session_present: "@ + shown_flag(session_present) + ", code: "@
                + text::decimal(code as nat) + " }"@
        },
        PacketView::Publish(publish) => "Publish("@ + shown_publish(publish) + ")"@,
        PacketView::PubAck(id) => "PubAck("@ + text::decimal(id as nat) + ")"@,
        PacketView::Subscribe { id, filters } => {
            "Subscribe { id: "@ + text::decimal(id as nat) + ", filters: "@ + listed(
                filters.map_values(|filter: (Seq<char>, u8)| shown_filter(filter)),
            ) + " }"@
        },
        PacketView::SubAck { id, codes } => {
            "SubAck { id: "@ + text::decimal(id as nat) + ", codes: "@ + shown_bytes(codes) + " }"@
        },
        PacketView::PingReq => "PingReq"@,
        PacketView::PingResp => "PingResp"@,
        PacketView::Disconnect => "Disconnect"@,
    }
}

/// `flag` as a word.
fn flag_text(flag: bool) -> (result: &'static str)
    ensures
        result@ == shown_flag(flag),
{
    if flag {
        "true"
    } else {
        "false"
    }
}

/// `value` in decimal digits.
fn number_text(value: u16) -> (result: String)
    ensures
        result@ == text::decimal(value as nat),
{
    let mut out = String::new();
    put_decimal(&mut out, value);
    assert(out@ =~= text::decimal(value as nat));
    out
}

/// An item that may be given.
fn optional_text(item: Option<String>) -> (result: String)
    ensures
        result@ == optional(item.deep_view()),
{
    match item {
        Some(item) => {
            let mut out = "Some(".to_owned();
            out.append(item.as_str());
            out.append(")");
            out
        },
        None => "None".to_owned(),
    }
}

/// `items` as a list.
fn list_text(items: &Vec<String>) -> (result: String)
    ensures
        result@ == listed(items.deep_view()),
{
    let ghost views = items.deep_view();
    let mut out = String::new();
    let mut i: usize = 0;
    assert(out@ =~= joined(views.take(0)));
    while i < items.len()
        invariant
            i <= items@.len(),
            views == items.deep_view(),
            out@ == joined(views.take(i as int)),
        decreases items@.len() - i,
    {
        if i > 0 {
            out.append(", ");
        }
        out.append(items[i].as_str());
        proof {
            assert(views.take(i + 1).drop_last() =~= views.take(i as int));
            assert(out@ =~= joined(views.take(i + 1)));
        }
        i = i + 1;
    }
    assert(views.take(i as int) =~= views);
    let mut list = "[".to_owned();
    list.append(out.as_str());
    list.append("]");
    list
}

/// `data` as a list of numbers.
fn bytes_text(data: &[u8]) -> (result: String)
    ensures
        result@ == shown_bytes(data@),
{
    let ghost all = data@.map_values(|byte: u8| text::decimal(byte as nat));
    let mut items: Vec<String> = Vec::new();
    let mut i: usize = 0;
    while i < data.len()
        invariant
            i <= data@.len(),
            all == data@.map_values(|byte: u8| text::decimal(byte as nat)),
            items.deep_view() == all.take(i as int),
        decreases data@.len() - i,
    {
        let ghost before = items.deep_view();
        let item = number_text(data[i] as u16);
        items.push(item);
        assert(items.deep_view() =~= before.push(item@));
        i = i + 1;
        assert(items.deep_view() =~= all.take(i as int));
    }
    assert(all.take(i as int) =~= all);
    list_text(&items)
}

/// A filter with the quality of service asked for.
fn filter_text(filter: &str, qos: u8) -> (result: String)
    ensures
        result@ == shown_filter((filter@, qos)),
{
    let mut out = "(".to_owned();
    out.append(quote(filter).as_str());
    out.append(", ");
    out.append(number_text(qos as u16).as_str());
    out.append(")");
    out
}

/// `filters` as a list.
fn filters_text(filters: &Vec<(String, u8)>) -> (result: String)
    ensures
        result@ == listed(
            filters.deep_view().map_values(|filter: (Seq<char>, u8)| shown_filter(filter)),
        ),
{
    let ghost views = filters.deep_view();
    let ghost all = views.map_values(|filter: (Seq<char>, u8)| shown_filter(filter));
    let mut items: Vec<String> = Vec::new();
    let mut i: usize = 0;
    while i < filters.len()
        invariant
            i <= filters@.len(),
            views == filters.deep_view(),
            all == views.map_values(|filter: (Seq<char>, u8)| shown_filter(filter)),
            items.deep_view() == all.take(i as int),
        decreases filters@.len() - i,
    {
        assert(views[i as int] == (filters[i as int].0@, filters[i as int].1));
        let ghost before = items.deep_view();
        let item = filter_text(filters[i].0.as_str(), filters[i].1);
        items.push(item);
        assert(items.deep_view() =~= before.push(item@));
        i = i + 1;
        assert(items.deep_view() =~= all.take(i as int));
    }
    assert(all.take(i as int) =~= all);
    list_text(&items)
}

/// A PUBLISH without its name as a packet.
fn publish_text(publish: &Publish) -> (result: String)
    ensures
        result@ == shown_publish(publish@),
{
    let mut out = "Publish { topic: ".to_owned();
    out.append(quote(publish.topic.as_str()).as_str());
    out.append(", qos: ");
    out.append(number_text(publish.qos as u16).as_str());
    out.append(", retain: ");
    out.append(flag_text(publish.retain));
    out.append(", id: ");
    let id = match publish.id {
        Some(id) => Some(number_text(id)),
        None => None,
    };
    out.append(optional_text(id).as_str());
    out.append(", payload: ");
    out.append(bytes_text(publish.payload.as_slice()).as_str());
    out.append(" }");
    out
}

/// A CONNECT.
fn connect_text(
    client_id: &String,
    username: &Option<String>,
    password: &Option<Vec<u8>>,
    keep_alive: u16,
) -> (result: String)
    ensures
        result@ == shown(
            PacketView::Connect {
                client_id: client_id@,
                username: username.deep_view(),
                password: crate::packet::optional_bytes(*password),
                keep_alive,
            },
        ),
{
    let mut out = "Connect { client_id: ".to_owned();
    out.append(quote(client_id.as_str()).as_str());
    out.append(", username: ");
    let name = match username {
        Some(name) => Some(quote(name.as_str())),
        None => None,
    };
    out.append(optional_text(name).as_str());
    out.append(", password: ");
    let secret = match password {
        Some(secret) => Some(bytes_text(secret.as_slice())),
        None => None,
    };
    out.append(optional_text(secret).as_str());
    out.append(", keep_alive: ");
    out.append(number_text(keep_alive).as_str());
    out.append(" }");
    out
}

/// `packet` as text, in the form of `{:?}`.
pub fn show(packet: &Packet) -> (result: String)
    ensures
        result@ == shown(packet@),
{
    match packet {
        Packet::Connect { client_id, username, password, keep_alive } => connect_text(
            client_id,
            username,
            password,
            *keep_alive,
        ),
        Packet::ConnAck { session_present, code } => {
            let mut out = "ConnAck { session_present: ".to_owned();
            out.append(flag_text(*session_present));
            out.append(", code: ");
            out.append(number_text(*code as u16).as_str());
            out.append(" }");
            out
        },
        Packet::Publish(publish) => {
            let mut out = "Publish(".to_owned();
            out.append(publish_text(publish).as_str());
            out.append(")");
            out
        },
        Packet::PubAck(id) => {
            let mut out = "PubAck(".to_owned();
            out.append(number_text(*id).as_str());
            out.append(")");
            out
        },
        Packet::Subscribe { id, filters } => {
            let mut out = "Subscribe { id: ".to_owned();
            out.append(number_text(*id).as_str());
            out.append(", filters: ");
            out.append(filters_text(filters).as_str());
            out.append(" }");
            out
        },
        Packet::SubAck { id, codes } => {
            let mut out = "SubAck { id: ".to_owned();
            out.append(number_text(*id).as_str());
            out.append(", codes: ");
            out.append(bytes_text(codes.as_slice()).as_str());
            out.append(" }");
            out
        },
        Packet::PingReq => "PingReq".to_owned(),
        Packet::PingResp => "PingResp".to_owned(),
        Packet::Disconnect => "Disconnect".to_owned(),
    }
}

} // verus!
