//! Packets as they come in, a few bytes at a time.
use crate::error::{Error, ErrorView};
use crate::packet::{decode, Packet, PacketView};
use crate::wire::{Progress, RemainingLength};
use crate::{error, packet, wire};
use vstd::prelude::*;

verus! {

/// How much of a packet has been read.
pub enum Reader {
    /// Nothing.
    Head,
    /// The head, and a part of the remaining length.
    Length { head: u8, length: RemainingLength },
    /// The head, and the whole of the remaining length.
    Body { head: u8, length: usize },
}

/// What more bytes make of a [`Reader`].
pub enum Fed {
    /// There is more to read.
    More(Reader),
    /// The packet is complete.
    Whole(Packet),
}

/// What a [`Reader`] knows.
#[verifier::ext_equal]
pub enum ReaderView {
    Head,
    /// `width` bytes of the remaining length, which count for `value`.
    Length { head: u8, value: nat, width: nat },
    Body { head: u8, length: nat },
}

/// What a [`Fed`] says.
#[verifier::ext_equal]
pub enum FedView {
    More(ReaderView),
    Whole(PacketView),
}

impl View for Reader {
    type V = ReaderView;

    open spec fn view(&self) -> ReaderView {
        match *self {
            Reader::Head => ReaderView::Head,
            Reader::Length { head, length } => ReaderView::Length {
                head,
                value: length.value(),
                width: length.width(),
            },
            Reader::Body { head, length } => ReaderView::Body { head, length: length as nat },
        }
    }
}

impl DeepView for Fed {
    type V = FedView;

    open spec fn deep_view(&self) -> FedView {
        match *self {
            Fed::More(reader) => FedView::More(reader@),
            Fed::Whole(packet) => FedView::Whole(packet@),
        }
    }
}

impl ReaderView {
    /// How many bytes to read next.
    pub open spec fn wanted(self) -> nat {
        match self {
            ReaderView::Head => 1,
            ReaderView::Length { .. } => 1,
            ReaderView::Body { length, .. } => length,
        }
    }

    /// What those bytes make of the reader.
    pub open spec fn fed(self, bytes: Seq<u8>) -> Result<FedView, ErrorView> {
        match self {
            ReaderView::Head => Ok(
                FedView::More(ReaderView::Length { head: bytes[0], value: 0, width: 0 }),
            ),
            ReaderView::Length { head, value, width } => {
                let more = value + wire::place(width) * (bytes[0] % 128) as nat;
                if bytes[0] < 128 {
                    Ok(FedView::More(ReaderView::Body { head, length: more }))
                } else if width + 1 < wire::MAX_WIDTH {
                    Ok(FedView::More(ReaderView::Length { head, value: more, width: width + 1 }))
                } else {
                    Err(error::breach("a remaining length over four bytes"@))
                }
            },
            ReaderView::Body { head, .. } => match packet::decoded(head, bytes) {
                Ok(packet) => Ok(FedView::Whole(packet)),
                Err(error) => Err(error),
            },
        }
    }

    /// How far the reader is from the end of its packet.
    pub open spec fn distance(self) -> nat {
        match self {
            ReaderView::Head => 6,
            ReaderView::Length { width, .. } => if width < wire::MAX_WIDTH {
                (5 - width) as nat
            } else {
                1
            },
            ReaderView::Body { .. } => 0,
        }
    }

    /// What the reader does in the words of an error.
    pub open spec fn purpose(self) -> Seq<char> {
        match self {
            ReaderView::Head => "reading the fixed header"@,
            ReaderView::Length { .. } => "reading the remaining length"@,
            ReaderView::Body { .. } => "reading the packet body"@,
        }
    }

    /// What the reader comes to where `input` is all there is to read, and what it
    /// leaves of it: no packet where it ends before one, and an error where it
    /// ends inside one. That error is not one to retry on, since the input will
    /// not grow.
    pub open spec fn on(self, input: Seq<u8>) -> (Result<Option<PacketView>, ErrorView>, Seq<u8>)
        decreases self.distance(),
    {
        if self is Head && input.len() == 0 {
            (Ok(None), input)
        } else if input.len() < self.wanted() {
            (Err(error::breach(self.purpose() + ": the packet is cut short"@)), Seq::empty())
        } else {
            let rest = input.skip(self.wanted() as int);
            match self.fed(input.take(self.wanted() as int)) {
                Err(error) => (Err(error), rest),
                Ok(FedView::Whole(packet)) => (Ok(Some(packet)), rest),
                Ok(FedView::More(next)) => next.on(rest),
            }
        }
    }
}

/// The remaining length that starts with `width` continued bytes, which count for
/// `value`, and goes on as `rest`.
spec fn behind(value: nat, width: nat, rest: wire::Length) -> wire::Length {
    match rest {
        wire::Length::Whole { value: more, width: wider } => wire::Length::Whole {
            value: value + wire::place(width) * more,
            width: width + wider,
        },
        short => short,
    }
}

/// Nothing read leaves a remaining length as it is.
proof fn lemma_behind_nothing(rest: wire::Length)
    ensures
        behind(0, 0, rest) == rest,
{
    assert(wire::place(0) == 1);
}

/// One byte more of a remaining length is one byte less of the rest.
proof fn lemma_behind_byte(value: nat, width: nat, rest: Seq<u8>)
    requires
        width < wire::MAX_WIDTH,
        rest.len() > 0,
    ensures
        ({
            let total = behind(
                value,
                width,
                wire::split_length(rest, (wire::MAX_WIDTH - width) as nat),
            );
            if rest[0] < 128 {
                total == wire::Length::Whole {
                    value: value + wire::place(width) * (rest[0] as nat),
                    width: width + 1,
                }
            } else {
                total == behind(
                    value + wire::place(width) * ((rest[0] - 128) as nat),
                    width + 1,
                    wire::split_length(rest.skip(1), (wire::MAX_WIDTH - width - 1) as nat),
                )
            }
        }),
{
    if rest[0] >= 128 {
        let place = wire::place(width);
        let low = (rest[0] - 128) as nat;
        assert(wire::place(width + 1) == 128 * place);
        if let wire::Length::Whole { value: more, width: wider } = wire::split_length(
            rest.skip(1),
            (wire::MAX_WIDTH - width - 1) as nat,
        ) {
            assert(value + place * (low + 128 * more) == value + place * low + (128 * place)
                * more) by (nonlinear_arith);
        }
    }
}

/// What a packet with this head comes to whose remaining length is `total`, of
/// which `width` bytes have been read, where `rest` is all there is to read.
spec fn finished(head: u8, total: wire::Length, width: nat, rest: Seq<u8>) -> (
    Result<Option<PacketView>, ErrorView>,
    Seq<u8>,
) {
    match total {
        wire::Length::CutShort => (
            Err(error::breach("reading the remaining length"@ + ": the packet is cut short"@)),
            Seq::empty(),
        ),
        wire::Length::TooLong => (
            Err(error::breach("a remaining length over four bytes"@)),
            rest.skip(wire::MAX_WIDTH - width),
        ),
        wire::Length::Whole { value, width: whole } => {
            let tail = rest.skip(whole - width);
            if tail.len() < value {
                (
                    Err(error::breach("reading the packet body"@ + ": the packet is cut short"@)),
                    Seq::empty(),
                )
            } else {
                (
                    match packet::decoded(head, tail.take(value as int)) {
                        Ok(packet) => Ok(Some(packet)),
                        Err(error) => Err(error),
                    },
                    tail.skip(value as int),
                )
            }
        },
    }
}

/// A reader that is given what it wants goes on as those bytes make it.
proof fn lemma_goes_on(reader: ReaderView, next: ReaderView, input: Seq<u8>)
    requires
        0 < reader.wanted() <= input.len(),
        reader.fed(input.take(reader.wanted() as int)) == Ok::<FedView, ErrorView>(
            FedView::More(next),
        ),
    ensures
        reader.on(input) == next.on(input.skip(reader.wanted() as int)),
{
}

/// The last byte of the remaining length leads to the body.
proof fn lemma_length_ends(head: u8, value: nat, width: nat, rest: Seq<u8>)
    requires
        rest.len() > 0,
        rest[0] < 128,
    ensures
        (ReaderView::Length { head, value, width }).on(rest) == finished(
            head,
            wire::Length::Whole {
                value: value + wire::place(width) * rest[0] as nat,
                width: width + 1,
            },
            width,
            rest,
        ),
{
    let length = value + wire::place(width) * rest[0] as nat;
    let body = ReaderView::Body { head, length };
    assert(rest.take(1)[0] == rest[0]);
    lemma_goes_on(ReaderView::Length { head, value, width }, body, rest);
}

/// A reader that is inside the remaining length reads it to its end.
proof fn lemma_length_is_read(head: u8, value: nat, width: nat, rest: Seq<u8>)
    requires
        width < wire::MAX_WIDTH,
    ensures
        (ReaderView::Length { head, value, width }).on(rest) == finished(
            head,
            behind(value, width, wire::split_length(rest, (wire::MAX_WIDTH - width) as nat)),
            width,
            rest,
        ),
    decreases wire::MAX_WIDTH - width,
{
    let reader = ReaderView::Length { head, value, width };
    if rest.len() > 0 {
        let byte = rest[0];
        let more = value + wire::place(width) * (byte % 128) as nat;
        let tail = rest.skip(1);
        let left = (wire::MAX_WIDTH - width - 1) as nat;
        assert(rest.take(1)[0] == byte);
        lemma_behind_byte(value, width, rest);
        if byte < 128 {
            lemma_length_ends(head, value, width, rest);
        } else if width + 1 < wire::MAX_WIDTH {
            lemma_length_is_read(head, more, width + 1, tail);
            let total = behind(more, width + 1, wire::split_length(tail, left));
            wire::lemma_split_length_bounds(tail, left);
            lemma_finished_byte(head, total, width, rest);
            lemma_goes_on(reader, ReaderView::Length { head, value: more, width: width + 1 }, rest);
        }
    }
}

/// One byte of a remaining length that goes on, read or to be read.
#[verifier::rlimit(30)]
proof fn lemma_finished_byte(head: u8, total: wire::Length, width: nat, rest: Seq<u8>)
    requires
        width + 1 < wire::MAX_WIDTH,
        rest.len() > 0,
        total matches wire::Length::Whole { width: whole, .. } ==> width + 1 < whole <= width
            + rest.len(),
        total is TooLong ==> wire::MAX_WIDTH <= width + rest.len(),
    ensures
        finished(head, total, width + 1, rest.skip(1)) == finished(head, total, width, rest),
{
    let tail = rest.skip(1);
    match total {
        wire::Length::CutShort => {},
        wire::Length::TooLong => {
            assert(tail.skip(wire::MAX_WIDTH - width - 1) =~= rest.skip(wire::MAX_WIDTH - width));
        },
        wire::Length::Whole { width: whole, .. } => {
            assert(tail.skip(whole - width - 1) =~= rest.skip(whole - width));
        },
    }
}

/// A packet that is read a few bytes at a time, as a reader wants them, reads as
/// the whole input does.
pub proof fn law_reader_reads_as_the_whole(input: Seq<u8>)
    ensures
        ReaderView::Head.on(input) == packet::reading(input),
{
    if input.len() > 0 {
        let rest = input.skip(1);
        let total = wire::split_length(rest, wire::MAX_WIDTH as nat);
        lemma_behind_nothing(total);
        lemma_length_is_read(input[0], 0, 0, rest);
        let next = ReaderView::Length { head: input[0], value: 0, width: 0 };
        lemma_goes_on(ReaderView::Head, next, input);
        wire::lemma_split_length_bounds(rest, wire::MAX_WIDTH as nat);
        match total {
            wire::Length::CutShort => {},
            wire::Length::TooLong => {
                assert(rest.skip(wire::MAX_WIDTH as int) =~= input.skip(1 + wire::MAX_WIDTH));
            },
            wire::Length::Whole { value, width } => {
                assert(rest.skip(width as int) =~= input.skip(1 + width as int));
            },
        }
    }
}

impl Reader {
    /// Before the first byte of a packet.
    pub fn new() -> (reader: Reader)
        ensures
            reader@ == ReaderView::Head,
    {
        Reader::Head
    }

    /// How many bytes to read next. Where no byte of a packet has been read yet,
    /// the peer may have closed instead.
    pub fn wants(&self) -> (count: usize)
        ensures
            count == self@.wanted(),
    {
        match self {
            Reader::Head => 1,
            Reader::Length { .. } => 1,
            Reader::Body { length, .. } => *length,
        }
    }

    /// No byte of a packet has been read yet.
    pub fn is_between_packets(&self) -> (between: bool)
        ensures
            between == (self@ is Head),
    {
        match self {
            Reader::Head => true,
            _ => false,
        }
    }

    /// What is being done, in the words of an error.
    pub fn doing(&self) -> (words: &'static str)
        ensures
            words@ == self@.purpose(),
    {
        match self {
            Reader::Head => "reading the fixed header",
            Reader::Length { .. } => "reading the remaining length",
            Reader::Body { .. } => "reading the packet body",
        }
    }

    /// Take in the bytes that were wanted. It fails on a remaining length of more
    /// than four bytes, and where the packet does not decode.
    pub fn feed(self, bytes: &[u8]) -> (result: Result<Fed, Error>)
        requires
            bytes@.len() == self@.wanted(),
        ensures
            error::outcome(result) == self@.fed(bytes@),
    {
        match self {
            Reader::Head => Ok(
                Fed::More(Reader::Length { head: bytes[0], length: RemainingLength::new() }),
            ),
            Reader::Length { head, length } => {
                match length.push(bytes[0])? {
                    Progress::More(length) => Ok(Fed::More(Reader::Length { head, length })),
                    Progress::Whole(length) => Ok(Fed::More(Reader::Body { head, length })),
                }
            },
            Reader::Body { head, .. } => Ok(Fed::Whole(decode(head, bytes)?)),
        }
    }
}

} // verus!
