//! The parts that packets are made of: bytes, big-endian integers,
//! length-prefixed data and text, and the remaining length of the fixed header.
use crate::error;
use crate::error::{protocol_error, Error, ErrorView};
use vstd::prelude::*;
use vstd::slice::{slice_subrange, slice_to_vec};
use vstd::utf8::*;

verus! {

/// The most a remaining length may say: four bytes of seven bits.
pub const MAX_REMAINING: usize = 268_435_455;

/// The most bytes a length-prefixed field may hold.
pub const MAX_FIELD: usize = 65_535;

/// `std::string::FromUtf8Error`, which nothing here looks into.
#[verifier::external_type_specification]
#[verifier::external_body]
pub struct ExFromUtf8Error(std::string::FromUtf8Error);

/// `String::from_utf8` succeeds exactly on well-formed UTF-8, and the string it
/// gives holds the characters that the bytes encode.
pub assume_specification[ String::from_utf8 ](vec: Vec<u8>) -> (result: Result<
    String,
    std::string::FromUtf8Error,
>)
    ensures
        result is Ok <==> valid_utf8(vec@),
        result matches Ok(text) ==> text@ == decode_utf8(vec@),
;

/// `value` as two bytes, the high one first.
pub open spec fn u16_bytes(value: u16) -> Seq<u8> {
    seq![(value / 256) as u8, (value % 256) as u8]
}

/// `data` behind its length.
pub open spec fn data_field(data: Seq<u8>) -> Seq<u8> {
    u16_bytes(data.len() as u16) + data
}

/// `text` as UTF-8 behind its length.
pub open spec fn text_field(text: Seq<char>) -> Seq<u8> {
    data_field(encode_utf8(text))
}

/// `data` is short enough for its length to be written.
pub open spec fn data_fits(data: Seq<u8>) -> bool {
    data.len() <= MAX_FIELD
}

/// The UTF-8 of `text` is short enough for its length to be written.
pub open spec fn text_fits(text: Seq<char>) -> bool {
    data_fits(encode_utf8(text))
}

/// The error of a field that is too long to write.
pub open spec fn field_too_long() -> ErrorView {
    error::breach("a string over 65535 bytes"@)
}

/// The first byte of `rest`, and what follows it.
pub open spec fn split_u8(rest: Seq<u8>) -> Result<(u8, Seq<u8>), ErrorView> {
    if rest.len() < 1 {
        Err(error::breach("a packet shorter than its header"@))
    } else {
        Ok((rest[0], rest.skip(1)))
    }
}

/// The big-endian integer at the start of `rest`, and what follows it.
pub open spec fn split_u16(rest: Seq<u8>) -> Result<(u16, Seq<u8>), ErrorView> {
    if rest.len() < 2 {
        Err(error::breach("a packet shorter than its header"@))
    } else {
        Ok(((256 * rest[0] + rest[1]) as u16, rest.skip(2)))
    }
}

/// The length-prefixed data at the start of `rest`, and what follows it.
pub open spec fn split_data(rest: Seq<u8>) -> Result<(Seq<u8>, Seq<u8>), ErrorView> {
    match split_u16(rest) {
        Err(error) => Err(error),
        Ok((length, tail)) => if tail.len() < length {
            Err(error::breach("a length that runs past the packet"@))
        } else {
            Ok((tail.take(length as int), tail.skip(length as int)))
        },
    }
}

/// The text that `data` is the UTF-8 of, if it is that of any.
#[verifier::opaque]
pub open spec fn text_of(data: Seq<u8>) -> Option<Seq<char>> {
    if valid_utf8(data) {
        Some(decode_utf8(data))
    } else {
        None
    }
}

/// The length-prefixed text at the start of `rest`, and what follows it.
pub open spec fn split_text(rest: Seq<u8>) -> Result<(Seq<char>, Seq<u8>), ErrorView> {
    match split_data(rest) {
        Err(error) => Err(error),
        Ok((data, tail)) => match text_of(data) {
            Some(text) => Ok((text, tail)),
            None => Err(error::breach("a string that is not UTF-8"@)),
        },
    }
}

/// `result` is the value that `split` says, and `to` is where in `body` the rest
/// that `split` says begins; or `result` is the error that `split` says.
pub open spec fn took<T: DeepView>(
    body: Seq<u8>,
    split: Result<(T::V, Seq<u8>), ErrorView>,
    to: usize,
    result: Result<T, Error>,
) -> bool {
    match split {
        Ok((value, rest)) => {
            &&& result matches Ok(taken) && taken.deep_view() == value
            &&& rest == body.skip(to as int)
        },
        Err(error) => result matches Err(failure) && failure@ == error,
    }
}

/// Append `value` to `out`, the high byte first.
pub(crate) fn put_u16(out: &mut Vec<u8>, value: u16)
    ensures
        final(out)@ == old(out)@ + u16_bytes(value),
{
    out.push((value / 256) as u8);
    out.push((value % 256) as u8);
    assert(out@ =~= old(out)@ + u16_bytes(value));
}

/// Append `data` to `out`.
pub(crate) fn put_slice(out: &mut Vec<u8>, data: &[u8])
    ensures
        final(out)@ == old(out)@ + data@,
{
    out.extend_from_slice(data);
    assert(out@ =~= old(out)@ + data@);
}

/// Append `data` to `out` behind its length.
pub(crate) fn bytes(out: &mut Vec<u8>, data: &[u8]) -> (result: Result<(), Error>)
    ensures
        data_fits(data@) ==> result is Ok && final(out)@ == old(out)@ + data_field(data@),
        !data_fits(data@) ==> (result matches Err(error) && error@ == field_too_long())
            && final(out)@ == old(out)@,
{
    if data.len() > MAX_FIELD {
        return Err(protocol_error("a string over 65535 bytes"));
    }
    put_u16(out, data.len() as u16);
    put_slice(out, data);
    assert(out@ =~= old(out)@ + data_field(data@));
    Ok(())
}

/// Append `text` to `out` as UTF-8 behind its length.
pub(crate) fn string(out: &mut Vec<u8>, text: &str) -> (result: Result<(), Error>)
    ensures
        text_fits(text@) ==> result is Ok && final(out)@ == old(out)@ + text_field(text@),
        !text_fits(text@) ==> (result matches Err(error) && error@ == field_too_long())
            && final(out)@ == old(out)@,
{
    bytes(out, text.as_bytes())
}

/// Take the byte of `body` at `at`.
pub(crate) fn take_u8(body: &[u8], at: &mut usize) -> (result: Result<u8, Error>)
    requires
        *old(at) <= body@.len(),
    ensures
        *final(at) <= body@.len(),
        took(body@, split_u8(body@.skip(*old(at) as int)), *final(at), result),
{
    if *at >= body.len() {
        return Err(protocol_error("a packet shorter than its header"));
    }
    let byte = body[*at];
    *at = *at + 1;
    assert(body@.skip(*old(at) as int).skip(1) =~= body@.skip(*at as int));
    Ok(byte)
}

/// Take the big-endian integer of `body` at `at`.
pub(crate) fn take_u16(body: &[u8], at: &mut usize) -> (result: Result<u16, Error>)
    requires
        *old(at) <= body@.len(),
    ensures
        *final(at) <= body@.len(),
        took(body@, split_u16(body@.skip(*old(at) as int)), *final(at), result),
{
    let high = take_u8(body, at)?;
    let low = take_u8(body, at)?;
    assert(body@.skip(*old(at) as int).skip(2) =~= body@.skip(*at as int));
    Ok(256 * (high as u16) + low as u16)
}

/// Take the length-prefixed data of `body` at `at`.
pub(crate) fn take_bytes(body: &[u8], at: &mut usize) -> (result: Result<Vec<u8>, Error>)
    requires
        *old(at) <= body@.len(),
    ensures
        *final(at) <= body@.len(),
        match split_data(body@.skip(*old(at) as int)) {
            Ok((data, rest)) => (result matches Ok(taken) && taken@ == data) && rest == body@.skip(
                *final(at) as int,
            ),
            Err(error) => result matches Err(failure) && failure@ == error,
        },
{
    let length = take_u16(body, at)? as usize;
    if body.len() - *at < length {
        return Err(protocol_error("a length that runs past the packet"));
    }
    let start = *at;
    let data = slice_to_vec(slice_subrange(body, start, start + length));
    *at = start + length;
    assert(data@ =~= body@.skip(start as int).take(length as int));
    assert(body@.skip(start as int).skip(length as int) =~= body@.skip(*at as int));
    Ok(data)
}

/// Take the length-prefixed text of `body` at `at`.
pub(crate) fn take_string(body: &[u8], at: &mut usize) -> (result: Result<String, Error>)
    requires
        *old(at) <= body@.len(),
    ensures
        *final(at) <= body@.len(),
        took(body@, split_text(body@.skip(*old(at) as int)), *final(at), result),
{
    let data = take_bytes(body, at)?;
    proof {
        reveal(text_of);
    }
    match String::from_utf8(data) {
        Ok(text) => Ok(text),
        Err(_) => Err(protocol_error("a string that is not UTF-8")),
    }
}

/// `length` in groups of seven bits, the lowest first, each byte but the last
/// marked as continued.
pub open spec fn length_bytes(length: nat) -> Seq<u8>
    decreases length,
{
    if length < 128 {
        seq![length as u8]
    } else {
        seq![(length % 128 + 128) as u8] + length_bytes(length / 128)
    }
}

/// What the bytes of a remaining length turn out to be.
pub enum Length {
    /// The length `value`, written in `width` bytes.
    Whole { value: nat, width: nat },
    /// The bytes end where another was due.
    CutShort,
    /// The last byte that may be used says that another follows.
    TooLong,
}

/// The remaining length at the start of `bytes`, in at most `limit` bytes.
pub open spec fn split_length(bytes: Seq<u8>, limit: nat) -> Length
    decreases limit,
{
    if limit == 0 {
        Length::TooLong
    } else if bytes.len() == 0 {
        Length::CutShort
    } else if bytes[0] < 128 {
        Length::Whole { value: bytes[0] as nat, width: 1 }
    } else {
        match split_length(bytes.skip(1), (limit - 1) as nat) {
            Length::Whole { value, width } => Length::Whole {
                value: (bytes[0] - 128) as nat + 128 * value,
                width: width + 1,
            },
            short => short,
        }
    }
}

/// The most bytes that a remaining length is written in.
pub const MAX_WIDTH: usize = 4;

/// What a group of seven bits counts for behind `width` others.
pub open spec fn place(width: nat) -> nat
    decreases width,
{
    if width == 0 {
        1
    } else {
        128 * place((width - 1) as nat)
    }
}

/// The places that a remaining length uses.
proof fn lemma_places()
    ensures
        place(0) == 1,
        place(1) == 128,
        place(2) == 16384,
        place(3) == 2097152,
{
    reveal_with_fuel(place, 4);
}

/// Append `length` to `out` as a remaining length.
pub(crate) fn put_length(out: &mut Vec<u8>, length: usize)
    ensures
        final(out)@ == old(out)@ + length_bytes(length as nat),
{
    let ghost start = out@;
    let mut remaining = length;
    while remaining >= 128
        invariant
            start + length_bytes(length as nat) == out@ + length_bytes(remaining as nat),
        decreases remaining,
    {
        let ghost before = out@;
        out.push((remaining % 128 + 128) as u8);
        proof {
            let byte = (remaining % 128 + 128) as u8;
            assert(before.push(byte) + length_bytes((remaining / 128) as nat) =~= before + (
            seq![byte] + length_bytes((remaining / 128) as nat)));
        }
        remaining = remaining / 128;
    }
    out.push(remaining as u8);
}

/// A remaining length of which some bytes have been read, each of them saying
/// that another follows.
pub struct RemainingLength {
    value: usize,
    shift: u32,
}

/// What one more byte makes of a remaining length.
pub enum Progress {
    /// Another byte follows.
    More(RemainingLength),
    /// The length is this.
    Whole(usize),
}

impl RemainingLength {
    #[verifier::type_invariant]
    closed spec fn wf(self) -> bool {
        &&& self.shift == 0 || self.shift == 7 || self.shift == 14 || self.shift == 21
        &&& self.value < place(self.shift as nat / 7)
    }

    /// How many bytes have been read.
    pub closed spec fn width(self) -> nat {
        self.shift as nat / 7
    }

    /// What the bytes read so far count for.
    pub closed spec fn value(self) -> nat {
        self.value as nat
    }

    /// Before the first byte.
    pub fn new() -> (length: RemainingLength)
        ensures
            length.width() == 0,
            length.value() == 0,
    {
        assert(place(0) == 1);
        RemainingLength { value: 0, shift: 0 }
    }

    /// Read one more byte.
    pub fn push(self, byte: u8) -> (result: Result<Progress, Error>)
        ensures
            self.width() < MAX_WIDTH,
            self.value() < place(self.width()),
            match result {
                Ok(Progress::Whole(length)) => {
                    &&& byte < 128
                    &&& length == self.value() + place(self.width()) * byte
                },
                Ok(Progress::More(length)) => {
                    &&& byte >= 128
                    &&& length.width() == self.width() + 1 < MAX_WIDTH
                    &&& length.value() == self.value() + place(self.width()) * (byte - 128)
                },
                Err(error) => {
                    &&& byte >= 128
                    &&& self.width() + 1 == MAX_WIDTH
                    &&& error@ == error::breach("a remaining length over four bytes"@)
                },
            },
    {
        proof {
            use_type_invariant(&self);
            lemma_places();
        }
        let shift = self.shift;
        let low: u32 = (byte & 0x7f) as u32;
        let group: u32 = low << shift;
        proof {
            assert(byte & 0x7f == byte % 128) by (bit_vector);
            assert(low << 0 == low) by (bit_vector);
            assert(low < 128 ==> low << 7 == low * 128) by (bit_vector);
            assert(low < 128 ==> low << 14 == low * 16384) by (bit_vector);
            assert(low < 128 ==> low << 21 == low * 2097152) by (bit_vector);
            if shift == 0 {
                assert(group == 1 * low);
            } else if shift == 7 {
                assert(group == 128 * low);
            } else if shift == 14 {
                assert(group == 16384 * low);
            } else {
                assert(group == 2097152 * low);
            }
            assert(group == place(self.width()) * low);
        }
        assert((byte & 0x80 == 0) == (byte < 128)) by (bit_vector);
        let value = self.value + group as usize;
        if byte & 0x80 == 0 {
            return Ok(Progress::Whole(value));
        }
        if shift + 7 > 21 {
            return Err(protocol_error("a remaining length over four bytes"));
        }
        Ok(Progress::More(RemainingLength { value, shift: shift + 7 }))
    }
}

/// A big-endian integer reads back as it was written, and leaves what follows it.
pub proof fn law_u16_reads_back(value: u16, rest: Seq<u8>)
    ensures
        split_u16(u16_bytes(value) + rest) == Ok::<(u16, Seq<u8>), ErrorView>(
            (value, rest),
        ),
{
    let all = u16_bytes(value) + rest;
    assert(256 * all[0] + all[1] == value);
    assert(all.skip(2) =~= rest);
}

/// Data that fits reads back as it was written, and leaves what follows it.
pub proof fn law_data_reads_back(data: Seq<u8>, rest: Seq<u8>)
    requires
        data_fits(data),
    ensures
        split_data(data_field(data) + rest) == Ok::<(Seq<u8>, Seq<u8>), ErrorView>(
            (data, rest),
        ),
{
    let length = data.len() as u16;
    law_u16_reads_back(length, data + rest);
    assert(data_field(data) + rest =~= u16_bytes(length) + (data + rest));
    assert((data + rest).take(length as int) =~= data);
    assert((data + rest).skip(length as int) =~= rest);
}

/// Text that fits reads back as it was written, and leaves what follows it.
pub proof fn law_text_reads_back(text: Seq<char>, rest: Seq<u8>)
    requires
        text_fits(text),
    ensures
        split_text(text_field(text) + rest) == Ok::<(Seq<char>, Seq<u8>), ErrorView>(
            (text, rest),
        ),
{
    law_data_reads_back(encode_utf8(text), rest);
    encode_utf8_valid_utf8(text);
    encode_utf8_decode_utf8(text);
    reveal(text_of);
}

/// A length that `limit` bytes can say reads back as it was written, whatever
/// follows it, and takes one byte at least and `limit` at most.
proof fn lemma_length_reads_back(length: nat, rest: Seq<u8>, limit: nat)
    requires
        limit > 0,
        length < place(limit),
    ensures
        1 <= length_bytes(length).len() <= limit,
        split_length(length_bytes(length) + rest, limit) == (Length::Whole {
            value: length,
            width: length_bytes(length).len(),
        }),
    decreases limit,
{
    let bytes = length_bytes(length);
    if length >= 128 {
        let low = (length % 128 + 128) as u8;
        assert(limit > 1) by {
            reveal_with_fuel(place, 2);
        }
        lemma_length_reads_back(length / 128, rest, (limit - 1) as nat);
        assert((bytes + rest).skip(1) =~= length_bytes(length / 128) + rest);
        assert((bytes + rest)[0] == low);
    } else {
        assert((bytes + rest)[0] == length);
    }
}

/// A remaining length reads back as it was written, whatever follows it, and
/// takes one to four bytes.
pub proof fn law_length_reads_back(length: nat, rest: Seq<u8>)
    requires
        length <= MAX_REMAINING,
    ensures
        1 <= length_bytes(length).len() <= MAX_WIDTH,
        split_length(length_bytes(length) + rest, MAX_WIDTH as nat) == (
        Length::Whole { value: length, width: length_bytes(length).len() }),
{
    assert(place(4) == 268_435_456) by {
        reveal_with_fuel(place, 5);
    }
    lemma_length_reads_back(length, rest, MAX_WIDTH as nat);
}

/// How many bytes a remaining length takes.
pub open spec fn length_width(length: nat) -> nat {
    if length < 128 {
        1
    } else if length < 16_384 {
        2
    } else if length < 2_097_152 {
        3
    } else {
        4
    }
}

/// A remaining length takes as many bytes as it needs, each but the last marked
/// as continued.
pub proof fn law_length_width(length: nat)
    requires
        length <= MAX_REMAINING,
    ensures
        length_bytes(length).len() == length_width(length),
        forall|i: int|
            0 <= i < length_width(length) ==> (#[trigger] length_bytes(length)[i] >= 128
                <==> i + 1 < length_width(length)),
{
    reveal_with_fuel(length_bytes, 4);
}

/// A remaining length is within the bytes that it is read from and within what
/// `limit` bytes can say; one that is too long has that many bytes.
pub proof fn lemma_split_length_bounds(bytes: Seq<u8>, limit: nat)
    ensures
        match split_length(bytes, limit) {
            Length::Whole { value, width } => {
                &&& 1 <= width <= limit
                &&& width <= bytes.len()
                &&& value < place(limit)
            },
            Length::CutShort => bytes.len() < limit,
            Length::TooLong => limit <= bytes.len(),
        },
    decreases limit,
{
    if limit > 0 && bytes.len() > 0 {
        lemma_split_length_bounds(bytes.skip(1), (limit - 1) as nat);
        assert(place(limit) == 128 * place((limit - 1) as nat));
        if limit == 1 {
            assert(place(0) == 1);
        } else {
            assert(place((limit - 1) as nat) >= 1) by {
                lemma_place_positive((limit - 1) as nat);
            }
        }
    }
}

/// Every place counts for something.
proof fn lemma_place_positive(width: nat)
    ensures
        place(width) >= 1,
    decreases width,
{
    if width > 0 {
        lemma_place_positive((width - 1) as nat);
    }
}

/// Data that was read fits, and takes what was read off the front.
pub proof fn lemma_data_read_fits(rest: Seq<u8>)
    ensures
        split_data(rest) matches Ok((data, tail)) ==> data_fits(data)
            && data_field(data).len() + tail.len() == rest.len(),
{
}

/// Text that was read fits, and takes what was read off the front.
pub proof fn lemma_text_read_fits(rest: Seq<u8>)
    ensures
        split_text(rest) matches Ok((text, tail)) ==> text_fits(text)
            && text_field(text).len() + tail.len() == rest.len(),
{
    lemma_data_read_fits(rest);
    reveal(text_of);
    if let Ok((data, tail)) = split_data(rest) {
        if valid_utf8(data) {
            decode_utf8_encode_utf8(data);
        }
    }
}

} // verus!
