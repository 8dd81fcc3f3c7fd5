//! Frames: the units in which a session sends commands and data.

use vstd::prelude::*;
use vstd::slice::{slice_subrange, slice_to_vec};

use bytes::{Bytes, BytesMut};

use crate::buffer::{
    buffer_advance, buffer_freeze, buffer_slice, buffer_split_to, buffer_view, bytes_clone, bytes_from, bytes_slice,
    bytes_view, no_bytes,
};
use crate::digits::{dec, dec_text};
use crate::error::{AnyTlsError, ErrorView, Result};
use crate::wire::{
    be_bytes, be_value, decoded, lemma_be_bytes_len, lemma_be_round_trip, lemma_be_value_bound, lemma_be_value_bytes,
    lemma_pow256_values, push_be, push_zeros, read_be, short_numbers_byte_by_byte, zeros, Decoded, Progress,
};

verus! {

/// The length of a frame without its data: command, stream and length.
pub const HEADER_SIZE: usize = 7;

/// The most data that one frame carries.
pub const MAX_FRAME_DATA_LEN: usize = 65535;

/// What a frame is for.
#[derive(Clone, Copy, Debug, PartialEq, Eq, Structural)]
pub enum Command {
    Waste,
    Syn,
    Psh,
    Fin,
    Settings,
    Alert,
    UpdatePaddingScheme,
    SynAck,
    HeartRequest,
    HeartResponse,
    ServerSettings,
}

/// The byte that stands for a command.
pub open spec fn command_byte(command: Command) -> u8 {
    match command {
        Command::Waste => 0,
        Command::Syn => 1,
        Command::Psh => 2,
        Command::Fin => 3,
        Command::Settings => 4,
        Command::Alert => 5,
        Command::UpdatePaddingScheme => 6,
        Command::SynAck => 7,
        Command::HeartRequest => 8,
        Command::HeartResponse => 9,
        Command::ServerSettings => 10,
    }
}

/// The command that a byte stands for.
pub open spec fn command_of(byte: u8) -> Option<Command> {
    match byte {
        0 => Some(Command::Waste),
        1 => Some(Command::Syn),
        2 => Some(Command::Psh),
        3 => Some(Command::Fin),
        4 => Some(Command::Settings),
        5 => Some(Command::Alert),
        6 => Some(Command::UpdatePaddingScheme),
        7 => Some(Command::SynAck),
        8 => Some(Command::HeartRequest),
        9 => Some(Command::HeartResponse),
        10 => Some(Command::ServerSettings),
        _ => None,
    }
}

impl Command {
    /// The command that a byte stands for.
    pub fn from_u8(value: u8) -> (command: Option<Self>)
        ensures
            command == command_of(value),
    {
        match value {
            0 => Some(Command::Waste),
            1 => Some(Command::Syn),
            2 => Some(Command::Psh),
            3 => Some(Command::Fin),
            4 => Some(Command::Settings),
            5 => Some(Command::Alert),
            6 => Some(Command::UpdatePaddingScheme),
            7 => Some(Command::SynAck),
            8 => Some(Command::HeartRequest),
            9 => Some(Command::HeartResponse),
            10 => Some(Command::ServerSettings),
            _ => None,
        }
    }

    /// The byte that stands for the command.
    pub fn to_u8(self) -> (byte: u8)
        ensures
            byte == command_byte(self),
    {
        match self {
            Command::Waste => 0,
            Command::Syn => 1,
            Command::Psh => 2,
            Command::Fin => 3,
            Command::Settings => 4,
            Command::Alert => 5,
            Command::UpdatePaddingScheme => 6,
            Command::SynAck => 7,
            Command::HeartRequest => 8,
            Command::HeartResponse => 9,
            Command::ServerSettings => 10,
        }
    }
}

/// A command with the stream that it concerns and its data.
#[derive(Debug, PartialEq, Eq)]
pub struct Frame {
    pub command: Command,
    pub stream_id: u32,
    pub data: Bytes,
}

/// The mathematical value of a [`Frame`].
#[verifier::ext_equal]
pub struct FrameView {
    pub command: Command,
    pub stream_id: u32,
    pub data: Seq<u8>,
}

impl View for Frame {
    type V = FrameView;

    open spec fn view(&self) -> FrameView {
        FrameView { command: self.command, stream_id: self.stream_id, data: bytes_view(self.data) }
    }
}

impl Clone for Frame {
    fn clone(&self) -> (copy: Self)
        ensures
            copy@ == self@,
    {
        Frame { command: self.command, stream_id: self.stream_id, data: bytes_clone(&self.data) }
    }
}

/// What stands before the data of a frame. The length field holds the low 16 bits of the length.
pub open spec fn header_bytes(frame: FrameView) -> Seq<u8> {
    seq![command_byte(frame.command)] + be_bytes(frame.stream_id as nat, 4) + be_bytes(
        (frame.data.len() % 0x1_0000) as nat,
        2,
    )
}

/// A frame as it is sent.
pub open spec fn frame_bytes(frame: FrameView) -> Seq<u8> {
    header_bytes(frame) + frame.data
}

/// A frame without data.
pub open spec fn empty_frame(command: Command, stream_id: u32) -> FrameView {
    FrameView { command, stream_id, data: Seq::empty() }
}

/// A frame of `n` bytes that mean nothing.
pub open spec fn waste(n: nat) -> FrameView {
    FrameView { command: Command::Waste, stream_id: 0, data: zeros(n) }
}

pub open spec fn too_large(n: nat) -> ErrorView {
    ErrorView::Protocol("frame data too large: "@ + dec(n) + " bytes"@)
}

pub open spec fn unknown_command(byte: u8) -> ErrorView {
    ErrorView::Protocol("unknown command: "@ + dec(byte as nat))
}

/// What the bytes at the start of a buffer make: a frame, or the need for more bytes, or an error.
pub open spec fn decode_frame(bytes: Seq<u8>) -> Decoded<FrameView> {
    if bytes.len() < HEADER_SIZE {
        Decoded::Need(HEADER_SIZE as int)
    } else {
        match command_of(bytes[0]) {
            None => Decoded::Failed(unknown_command(bytes[0])),
            Some(command) => {
                let total = HEADER_SIZE + be_value(bytes.subrange(5, 7));
                if bytes.len() < total {
                    Decoded::Need(total)
                } else {
                    Decoded::Done(
                        FrameView {
                            command,
                            stream_id: be_value(bytes.subrange(1, 5)) as u32,
                            data: bytes.subrange(HEADER_SIZE as int, total),
                        },
                        total,
                    )
                }
            },
        }
    }
}

proof fn lemma_header(frame: FrameView)
    ensures
        header_bytes(frame).len() == HEADER_SIZE,
        header_bytes(frame)[0] == command_byte(frame.command),
        header_bytes(frame).subrange(1, 5) == be_bytes(frame.stream_id as nat, 4),
        header_bytes(frame).subrange(5, 7) == be_bytes((frame.data.len() % 0x1_0000) as nat, 2),
        be_value(header_bytes(frame).subrange(1, 5)) == frame.stream_id,
        be_value(header_bytes(frame).subrange(5, 7)) == frame.data.len() % 0x1_0000,
        command_of(command_byte(frame.command)) == Some(frame.command),
{
    let header = header_bytes(frame);
    let length = (frame.data.len() % 0x1_0000) as nat;
    lemma_be_bytes_len(frame.stream_id as nat, 4);
    lemma_be_bytes_len(length, 2);
    lemma_pow256_values();
    lemma_be_round_trip(frame.stream_id as nat, 4);
    lemma_be_round_trip(length, 2);
    assert(header.subrange(1, 5) =~= be_bytes(frame.stream_id as nat, 4));
    assert(header.subrange(5, 7) =~= be_bytes(length, 2));
}

/// A frame that was sent is read back, whatever follows it.
pub proof fn frame_round_trip(frame: FrameView, rest: Seq<u8>)
    requires
        frame.data.len() <= MAX_FRAME_DATA_LEN,
    ensures
        decode_frame(frame_bytes(frame) + rest) == Decoded::Done(frame, frame_bytes(frame).len() as int),
        frame_bytes(frame).len() == HEADER_SIZE + frame.data.len(),
{
    let bytes = frame_bytes(frame) + rest;
    let header = header_bytes(frame);
    lemma_header(frame);
    assert(bytes.subrange(1, 5) =~= header.subrange(1, 5));
    assert(bytes.subrange(5, 7) =~= header.subrange(5, 7));
    assert(bytes.subrange(HEADER_SIZE as int, HEADER_SIZE + frame.data.len()) =~= frame.data);
}

/// A part of a frame is never taken for a frame: more bytes are asked for, and never more than
/// the frame has.
pub proof fn partial_frame_waits(frame: FrameView, n: int)
    requires
        frame.data.len() <= MAX_FRAME_DATA_LEN,
        0 <= n < frame_bytes(frame).len(),
    ensures
        decode_frame(frame_bytes(frame).take(n)) matches Decoded::Need(total) && n < total
            <= frame_bytes(frame).len(),
{
    let part = frame_bytes(frame).take(n);
    let header = header_bytes(frame);
    lemma_header(frame);
    if n >= HEADER_SIZE {
        assert(part[0] == header[0]);
        assert(part.subrange(5, 7) =~= header.subrange(5, 7));
    }
}

/// What was read is exactly what would be sent for it.
pub proof fn frame_spells_its_bytes(bytes: Seq<u8>)
    requires
        decode_frame(bytes) is Done,
    ensures
        decode_frame(bytes) matches Decoded::Done(frame, n) && 0 < n <= bytes.len() && bytes.take(n)
            == frame_bytes(frame) && frame.data.len() <= MAX_FRAME_DATA_LEN,
{
    let length = bytes.subrange(5, 7);
    let id = bytes.subrange(1, 5);
    lemma_pow256_values();
    lemma_be_value_bound(length);
    lemma_be_value_bound(id);
    lemma_be_value_bytes(length);
    lemma_be_value_bytes(id);
    let total = HEADER_SIZE + be_value(length);
    let frame = FrameView {
        command: command_of(bytes[0])->0,
        stream_id: be_value(id) as u32,
        data: bytes.subrange(HEADER_SIZE as int, total),
    };
    assert(header_bytes(frame) =~= bytes.take(7));
    assert(bytes.take(total) =~= frame_bytes(frame));
}

/// Bytes that come in later do not change what was read.
pub proof fn more_bytes_keep_the_frame(bytes: Seq<u8>, more: Seq<u8>)
    requires
        decode_frame(bytes) !is Need,
    ensures
        decode_frame(bytes + more) == decode_frame(bytes),
{
    let all = bytes + more;
    assert(all.subrange(1, 5) =~= bytes.subrange(1, 5));
    assert(all.subrange(5, 7) =~= bytes.subrange(5, 7));
    if decode_frame(bytes) is Done {
        let total = HEADER_SIZE + be_value(bytes.subrange(5, 7));
        assert(all.subrange(HEADER_SIZE as int, total) =~= bytes.subrange(HEADER_SIZE as int, total));
    }
}

fn too_large_error(len: usize) -> (err: AnyTlsError)
    ensures
        err@ == too_large(len as nat),
{
    let text = String::from_str("frame data too large: ").concat(dec_text(len as u64).as_str()).concat(" bytes");
    AnyTlsError::protocol(text.as_str())
}

fn unknown_command_error(byte: u8) -> (err: AnyTlsError)
    ensures
        err@ == unknown_command(byte),
{
    let text = String::from_str("unknown command: ").concat(dec_text(byte as u64).as_str());
    AnyTlsError::protocol(text.as_str())
}

impl Frame {
    /// A frame with this data, unless that is too much.
    pub fn new(command: Command, stream_id: u32, data: Vec<u8>) -> (frame: Result<Self>)
        ensures
            match frame {
                Ok(frame) => data@.len() <= MAX_FRAME_DATA_LEN && frame@ == (FrameView {
                    command,
                    stream_id,
                    data: data@,
                }),
                Err(err) => data@.len() > MAX_FRAME_DATA_LEN && err@ == too_large(data@.len()),
            },
    {
        if data.len() > MAX_FRAME_DATA_LEN {
            return Err(too_large_error(data.len()));
        }
        Ok(Frame { command, stream_id, data: bytes_from(data) })
    }

    /// A frame without data.
    pub fn empty(command: Command, stream_id: u32) -> (frame: Self)
        ensures
            frame@ == empty_frame(command, stream_id),
    {
        Frame { command, stream_id, data: no_bytes() }
    }

    /// The frame as it is sent.
    pub fn encode(&self) -> (bytes: Vec<u8>)
        ensures
            bytes@ == frame_bytes(self@),
    {
        let mut out: Vec<u8> = Vec::new();
        self.encode_into(&mut out);
        assert(out@ =~= frame_bytes(self@));
        out
    }

    /// Appends the frame as it is sent.
    pub fn encode_into(&self, out: &mut Vec<u8>)
        ensures
            final(out)@ == old(out)@ + frame_bytes(self@),
    {
        self.encode_header_into(out);
        out.extend_from_slice(bytes_slice(&self.data));
        assert(out@ =~= old(out)@ + frame_bytes(self@));
    }

    /// What stands before the data.
    pub fn encode_header(&self) -> (header: [u8; 7])
        ensures
            header@ == header_bytes(self@),
    {
        let mut out: Vec<u8> = Vec::new();
        self.encode_header_into(&mut out);
        proof {
            lemma_header(self@);
        }
        let header = [out[0], out[1], out[2], out[3], out[4], out[5], out[6]];
        assert(header@ =~= header_bytes(self@));
        header
    }

    /// Appends what stands before the data.
    pub fn encode_header_into(&self, out: &mut Vec<u8>)
        ensures
            final(out)@ == old(out)@ + header_bytes(self@),
    {
        out.push(self.command.to_u8());
        push_be(out, self.stream_id as u128, 4);
        let len: usize = bytes_slice(&self.data).len();
        push_be(out, (len % 0x1_0000) as u128, 2);
        assert(out@ =~= old(out)@ + header_bytes(self@));
    }

    /// Takes the frame at the start of the buffer out of it, once it is all there.
    pub fn decode(buffer: &mut BytesMut) -> (frame: Result<Option<Self>>)
        ensures
            match decode_frame(buffer_view(*old(buffer))) {
                Decoded::Done(value, consumed) => frame matches Ok(Some(f)) && f@ == value && buffer_view(
                    *final(buffer),
                ) == buffer_view(*old(buffer)).skip(consumed),
                Decoded::Need(_) => frame matches Ok(None) && buffer_view(*final(buffer)) == buffer_view(
                    *old(buffer),
                ),
                Decoded::Failed(error) => frame matches Err(err) && err@ == error && buffer_view(*final(buffer))
                    == buffer_view(*old(buffer)),
            },
    {
        let ghost bytes = buffer_view(*buffer);
        let (command, stream_id, data_len) = {
            let slice = buffer_slice(buffer);
            if slice.len() < HEADER_SIZE {
                return Ok(None);
            }
            let command = match Command::from_u8(slice[0]) {
                Some(command) => command,
                None => {
                    return Err(unknown_command_error(slice[0]));
                },
            };
            proof {
                lemma_pow256_values();
            }
            let stream_id: u32 = read_be(slice, 1, 5) as u32;
            let data_len: usize = read_be(slice, 5, 7) as usize;
            if slice.len() < HEADER_SIZE + data_len {
                return Ok(None);
            }
            (command, stream_id, data_len)
        };
        buffer_advance(buffer, HEADER_SIZE);
        let data = if data_len > 0 {
            buffer_freeze(buffer_split_to(buffer, data_len))
        } else {
            no_bytes()
        };
        proof {
            let total = HEADER_SIZE + data_len;
            assert(bytes.skip(HEADER_SIZE as int).skip(data_len as int) =~= bytes.skip(total));
            assert(bytes_view(data) =~= bytes.subrange(HEADER_SIZE as int, total));
        }
        Ok(Some(Frame { command, stream_id, data }))
    }

    /// Reads the frame at the start of what has come in. Until it is all there, the result says
    /// how many bytes are needed.
    pub fn read_from(bytes: &[u8]) -> (frame: Result<Progress<Self>>)
        ensures
            decoded(frame) == decode_frame(bytes@),
    {
        if bytes.len() < HEADER_SIZE {
            return Ok(Progress::Need { total: HEADER_SIZE });
        }
        let command = match Command::from_u8(bytes[0]) {
            Some(command) => command,
            None => {
                return Err(unknown_command_error(bytes[0]));
            },
        };
        proof {
            lemma_pow256_values();
        }
        let stream_id: u32 = read_be(bytes, 1, 5) as u32;
        let total: usize = HEADER_SIZE + read_be(bytes, 5, 7) as usize;
        if bytes.len() < total {
            return Ok(Progress::Need { total });
        }
        let data = bytes_from(slice_to_vec(slice_subrange(bytes, HEADER_SIZE, total)));
        Ok(Progress::Done { value: Frame { command, stream_id, data }, consumed: total })
    }
}

/// A frame of `padding_len` bytes that mean nothing, as it is sent.
pub fn waste_frame(padding_len: usize) -> (bytes: Result<Vec<u8>>)
    ensures
        match bytes {
            Ok(bytes) => padding_len <= MAX_FRAME_DATA_LEN && bytes@ == frame_bytes(waste(padding_len as nat)),
            Err(err) => padding_len > MAX_FRAME_DATA_LEN && err@ == too_large(padding_len as nat),
        },
{
    let mut data: Vec<u8> = Vec::new();
    push_zeros(&mut data, padding_len);
    assert(data@ =~= zeros(padding_len as nat));
    match Frame::new(Command::Waste, 0, data) {
        Ok(frame) => Ok(frame.encode()),
        Err(err) => Err(err),
    }
}

/// Appends a frame of `padding_len` bytes that mean nothing.
pub fn waste_frame_into(out: &mut Vec<u8>, padding_len: usize) -> (result: Result<()>)
    ensures
        match result {
            Ok(()) => padding_len <= MAX_FRAME_DATA_LEN && final(out)@ == old(out)@ + frame_bytes(
                waste(padding_len as nat),
            ),
            Err(err) => padding_len > MAX_FRAME_DATA_LEN && err@ == too_large(padding_len as nat) && final(out)@
                == old(out)@,
        },
{
    if padding_len > MAX_FRAME_DATA_LEN {
        return Err(too_large_error(padding_len));
    }
    out.push(Command::Waste.to_u8());
    push_be(out, 0, 4);
    push_be(out, padding_len as u128, 2);
    push_zeros(out, padding_len);
    assert(out@ =~= old(out)@ + frame_bytes(waste(padding_len as nat)));
    Ok(())
}

/// Commands have the numbers from zero to ten, each its own, and no other byte stands for one.
pub proof fn commands_have_their_numbers(command: Command, byte: u8)
    ensures
        command_byte(Command::Waste) == 0 && command_byte(Command::Syn) == 1 && command_byte(Command::Psh) == 2,
        command_byte(Command::Fin) == 3 && command_byte(Command::Settings) == 4 && command_byte(Command::Alert) == 5,
        command_byte(Command::UpdatePaddingScheme) == 6 && command_byte(Command::SynAck) == 7,
        command_byte(Command::HeartRequest) == 8 && command_byte(Command::HeartResponse) == 9,
        command_byte(Command::ServerSettings) == 10,
        command_of(command_byte(command)) == Some(command),
        command_of(byte) is Some <==> byte <= 10,
        command_of(byte) is Some ==> command_byte(command_of(byte)->0) == byte,
{
}

/// A frame is laid out as its command in one byte, its stream in four and the length of its data in
/// two, the most significant byte first, and then its data.
pub proof fn frames_have_this_layout(frame: FrameView)
    requires
        frame.data.len() <= 65535,
    ensures
        ({
            let bytes = frame_bytes(frame);
            let id = frame.stream_id;
            let n = frame.data.len();
            &&& bytes.len() == 7 + n
            &&& bytes[0] == command_byte(frame.command)
            &&& bytes[1] == id / 0x100_0000 && bytes[2] == id / 0x1_0000 % 256
            &&& bytes[3] == id / 256 % 256 && bytes[4] == id % 256
            &&& bytes[5] == n / 256 && bytes[6] == n % 256
            &&& bytes.skip(7) == frame.data
        }),
{
    short_numbers_byte_by_byte(frame.stream_id as nat);
    short_numbers_byte_by_byte((frame.data.len() % 0x1_0000) as nat);
    assert(frame_bytes(frame).skip(7) =~= frame.data);
}

/// A header whose first byte is no command is refused, whatever follows it.
pub proof fn unknown_commands_are_refused(bytes: Seq<u8>)
    requires
        bytes.len() >= 7,
        bytes[0] > 10,
    ensures
        decode_frame(bytes) == Decoded::<FrameView>::Failed(
            ErrorView::Protocol("unknown command: "@ + dec(bytes[0] as nat)),
        ),
{
}

/// Every header with a known command makes a frame, once as much data is there as it says.
pub proof fn known_commands_make_frames(bytes: Seq<u8>)
    requires
        bytes.len() >= 7,
        bytes[0] <= 10,
    ensures
        decode_frame(bytes) is Done <==> bytes.len() >= 7 + bytes[5] * 256 + bytes[6],
        decode_frame(bytes) is Need <==> bytes.len() < 7 + bytes[5] * 256 + bytes[6],
        decode_frame(bytes) matches Decoded::Done(frame, n) ==> n == 7 + bytes[5] * 256 + bytes[6] && frame.data
            == bytes.subrange(7, n) && command_byte(frame.command) == bytes[0],
{
    let length = bytes.subrange(5, 7);
    reveal_with_fuel(be_value, 3);
    assert(length.drop_last().drop_last() =~= Seq::empty());
    assert(length.drop_last().last() == bytes[5] && length.last() == bytes[6]);
}

/// Waste is a frame of no stream, whose data is all zero.
pub proof fn waste_is_zeros(n: nat, i: int)
    ensures
        waste(n).command == Command::Waste,
        waste(n).stream_id == 0,
        waste(n).data.len() == n,
        0 <= i < n ==> waste(n).data[i] == 0,
{
}

} // verus!
