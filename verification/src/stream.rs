//! Streams: what one user of a session reads and writes.

use vstd::prelude::*;
use vstd::slice::{slice_subrange, slice_to_vec};
use vstd::utf8::{encode_utf8, encode_utf8_decode_utf8, encode_utf8_valid_utf8};

use bytes::Bytes;

use crate::buffer::{bytes_slice, bytes_view, no_bytes};
use crate::error::{AnyTlsError, ErrorView, IoError, IoErrorKind, Result};
use crate::frame::{empty_frame, too_large, Command, Frame, FrameView, MAX_FRAME_DATA_LEN};
use crate::session::{
    closed_error, handle, handle_all, padding_changes_nothing, ActionView, CloseReasonView, Session, SessionView,
    StreamState,
};
use crate::writer::{flat, frames_bytes, frames_in, padded_plan, sendable};

verus! {

/// A stream as its user has it.
pub struct Stream {
    id: u32,
    read_buffer: Bytes,
    read_offset: usize,
    reported: bool,
    shutdown_sent: bool,
    shutdown_in_progress: bool,
}

/// The mathematical value of a [`Stream`].
#[verifier::ext_equal]
pub struct StreamView {
    pub id: u32,
    /// Data that has come in and has not been read.
    pub unread: Seq<u8>,
    /// The outcome of the handshake has been reported.
    pub reported: bool,
    /// The end of the stream has been sent.
    pub shutdown_sent: bool,
    /// The end of the stream waits to be sent.
    pub shutdown_in_progress: bool,
}

impl View for Stream {
    type V = StreamView;

    closed spec fn view(&self) -> StreamView {
        StreamView {
            id: self.id,
            unread: bytes_view(self.read_buffer).skip(self.read_offset as int),
            reported: self.reported,
            shutdown_sent: self.shutdown_sent,
            shutdown_in_progress: self.shutdown_in_progress,
        }
    }
}

/// How much of `available` bytes fits into `room`.
pub open spec fn fitting(available: int, room: int) -> int {
    if available < room {
        available
    } else {
        room
    }
}

/// Why a stream takes no data.
pub open spec fn write_refusal(
    stream: StreamView,
    closed: Option<CloseReasonView>,
) -> Option<(IoErrorKind, Seq<char>)> {
    if closed is Some {
        Some(closed_error(closed))
    } else if stream.shutdown_sent {
        Some((IoErrorKind::BrokenPipe, "stream is shut down"@))
    } else if stream.shutdown_in_progress {
        Some((IoErrorKind::BrokenPipe, "stream is shutting down"@))
    } else {
        None
    }
}

/// The frame that carries the start of this data.
pub open spec fn data_frame(id: u32, data: Seq<u8>) -> FrameView {
    FrameView {
        command: Command::Psh,
        stream_id: id,
        data: data.take(fitting(data.len() as int, MAX_FRAME_DATA_LEN as int)),
    }
}

/// The frame that reports the outcome of a handshake. No data stands for success.
pub open spec fn report_frame(id: u32, data: Seq<u8>) -> FrameView {
    FrameView { command: Command::SynAck, stream_id: id, data }
}

/// Whether a report is made: the other side has to understand it, and it is made once.
pub open spec fn reports(stream: StreamView, session: SessionView) -> bool {
    session.peer_version >= 2 && !stream.reported
}

impl Stream {
    #[verifier::type_invariant]
    spec fn well_formed(self) -> bool {
        self.read_offset <= bytes_view(self.read_buffer).len()
    }

    /// A stream that has just been opened.
    pub fn new(id: u32) -> (stream: Self)
        ensures
            stream@ == (StreamView {
                id,
                unread: Seq::empty(),
                reported: false,
                shutdown_sent: false,
                shutdown_in_progress: false,
            }),
    {
        let stream = Stream {
            id,
            read_buffer: no_bytes(),
            read_offset: 0,
            reported: false,
            shutdown_sent: false,
            shutdown_in_progress: false,
        };
        assert(stream@.unread =~= Seq::empty());
        stream
    }

    /// The stream's number.
    pub fn id(&self) -> (id: u32)
        ensures
            id == self@.id,
    {
        self.id
    }

    /// Reads from what has come in earlier, up to `room` bytes. With nothing left there, the next
    /// piece of data has to be waited for.
    pub fn read_buffered(&mut self, room: usize) -> (data: Option<Vec<u8>>)
        ensures
            match data {
                Some(data) => {
                    &&& old(self)@.unread.len() > 0
                    &&& data@ == old(self)@.unread.take(fitting(old(self)@.unread.len() as int, room as int))
                    &&& data@ + final(self)@.unread == old(self)@.unread
                    &&& final(self)@ == (StreamView { unread: final(self)@.unread, ..old(self)@ })
                },
                None => old(self)@.unread.len() == 0 && final(self)@ == old(self)@,
            },
    {
        proof {
            use_type_invariant(&*self);
        }
        let ghost unread = self@.unread;
        let len: usize = bytes_slice(&self.read_buffer).len();
        if self.read_offset == len {
            return None;
        }
        let left: usize = len - self.read_offset;
        let n: usize = if left < room { left } else { room };
        let end: usize = self.read_offset + n;
        let data = slice_to_vec(slice_subrange(bytes_slice(&self.read_buffer), self.read_offset, end));
        assert(data@ =~= unread.take(n as int));
        if end == len {
            self.read_offset = 0;
            self.read_buffer = no_bytes();
        } else {
            self.read_offset = end;
        }
        assert(self@.unread =~= unread.skip(n as int));
        assert(data@ + self@.unread =~= unread);
        Some(data)
    }

    /// Reads from a piece of data that has come in, up to `room` bytes, and keeps the rest.
    pub fn accept_inbound(&mut self, data: Bytes, room: usize) -> (read: Vec<u8>)
        requires
            old(self)@.unread.len() == 0,
        ensures
            read@ == bytes_view(data).take(fitting(bytes_view(data).len() as int, room as int)),
            read@ + final(self)@.unread == bytes_view(data),
            final(self)@ == (StreamView { unread: final(self)@.unread, ..old(self)@ }),
    {
        proof {
            use_type_invariant(&*self);
        }
        let ghost all = bytes_view(data);
        let len: usize = bytes_slice(&data).len();
        let n: usize = if len < room { len } else { room };
        let read = slice_to_vec(slice_subrange(bytes_slice(&data), 0, n));
        assert(read@ =~= all.take(n as int));
        if n < len {
            self.read_offset = 0;
            self.read_buffer = data;
            self.read_offset = n;
        }
        assert(self@.unread =~= all.skip(n as int));
        assert(read@ + self@.unread =~= all);
        read
    }

    /// No more data will come in: the stream has ended, or failed.
    pub fn end_of_input(&self, state: &StreamState) -> (result: core::result::Result<(), IoError>)
        ensures
            match result {
                Ok(()) => state@ is None,
                Err(err) => state@ is Some && (err.kind, err.message@) == closed_error(state@),
            },
    {
        if state.is_closed() {
            Err(state.io_error())
        } else {
            Ok(())
        }
    }

    /// Whether the stream takes this data: it refuses, or has nothing to send, or needs a place
    /// in the queue of the writing side.
    pub fn check_write(&self, state: &StreamState, buf: &[u8]) -> (result: core::result::Result<bool, IoError>)
        ensures
            match result {
                Ok(needs_place) => write_refusal(self@, state@) is None && needs_place == (buf@.len() > 0),
                Err(err) => write_refusal(self@, state@) == Some((err.kind, err.message@)),
            },
    {
        if state.is_closed() {
            return Err(state.io_error());
        }
        if self.shutdown_sent {
            return Err(
                IoError { kind: IoErrorKind::BrokenPipe, message: String::from_str("stream is shut down") },
            );
        }
        if self.shutdown_in_progress {
            return Err(
                IoError { kind: IoErrorKind::BrokenPipe, message: String::from_str("stream is shutting down") },
            );
        }
        Ok(buf.len() > 0)
    }

    /// The frame that carries as much of the data as one frame can, and how much that is.
    pub fn data_frame(&self, buf: &[u8]) -> (queued: (Frame, usize))
        ensures
            queued.0@ == data_frame(self@.id, buf@),
            queued.1 == fitting(buf@.len() as int, MAX_FRAME_DATA_LEN as int),
    {
        let len: usize = if buf.len() < MAX_FRAME_DATA_LEN { buf.len() } else { MAX_FRAME_DATA_LEN };
        let data = slice_to_vec(slice_subrange(buf, 0, len));
        assert(data@ =~= buf@.take(len as int));
        (Frame::new(Command::Psh, self.id, data).unwrap(), len)
    }

    /// Starts to end the stream. Unless it has ended already, or the session has, the end needs a
    /// place in the queue of the writing side.
    pub fn begin_shutdown(&mut self, session_closed: bool) -> (needs_place: bool)
        ensures
            needs_place == !(old(self)@.shutdown_sent || session_closed),
            final(self)@ == (StreamView {
                shutdown_sent: !needs_place,
                shutdown_in_progress: needs_place,
                ..old(self)@
            }),
    {
        proof {
            use_type_invariant(&*self);
        }
        if self.shutdown_sent || session_closed {
            self.shutdown_sent = true;
            self.shutdown_in_progress = false;
            false
        } else {
            self.shutdown_in_progress = true;
            true
        }
    }

    /// The frame that ends the stream.
    pub fn fin_frame(&self) -> (frame: Frame)
        ensures
            frame@ == empty_frame(Command::Fin, self@.id),
    {
        Frame::empty(Command::Fin, self.id)
    }

    /// The end has been queued, or can no longer be.
    pub fn finish_shutdown(&mut self)
        ensures
            final(self)@ == (StreamView { shutdown_sent: true, shutdown_in_progress: false, ..old(self)@ }),
    {
        proof {
            use_type_invariant(&*self);
        }
        self.shutdown_sent = true;
        self.shutdown_in_progress = false;
    }

    /// The frame to send when the user lets go of the stream, if its end has not been told yet.
    pub fn fin_on_drop(&self, state: &StreamState, session_closed: bool) -> (frame: Option<Frame>)
        ensures
            match frame {
                Some(frame) => !(self@.shutdown_sent || state@ is Some || session_closed) && frame@ == empty_frame(
                    Command::Fin,
                    self@.id,
                ),
                None => self@.shutdown_sent || state@ is Some || session_closed,
            },
    {
        if self.shutdown_sent || state.is_closed() || session_closed {
            None
        } else {
            Some(self.fin_frame())
        }
    }

    /// Reports that the stream is served.
    pub fn report_handshake_success(&mut self, session: &Session) -> (frame: Result<Option<Frame>>)
        ensures
            match frame {
                Ok(Some(frame)) => reports(old(self)@, session@) && !session@.closed && frame@ == report_frame(
                    old(self)@.id,
                    Seq::empty(),
                ),
                Ok(None) => !reports(old(self)@, session@),
                Err(err) => reports(old(self)@, session@) && session@.closed && err@ == ErrorView::SessionClosed,
            },
            final(self)@ == (StreamView {
                reported: old(self)@.reported || session@.peer_version >= 2,
                ..old(self)@
            }),
    {
        self.report_syn_ack(session, Vec::new())
    }

    /// Reports why the stream cannot be served.
    pub fn report_handshake_failure(&mut self, session: &Session, error: &str) -> (frame: Result<Option<Frame>>)
        ensures
            match frame {
                Ok(Some(frame)) => reports(old(self)@, session@) && encode_utf8(error@).len() <= MAX_FRAME_DATA_LEN
                    && !session@.closed && frame@ == report_frame(old(self)@.id, encode_utf8(error@)),
                Ok(None) => !reports(old(self)@, session@),
                Err(err) => reports(old(self)@, session@) && if encode_utf8(error@).len() > MAX_FRAME_DATA_LEN {
                    err@ == too_large(encode_utf8(error@).len())
                } else {
                    session@.closed && err@ == ErrorView::SessionClosed
                },
            },
            final(self)@ == (StreamView {
                reported: old(self)@.reported || session@.peer_version >= 2,
                ..old(self)@
            }),
    {
        self.report_syn_ack(session, slice_to_vec(error.as_bytes()))
    }

    fn report_syn_ack(&mut self, session: &Session, data: Vec<u8>) -> (frame: Result<Option<Frame>>)
        ensures
            match frame {
                Ok(Some(frame)) => reports(old(self)@, session@) && data@.len() <= MAX_FRAME_DATA_LEN
                    && !session@.closed && frame@ == report_frame(old(self)@.id, data@),
                Ok(None) => !reports(old(self)@, session@),
                Err(err) => reports(old(self)@, session@) && if data@.len() > MAX_FRAME_DATA_LEN {
                    err@ == too_large(data@.len())
                } else {
                    session@.closed && err@ == ErrorView::SessionClosed
                },
            },
            final(self)@ == (StreamView {
                reported: old(self)@.reported || session@.peer_version >= 2,
                ..old(self)@
            }),
    {
        proof {
            use_type_invariant(&*self);
        }
        if session.peer_version() < 2 || self.reported {
            return Ok(None);
        }
        self.reported = true;
        match Frame::new(Command::SynAck, self.id, data) {
            Ok(frame) => if session.is_closed() {
                Err(AnyTlsError::SessionClosed)
            } else {
                Ok(Some(frame))
            },
            Err(err) => Err(err),
        }
    }
}

/// What one side reports as the reason of a failure is what the other side's user is told.
pub proof fn failure_reason_arrives(client: SessionView, padding: Seq<u8>, id: u32, error: Seq<char>)
    requires
        client.streams.contains(id),
        encode_utf8(error).len() > 0,
    ensures
        handle(client, padding, report_frame(id, encode_utf8(error))).actions.last() == ActionView::CloseStream(
            id,
            CloseReasonView::RemoteError("remote: "@ + error),
        ),
        closed_error(Some(CloseReasonView::RemoteError("remote: "@ + error))) == (
            IoErrorKind::Other,
            "remote: "@ + error,
        ),
{
    encode_utf8_valid_utf8(error);
    encode_utf8_decode_utf8(error);
}

/// The frames that carry this data, each as much as it can.
pub open spec fn data_frames(id: u32, data: Seq<u8>) -> Seq<FrameView>
    decreases data.len(),
{
    if data.len() == 0 {
        Seq::empty()
    } else {
        seq![data_frame(id, data)] + data_frames(id, data.skip(fitting(data.len() as int, MAX_FRAME_DATA_LEN as int)))
    }
}

/// The data that these actions hand to a stream.
pub open spec fn delivered(actions: Seq<ActionView>, id: u32) -> Seq<u8>
    decreases actions.len(),
{
    if actions.len() == 0 {
        Seq::empty()
    } else {
        let rest = delivered(actions.drop_first(), id);
        match actions[0] {
            ActionView::Deliver(to, data) => if to == id {
                data + rest
            } else {
                rest
            },
            _ => rest,
        }
    }
}

/// All data that is written to a stream reaches the stream of that number on the other side, in
/// its order and nothing besides, and changes nothing else there.
pub proof fn written_data_arrives(peer: SessionView, padding: Seq<u8>, id: u32, data: Seq<u8>)
    requires
        peer.streams.contains(id),
    ensures
        sendable(data_frames(id, data)),
        handle_all(peer, padding, data_frames(id, data)).state == peer,
        handle_all(peer, padding, data_frames(id, data)).outcome == core::result::Result::<bool, ErrorView>::Ok(true),
        delivered(handle_all(peer, padding, data_frames(id, data)).actions, id) == data,
    decreases data.len(),
{
    let frames = data_frames(id, data);
    if data.len() > 0 {
        let n = fitting(data.len() as int, MAX_FRAME_DATA_LEN as int);
        let rest = data.skip(n);
        let tail = data_frames(id, rest);
        written_data_arrives(peer, padding, id, rest);
        assert(frames.drop_first() =~= tail);
        assert forall|i: int| 0 <= i < frames.len() implies (#[trigger] frames[i]).data.len() <= MAX_FRAME_DATA_LEN by {
            if i > 0 {
                assert(frames[i] == tail[i - 1]);
            }
        }
        let actions = handle_all(peer, padding, frames).actions;
        assert(actions.drop_first() =~= handle_all(peer, padding, tail).actions);
        assert(actions[0] == ActionView::Deliver(id, data.take(n)));
        assert(data.take(n) + rest =~= data);
    }
}

/// Data reaches the other side's stream also where its frames were padded on the way.
pub proof fn padded_data_arrives(peer: SessionView, padding: Seq<u8>, id: u32, data: Seq<u8>, sizes: Seq<i32>)
    requires
        peer.streams.contains(id),
        padded_plan(frames_bytes(data_frames(id, data)), sizes).result is Ok,
    ensures
        delivered(
            handle_all(
                peer,
                padding,
                frames_in(flat(padded_plan(frames_bytes(data_frames(id, data)), sizes).chunks)),
            ).actions,
            id,
        ) == data,
{
    written_data_arrives(peer, padding, id, data);
    padding_changes_nothing(peer, padding, data_frames(id, data), sizes);
}

/// A frame takes as much of the data as it can hold, from its start, and no data is taken twice: what
/// is left follows.
pub proof fn frames_take_the_start_of_the_data(id: u32, data: Seq<u8>)
    ensures
        ({
            let frame = data_frame(id, data);
            &&& frame.command == Command::Psh && frame.stream_id == id
            &&& data.len() <= 65535 ==> frame.data == data
            &&& data.len() > 65535 ==> frame.data == data.subrange(0, 65535)
            &&& frame.data + data.skip(fitting(data.len() as int, 65535)) == data
        }),
{
    let frame = data_frame(id, data);
    assert(data.len() <= 65535 ==> frame.data =~= data);
    assert(data.len() > 65535 ==> frame.data =~= data.subrange(0, 65535));
    assert(frame.data + data.skip(fitting(data.len() as int, 65535)) =~= data);
}

/// A stream takes data as long as neither side has ended it. The reason that the other side gave
/// comes first.
pub proof fn streams_take_data_until_they_end(stream: StreamView, closed: Option<CloseReasonView>, message: Seq<char>)
    ensures
        write_refusal(stream, closed) is None <==> closed is None && !stream.shutdown_sent
            && !stream.shutdown_in_progress,
        closed == Some(CloseReasonView::RemoteError(message)) ==> write_refusal(stream, closed) == Some(
            (IoErrorKind::Other, message),
        ),
        closed == Some(CloseReasonView::Closed) ==> write_refusal(stream, closed) == Some(
            (IoErrorKind::BrokenPipe, "stream is closed"@),
        ),
        closed is None && stream.shutdown_sent ==> write_refusal(stream, closed) == Some(
            (IoErrorKind::BrokenPipe, "stream is shut down"@),
        ),
        closed is None && !stream.shutdown_sent && stream.shutdown_in_progress ==> write_refusal(stream, closed)
            == Some((IoErrorKind::BrokenPipe, "stream is shutting down"@)),
{
}

/// A report is made to a peer of the second version or a later one, and once.
pub proof fn reports_are_made_once(stream: StreamView, session: SessionView)
    ensures
        reports(stream, session) <==> session.peer_version >= 2 && !stream.reported,
        !reports(StreamView { reported: true, ..stream }, session),
{
}

/// The report that a stream is served leaves it open on the other side and ends the wait there.
pub proof fn success_is_understood(client: SessionView, padding: Seq<u8>, id: u32, i: int)
    ensures
        ({
            let step = handle(client, padding, report_frame(id, Seq::empty()));
            &&& step.state.streams == client.streams
            &&& step.state.pending_syn_ack is None
            &&& 0 <= i < step.actions.len() ==> step.actions[i] == ActionView::CancelSynAckTimeout
        }),
{
}

/// The end that one side sends closes the stream on the other side.
pub proof fn ends_are_understood(peer: SessionView, padding: Seq<u8>, id: u32)
    requires
        peer.streams.contains(id),
    ensures
        handle(peer, padding, empty_frame(Command::Fin, id)).actions == seq![
            ActionView::CloseStream(id, CloseReasonView::Closed),
        ],
        !handle(peer, padding, empty_frame(Command::Fin, id)).state.streams.contains(id),
{
    assert(Seq::<ActionView>::empty().push(ActionView::CloseStream(id, CloseReasonView::Closed)) =~= seq![
        ActionView::CloseStream(id, CloseReasonView::Closed),
    ]);
}

} // verus!
