//! The writing side of a session: how frames are laid out in records while padding is on.

use vstd::prelude::*;
use vstd::slice::{slice_subrange, slice_to_vec};

use crate::buffer::bytes_slice;
use crate::digits::dec;
use crate::error::{error_text, IoError, IoErrorKind};
use crate::frame::{
    decode_frame, frame_bytes, frame_round_trip, frame_spells_its_bytes, header_bytes, more_bytes_keep_the_frame,
    too_large, waste, waste_frame_into, Command, Frame, FrameView, HEADER_SIZE, MAX_FRAME_DATA_LEN,
};
use crate::padding::{items_allow, scheme_items, scheme_stop, PaddingFactory, CHECK_MARK};
use crate::wire::Decoded;

verus! {

/// Why a record could not be written: the kind of the failure and its text.
pub type IoErrorView = (IoErrorKind, Seq<char>);

/// The records that are written one after the other, and how the writing ends if none of them
/// fails: with the length of the payload, or with an error.
#[verifier::ext_equal]
pub struct PlanView {
    pub chunks: Seq<Seq<u8>>,
    pub result: core::result::Result<int, IoErrorView>,
}

/// Records to be written in turn, and the outcome once they are.
pub struct WritePlan {
    pub chunks: Vec<Vec<u8>>,
    pub result: core::result::Result<usize, IoError>,
}

pub open spec fn chunk_views(chunks: Seq<Vec<u8>>) -> Seq<Seq<u8>> {
    chunks.map_values(|chunk: Vec<u8>| chunk@)
}

impl View for WritePlan {
    type V = PlanView;

    open spec fn view(&self) -> PlanView {
        PlanView {
            chunks: chunk_views(self.chunks@),
            result: match self.result {
                Ok(n) => Ok(n as int),
                Err(err) => Err((err.kind, err.message@)),
            },
        }
    }
}

/// All records together.
pub open spec fn flat(chunks: Seq<Seq<u8>>) -> Seq<u8>
    decreases chunks.len(),
{
    if chunks.len() == 0 {
        Seq::empty()
    } else {
        chunks[0] + flat(chunks.drop_first())
    }
}

/// The length of a record that a size stands for.
pub open spec fn record_size(size: i32) -> int {
    if size < 0 {
        0
    } else {
        size as int
    }
}

/// How much waste fills a record of `size` bytes up after `used` bytes of payload.
pub open spec fn fill(size: int, used: int) -> int {
    if size > used + HEADER_SIZE {
        size - used - HEADER_SIZE
    } else {
        0
    }
}

/// A waste frame of `n` bytes, or why there is none.
pub open spec fn waste_failure(n: int) -> Option<IoErrorView> {
    if n > MAX_FRAME_DATA_LEN {
        Some((IoErrorKind::Other, error_text(too_large(n as nat))))
    } else {
        None
    }
}

/// The records for what is left of a payload, given the sizes that are left. A record takes as
/// much payload as its size allows, and waste fills up the one that holds the end of the payload;
/// sizes behind it make records of waste alone, up to the first check mark. Payload that no size
/// covers makes the last record.
pub open spec fn records(payload: Seq<u8>, sizes: Seq<i32>) -> (Seq<Seq<u8>>, Option<IoErrorView>)
    decreases sizes.len(),
{
    if sizes.len() == 0 {
        if payload.len() > 0 {
            (seq![payload], None)
        } else {
            (Seq::empty(), None)
        }
    } else {
        let rest = sizes.drop_first();
        let size = record_size(sizes[0]);
        if sizes[0] == CHECK_MARK {
            if payload.len() > 0 {
                records(payload, rest)
            } else {
                (Seq::empty(), None)
            }
        } else if payload.len() > size {
            let (chunks, failure) = records(payload.skip(size), rest);
            (seq![payload.take(size)] + chunks, failure)
        } else {
            let n = if payload.len() > 0 {
                fill(size, payload.len() as int)
            } else {
                size
            };
            if waste_failure(n) is Some {
                (Seq::empty(), waste_failure(n))
            } else {
                let (chunks, failure) = records(Seq::empty(), rest);
                let tail = if payload.len() > 0 && n == 0 {
                    Seq::empty()
                } else {
                    frame_bytes(waste(n as nat))
                };
                (seq![payload + tail] + chunks, failure)
            }
        }
    }
}

/// The plan that cuts a payload into records of these sizes.
pub open spec fn padded_plan(payload: Seq<u8>, sizes: Seq<i32>) -> PlanView {
    let (chunks, failure) = records(payload, sizes);
    PlanView {
        chunks,
        result: match failure {
            None => Ok(payload.len() as int),
            Some(err) => Err(err),
        },
    }
}

/// The plan that writes a payload as it is.
pub open spec fn plain_plan(payload: Seq<u8>) -> PlanView {
    PlanView { chunks: seq![payload], result: Ok(payload.len() as int) }
}

/// Waste frames of these lengths, one after the other.
pub open spec fn wastes(lengths: Seq<nat>) -> Seq<u8>
    decreases lengths.len(),
{
    if lengths.len() == 0 {
        Seq::empty()
    } else {
        frame_bytes(waste(lengths[0])) + wastes(lengths.drop_first())
    }
}

/// The lengths of the waste frames that the records hold.
pub open spec fn waste_lengths(payload: Seq<u8>, sizes: Seq<i32>) -> Seq<nat>
    decreases sizes.len(),
{
    if sizes.len() == 0 {
        Seq::empty()
    } else {
        let rest = sizes.drop_first();
        let size = record_size(sizes[0]);
        if sizes[0] == CHECK_MARK {
            if payload.len() > 0 {
                waste_lengths(payload, rest)
            } else {
                Seq::empty()
            }
        } else if payload.len() > size {
            waste_lengths(payload.skip(size), rest)
        } else if payload.len() > 0 {
            let n = fill(size, payload.len() as int);
            if n == 0 {
                waste_lengths(Seq::empty(), rest)
            } else {
                seq![n as nat] + waste_lengths(Seq::empty(), rest)
            }
        } else {
            seq![size as nat] + waste_lengths(Seq::empty(), rest)
        }
    }
}

pub open spec fn all_fit(lengths: Seq<nat>) -> bool {
    forall|i: int| 0 <= i < lengths.len() ==> #[trigger] lengths[i] <= MAX_FRAME_DATA_LEN
}

/// Padding adds waste frames behind the payload and nothing else.
#[verifier::rlimit(40)]
pub proof fn padding_only_appends_waste(payload: Seq<u8>, sizes: Seq<i32>)
    requires
        records(payload, sizes).1 is None,
    ensures
        flat(records(payload, sizes).0) == payload + wastes(waste_lengths(payload, sizes)),
        all_fit(waste_lengths(payload, sizes)),
    decreases sizes.len(),
{
    let (chunks, failure) = records(payload, sizes);
    let lengths = waste_lengths(payload, sizes);
    if sizes.len() == 0 {
        reveal_with_fuel(flat, 2);
        if payload.len() > 0 {
            assert(chunks.drop_first() =~= Seq::empty());
        }
        assert(flat(chunks) =~= payload + wastes(lengths));
    } else {
        let rest = sizes.drop_first();
        let size = record_size(sizes[0]);
        if sizes[0] == CHECK_MARK {
            if payload.len() > 0 {
                padding_only_appends_waste(payload, rest);
            } else {
                assert(flat(chunks) =~= payload + wastes(lengths));
            }
        } else if payload.len() > size {
            let left = payload.skip(size);
            padding_only_appends_waste(left, rest);
            assert(chunks.drop_first() =~= records(left, rest).0);
            assert(flat(chunks) =~= payload + wastes(lengths));
        } else {
            padding_only_appends_waste(Seq::empty(), rest);
            assert(chunks.drop_first() =~= records(Seq::empty(), rest).0);
            let behind = waste_lengths(Seq::empty(), rest);
            let n = if payload.len() > 0 {
                fill(size, payload.len() as int)
            } else {
                size
            };
            if payload.len() > 0 && n == 0 {
                assert(lengths == behind);
            } else {
                assert(lengths =~= seq![n as nat] + behind);
                assert(lengths.drop_first() =~= behind);
            }
            assert(flat(chunks) =~= payload + wastes(lengths));
        }
    }
}

/// The frames at the start of these bytes, as far as they are whole.
pub open spec fn frames_in(bytes: Seq<u8>) -> Seq<FrameView>
    decreases bytes.len(),
{
    match decode_frame(bytes) {
        Decoded::Done(frame, n) => seq![frame] + frames_in(bytes.skip(n)),
        _ => Seq::empty(),
    }
}

/// What is left of these bytes behind the frames at their start.
pub open spec fn left_over(bytes: Seq<u8>) -> Seq<u8>
    decreases bytes.len(),
{
    match decode_frame(bytes) {
        Decoded::Done(_, n) => left_over(bytes.skip(n)),
        _ => bytes,
    }
}

/// It does not matter in which pieces bytes come in: reading the frames of a first piece, and then
/// those of what is left of it followed by the second, reads all frames.
pub proof fn pieces_do_not_matter(first: Seq<u8>, second: Seq<u8>)
    ensures
        frames_in(first + second) == frames_in(first) + frames_in(left_over(first) + second),
    decreases first.len(),
{
    let all = first + second;
    match decode_frame(first) {
        Decoded::Done(frame, n) => {
            more_bytes_keep_the_frame(first, second);
            frame_spells_its_bytes(first);
            let rest = first.skip(n);
            pieces_do_not_matter(rest, second);
            assert(all.skip(n) =~= rest + second);
            assert(frames_in(all) =~= frames_in(first) + frames_in(left_over(first) + second));
        },
        _ => {
            assert(frames_in(first) + frames_in(all) =~= frames_in(all));
        },
    }
}

/// Frames as they are sent, one after the other.
pub open spec fn frames_bytes(frames: Seq<FrameView>) -> Seq<u8>
    decreases frames.len(),
{
    if frames.len() == 0 {
        Seq::empty()
    } else {
        frame_bytes(frames[0]) + frames_bytes(frames.drop_first())
    }
}

pub open spec fn sendable(frames: Seq<FrameView>) -> bool {
    forall|i: int| 0 <= i < frames.len() ==> (#[trigger] frames[i]).data.len() <= MAX_FRAME_DATA_LEN
}

/// The frames that are not waste.
pub open spec fn meaningful(frames: Seq<FrameView>) -> Seq<FrameView> {
    frames.filter(|frame: FrameView| frame.command != Command::Waste)
}

/// Frames that were sent one after the other are all read back, in that order.
#[verifier::rlimit(40)]
pub proof fn frames_round_trip(frames: Seq<FrameView>, rest: Seq<u8>)
    requires
        sendable(frames),
    ensures
        frames_in(frames_bytes(frames) + rest) == frames + frames_in(rest),
    decreases frames.len(),
{
    if frames.len() == 0 {
        assert(frames_bytes(frames) + rest =~= rest);
        assert(frames + frames_in(rest) =~= frames_in(rest));
    } else {
        let tail = frames.drop_first();
        assert forall|i: int| 0 <= i < tail.len() implies (#[trigger] tail[i]).data.len() <= MAX_FRAME_DATA_LEN by {
            assert(tail[i] == frames[i + 1]);
        }
        let first = frame_bytes(frames[0]);
        let behind = frames_bytes(tail) + rest;
        frames_round_trip(tail, rest);
        lemma_first_frame(frames[0], behind);
        assert(frames_bytes(frames) + rest =~= first + behind);
        assert(seq![frames[0]] + (tail + frames_in(rest)) =~= frames + frames_in(rest));
    }
}

/// The first frame is read before the others.
proof fn lemma_first_frame(frame: FrameView, behind: Seq<u8>)
    requires
        frame.data.len() <= MAX_FRAME_DATA_LEN,
    ensures
        frames_in(frame_bytes(frame) + behind) == seq![frame] + frames_in(behind),
{
    let all = frame_bytes(frame) + behind;
    frame_round_trip(frame, behind);
    assert(all.skip(frame_bytes(frame).len() as int) =~= behind);
}

spec fn waste_frames(lengths: Seq<nat>) -> Seq<FrameView> {
    lengths.map_values(|n: nat| waste(n))
}

proof fn lemma_waste_frames(lengths: Seq<nat>)
    requires
        all_fit(lengths),
    ensures
        wastes(lengths) == frames_bytes(waste_frames(lengths)),
        sendable(waste_frames(lengths)),
        meaningful(waste_frames(lengths)) == Seq::<FrameView>::empty(),
    decreases lengths.len(),
{
    let frames = waste_frames(lengths);
    assert forall|i: int| 0 <= i < frames.len() implies (#[trigger] frames[i]).data.len() <= MAX_FRAME_DATA_LEN by {
        assert(frames[i] == waste(lengths[i]));
    }
    if lengths.len() > 0 {
        let tail = lengths.drop_first();
        assert forall|i: int| 0 <= i < tail.len() implies #[trigger] tail[i] <= MAX_FRAME_DATA_LEN by {
            assert(tail[i] == lengths[i + 1]);
        }
        lemma_waste_frames(tail);
        assert(frames.drop_first() =~= waste_frames(tail));
    }
    assert forall|i: int| 0 <= i < frames.len() implies (#[trigger] frames[i]).command == Command::Waste by {
        assert(frames[i] == waste(lengths[i]));
    }
    lemma_nothing_meaningful(frames);
}

proof fn lemma_nothing_meaningful(frames: Seq<FrameView>)
    requires
        forall|i: int| 0 <= i < frames.len() ==> (#[trigger] frames[i]).command == Command::Waste,
    ensures
        meaningful(frames) == Seq::<FrameView>::empty(),
    decreases frames.len(),
{
    reveal(Seq::filter);
    if frames.len() > 0 {
        let front = frames.drop_last();
        assert forall|i: int| 0 <= i < front.len() implies (#[trigger] front[i]).command == Command::Waste by {
            assert(front[i] == frames[i]);
        }
        lemma_nothing_meaningful(front);
        assert(frames[frames.len() - 1].command == Command::Waste);
    }
}

/// The other side sees the frames that were meant for it, however they were padded: what it
/// reads, without the waste, is what was sent, without the waste.
pub proof fn padding_is_invisible(frames: Seq<FrameView>, sizes: Seq<i32>)
    requires
        sendable(frames),
        padded_plan(frames_bytes(frames), sizes).result is Ok,
    ensures
        meaningful(frames_in(flat(padded_plan(frames_bytes(frames), sizes).chunks))) == meaningful(frames),
{
    let payload = frames_bytes(frames);
    let lengths = waste_lengths(payload, sizes);
    padding_only_appends_waste(payload, sizes);
    lemma_waste_frames(lengths);
    let behind = waste_frames(lengths);
    frames_round_trip(frames, wastes(lengths));
    frames_round_trip(behind, Seq::empty());
    assert(frames_bytes(behind) + Seq::<u8>::empty() =~= wastes(lengths));
    assert(frames_in(Seq::empty()) =~= Seq::<FrameView>::empty());
    assert(behind + Seq::<FrameView>::empty() =~= behind);
    let keep = |frame: FrameView| frame.command != Command::Waste;
    Seq::filter_distributes_over_add(frames, behind, keep);
    assert(meaningful(frames) + meaningful(behind) =~= meaningful(frames));
}

/// What the writing side keeps between frames.
pub struct PaddingWriteState {
    enabled: bool,
    packet_counter: u32,
    initial_buffering: bool,
    initial_buffer: Vec<u8>,
}

/// The mathematical value of a [`PaddingWriteState`].
#[verifier::ext_equal]
pub struct WriteStateView {
    /// Padding is on.
    pub enabled: bool,
    /// The packets that have been written while it was.
    pub packet_counter: int,
    /// The first control frames wait for the first other frame.
    pub initial_buffering: bool,
    /// The frames that wait.
    pub initial_buffer: Seq<u8>,
}

impl View for PaddingWriteState {
    type V = WriteStateView;

    closed spec fn view(&self) -> WriteStateView {
        WriteStateView {
            enabled: self.enabled,
            packet_counter: self.packet_counter as int,
            initial_buffering: self.initial_buffering,
            initial_buffer: self.initial_buffer@,
        }
    }
}

/// What is to be done for a frame.
pub enum FrameWrite {
    /// The frame is written as it is, header and data.
    Unpadded,
    /// The frame waits for the next one.
    Buffered,
    /// These records are written.
    Records(WritePlan),
}

/// The mathematical value of a [`FrameWrite`].
pub enum FrameWriteView {
    Unpadded,
    Buffered,
    Records(PlanView),
}

impl View for FrameWrite {
    type V = FrameWriteView;

    open spec fn view(&self) -> FrameWriteView {
        match self {
            FrameWrite::Unpadded => FrameWriteView::Unpadded,
            FrameWrite::Buffered => FrameWriteView::Buffered,
            FrameWrite::Records(plan) => FrameWriteView::Records(plan@),
        }
    }
}

/// Whether this payload would be padded.
pub open spec fn pads_next(state: WriteStateView, stop: int) -> bool {
    state.enabled && state.packet_counter + 1 < stop
}

/// The state after a payload has been written: it is counted while padding is on, and padding
/// goes off for good at the packet at which the scheme stops.
pub open spec fn after_payload(state: WriteStateView, stop: int) -> WriteStateView {
    if state.enabled {
        WriteStateView {
            enabled: state.packet_counter + 1 < stop,
            packet_counter: state.packet_counter + 1,
            ..state
        }
    } else {
        state
    }
}

/// The plan for a payload, given the sizes that were drawn for it.
pub open spec fn payload_plan(state: WriteStateView, stop: int, sizes: Seq<i32>, payload: Seq<u8>) -> PlanView {
    if pads_next(state, stop) {
        padded_plan(payload, sizes)
    } else {
        plain_plan(payload)
    }
}

/// Whether a frame is held back to share the first record with the frame behind it.
pub open spec fn holds_back(state: WriteStateView, command: Command) -> bool {
    state.initial_buffering && (command == Command::Settings || command == Command::Syn)
}

/// Whether frames are past all padding.
pub open spec fn past_padding(state: WriteStateView) -> bool {
    !state.enabled && state.initial_buffer.len() == 0
}

/// The state once the frames that waited have been taken.
pub open spec fn released(state: WriteStateView) -> WriteStateView {
    if state.initial_buffer.len() == 0 {
        state
    } else {
        WriteStateView { initial_buffering: false, initial_buffer: Seq::empty(), ..state }
    }
}

/// What is done for a frame, given the sizes that were drawn for it.
pub open spec fn frame_write(
    state: WriteStateView,
    stop: int,
    sizes: Seq<i32>,
    frame: FrameView,
) -> FrameWriteView {
    if past_padding(state) {
        FrameWriteView::Unpadded
    } else if holds_back(state, frame.command) {
        FrameWriteView::Buffered
    } else {
        FrameWriteView::Records(
            payload_plan(released(state), stop, sizes, state.initial_buffer + frame_bytes(frame)),
        )
    }
}

/// The state after a frame.
pub open spec fn after_frame(state: WriteStateView, stop: int, frame: FrameView) -> WriteStateView {
    if past_padding(state) {
        state
    } else if holds_back(state, frame.command) {
        WriteStateView { initial_buffer: state.initial_buffer + frame_bytes(frame), ..state }
    } else {
        after_payload(released(state), stop)
    }
}

/// Once padding is off it stays off.
pub proof fn padding_stays_off(state: WriteStateView, stop: int, frame: FrameView)
    requires
        !state.enabled,
    ensures
        !after_frame(state, stop, frame).enabled,
{
}

/// What goes out for a frame.
pub open spec fn written_bytes(write: FrameWriteView, frame: FrameView) -> Seq<u8> {
    match write {
        FrameWriteView::Unpadded => frame_bytes(frame),
        FrameWriteView::Buffered => Seq::empty(),
        FrameWriteView::Records(plan) => flat(plan.chunks),
    }
}

/// The frames that wait after this one, if these waited before.
pub open spec fn still_waiting(state: WriteStateView, waiting: Seq<FrameView>, frame: FrameView) -> Seq<FrameView> {
    if !past_padding(state) && holds_back(state, frame.command) {
        waiting.push(frame)
    } else {
        Seq::empty()
    }
}

proof fn lemma_frames_bytes_push(frames: Seq<FrameView>, frame: FrameView)
    ensures
        frames_bytes(frames.push(frame)) == frames_bytes(frames) + frame_bytes(frame),
    decreases frames.len(),
{
    let all = frames.push(frame);
    if frames.len() == 0 {
        reveal_with_fuel(frames_bytes, 2);
        assert(all.drop_first() =~= Seq::empty());
        assert(frames_bytes(all) =~= frames_bytes(frames) + frame_bytes(frame));
    } else {
        lemma_frames_bytes_push(frames.drop_first(), frame);
        assert(all.drop_first() =~= frames.drop_first().push(frame));
        assert(frames_bytes(all) =~= frames_bytes(frames) + frame_bytes(frame));
    }
}

/// Every frame arrives once and in its place: what the other side makes of the bytes that go out
/// for a frame, followed by the frames that wait behind it, is what waited before, followed by
/// the frame.
#[verifier::rlimit(40)]
pub proof fn written_frames_arrive(
    state: WriteStateView,
    stop: int,
    sizes: Seq<i32>,
    waiting: Seq<FrameView>,
    frame: FrameView,
)
    requires
        state.initial_buffer == frames_bytes(waiting),
        sendable(waiting),
        frame.data.len() <= MAX_FRAME_DATA_LEN,
        frame_write(state, stop, sizes, frame) matches FrameWriteView::Records(plan) ==> plan.result is Ok,
    ensures
        after_frame(state, stop, frame).initial_buffer == frames_bytes(still_waiting(state, waiting, frame)),
        meaningful(frames_in(written_bytes(frame_write(state, stop, sizes, frame), frame))) + meaningful(
            still_waiting(state, waiting, frame),
        ) == meaningful(waiting.push(frame)),
{
    let all = waiting.push(frame);
    let left = still_waiting(state, waiting, frame);
    let out = written_bytes(frame_write(state, stop, sizes, frame), frame);
    assert forall|i: int| 0 <= i < all.len() implies (#[trigger] all[i]).data.len() <= MAX_FRAME_DATA_LEN by {
        if i < waiting.len() {
            assert(all[i] == waiting[i]);
        }
    }
    lemma_frames_bytes_push(waiting, frame);
    reveal(Seq::filter);
    if past_padding(state) {
        if waiting.len() > 0 {
            frame_round_trip(waiting[0], Seq::empty());
        }
        assert(waiting =~= Seq::empty());
        assert(frames_bytes(waiting) + frame_bytes(frame) =~= frame_bytes(frame));
    }
    if !past_padding(state) && holds_back(state, frame.command) {
        assert(out =~= Seq::empty());
        assert(frames_in(out) =~= Seq::<FrameView>::empty());
        assert(meaningful(frames_in(out)) + meaningful(all) =~= meaningful(all));
    } else {
        assert(meaningful(left) =~= Seq::<FrameView>::empty());
        if !past_padding(state) && pads_next(released(state), stop) {
            padding_is_invisible(all, sizes);
        } else {
            let payload = frames_bytes(all);
            if !past_padding(state) {
                reveal_with_fuel(flat, 2);
                assert(seq![payload].drop_first() =~= Seq::empty());
                assert(flat(seq![payload]) =~= payload);
            }
            frames_round_trip(all, Seq::empty());
            assert(payload + Seq::<u8>::empty() =~= payload);
            assert(all + frames_in(Seq::empty()) =~= all);
        }
        assert(meaningful(all) + meaningful(left) =~= meaningful(all));
    }
}

/// The payload cut into records of these sizes.
pub fn plan_records(payload: &[u8], sizes: &[i32]) -> (plan: WritePlan)
    ensures
        plan@ == padded_plan(payload@, sizes@),
{
    let mut chunks: Vec<Vec<u8>> = Vec::new();
    let mut remaining: &[u8] = payload;
    let mut i: usize = 0;
    let ghost all = records(payload@, sizes@);
    assert(sizes@.skip(0) =~= sizes@);
    assert(chunk_views(chunks@) + records(remaining@, sizes@).0 =~= all.0);
    loop
        invariant_except_break
            i <= sizes@.len(),
            all == records(payload@, sizes@),
            chunk_views(chunks@) + records(remaining@, sizes@.skip(i as int)).0 == all.0,
            records(remaining@, sizes@.skip(i as int)).1 == all.1,
        ensures
            all == records(payload@, sizes@),
            chunk_views(chunks@) == all.0,
            all.1 is None,
        decreases sizes@.len() - i,
    {
        let ghost before = chunk_views(chunks@);
        let ghost left = sizes@.skip(i as int);
        if i == sizes.len() {
            if remaining.len() > 0 {
                chunks.push(slice_to_vec(remaining));
                assert(chunk_views(chunks@) =~= before + seq![remaining@]);
            } else {
                assert(before + Seq::<Seq<u8>>::empty() =~= before);
            }
            break;
        }
        let size: i32 = sizes[i];
        assert(left[0] == size);
        assert(left.drop_first() =~= sizes@.skip(i + 1));
        if size == CHECK_MARK {
            if remaining.len() == 0 {
                assert(before + Seq::<Seq<u8>>::empty() =~= before);
                break;
            }
            i = i + 1;
            continue;
        }
        let n: usize = if size < 0 { 0 } else { size as usize };
        if remaining.len() > n {
            let head = slice_to_vec(slice_subrange(remaining, 0, n));
            let tail = slice_subrange(remaining, n, remaining.len());
            assert(head@ =~= remaining@.take(n as int));
            assert(tail@ =~= remaining@.skip(n as int));
            let ghost rest = records(tail@, left.drop_first()).0;
            chunks.push(head);
            assert(chunk_views(chunks@) =~= before.push(head@));
            assert(before.push(head@) + rest =~= before + (seq![head@] + rest));
            remaining = tail;
        } else {
            let used: usize = remaining.len();
            let waste_len: usize = if used > 0 {
                if n > HEADER_SIZE && n - HEADER_SIZE > used { n - HEADER_SIZE - used } else { 0 }
            } else {
                n
            };
            let mut chunk = slice_to_vec(remaining);
            if used == 0 || waste_len > 0 {
                match waste_frame_into(&mut chunk, waste_len) {
                    Ok(()) => {},
                    Err(err) => {
                        assert(before + Seq::<Seq<u8>>::empty() =~= before);
                        let message = err.message();
                        return WritePlan { chunks, result: Err(IoError { kind: IoErrorKind::Other, message }) };
                    },
                }
            }
            let ghost tail = if remaining@.len() > 0 && waste_len == 0 {
                Seq::empty()
            } else {
                frame_bytes(waste(waste_len as nat))
            };
            assert(chunk@ =~= remaining@ + tail);
            remaining = slice_subrange(remaining, used, used);
            assert(remaining@ =~= Seq::empty());
            let ghost rest = records(remaining@, left.drop_first()).0;
            let ghost written = chunk@;
            chunks.push(chunk);
            assert(chunk_views(chunks@) =~= before.push(written));
            assert(before.push(written) + rest =~= before + (seq![written] + rest));
        }
        i = i + 1;
    }
    WritePlan { chunks, result: Ok(payload.len()) }
}

/// The payload as one record.
fn plan_plain(payload: &[u8]) -> (plan: WritePlan)
    ensures
        plan@ == plain_plan(payload@),
{
    let record = slice_to_vec(payload);
    let chunks: Vec<Vec<u8>> = vec![record];
    assert(chunk_views(chunks@) =~= seq![payload@]);
    WritePlan { chunks, result: Ok(payload.len()) }
}

impl PaddingWriteState {
    #[verifier::type_invariant]
    spec fn well_formed(self) -> bool {
        self.enabled ==> self.packet_counter < u32::MAX
    }

    /// The state before the first frame. Only a client pads.
    pub fn new(send_padding: bool) -> (state: Self)
        ensures
            state@ == (WriteStateView {
                enabled: send_padding,
                packet_counter: 0,
                initial_buffering: send_padding,
                initial_buffer: Seq::empty(),
            }),
    {
        PaddingWriteState {
            enabled: send_padding,
            packet_counter: 0,
            initial_buffering: send_padding,
            initial_buffer: Vec::new(),
        }
    }

    /// The packet for which sizes are drawn next, if the next payload is to be padded.
    pub fn next_packet(&self, stop: u32) -> (packet: Option<u32>)
        ensures
            packet == if pads_next(self@, stop as int) {
                Some((self@.packet_counter + 1) as u32)
            } else {
                None
            },
    {
        proof {
            use_type_invariant(self);
        }
        if self.enabled && self.packet_counter + 1 < stop {
            Some(self.packet_counter + 1)
        } else {
            None
        }
    }

    /// The records for a payload, given the sizes that were drawn for it.
    pub fn write_payload(&mut self, payload: &[u8], stop: u32, sizes: &[i32]) -> (plan: WritePlan)
        ensures
            plan@ == payload_plan(old(self)@, stop as int, sizes@, payload@),
            final(self)@ == after_payload(old(self)@, stop as int),
    {
        proof {
            use_type_invariant(&*self);
        }
        if !self.enabled {
            return plan_plain(payload);
        }
        let packet: u32 = self.packet_counter + 1;
        if packet >= stop {
            self.enabled = false;
            self.packet_counter = packet;
            return plan_plain(payload);
        }
        self.packet_counter = packet;
        plan_records(payload, sizes)
    }

    /// The records for a payload under a padding scheme. Their sizes are drawn anew.
    pub fn write_conn(&mut self, payload: &[u8], padding: &PaddingFactory) -> (plan: WritePlan)
        ensures
            scheme_stop(padding@) is Some,
            final(self)@ == after_payload(old(self)@, scheme_stop(padding@)->0 as int),
            !pads_next(old(self)@, scheme_stop(padding@)->0 as int) ==> plan@ == plain_plan(payload@),
            pads_next(old(self)@, scheme_stop(padding@)->0 as int) ==> exists|sizes: Seq<i32>|
                #![auto]
                items_allow(scheme_items(padding@, (old(self)@.packet_counter + 1) as u32), sizes) && plan@
                    == padded_plan(payload@, sizes),
    {
        let stop = padding.stop();
        let sizes: Vec<i32> = match self.next_packet(stop) {
            Some(packet) => padding.generate_record_payload_sizes(packet),
            None => Vec::new(),
        };
        self.write_payload(payload, stop, sizes.as_slice())
    }

    /// What is to be done for a frame, given the sizes that were drawn for it.
    pub fn write_frame_sized(&mut self, frame: &Frame, stop: u32, sizes: &[i32]) -> (write: FrameWrite)
        ensures
            write@ == frame_write(old(self)@, stop as int, sizes@, frame@),
            final(self)@ == after_frame(old(self)@, stop as int, frame@),
    {
        proof {
            use_type_invariant(&*self);
        }
        if !self.enabled && self.initial_buffer.len() == 0 {
            return FrameWrite::Unpadded;
        }
        let mut payload: Vec<u8> = Vec::new();
        std::mem::swap(&mut payload, &mut self.initial_buffer);
        let waiting: bool = payload.len() > 0;
        frame.encode_into(&mut payload);
        if self.initial_buffering && (frame.command == Command::Settings || frame.command == Command::Syn) {
            self.initial_buffer = payload;
            return FrameWrite::Buffered;
        }
        if waiting {
            self.initial_buffering = false;
        }
        assert(self@ =~= released(old(self)@));
        FrameWrite::Records(self.write_payload(payload.as_slice(), stop, sizes))
    }

    /// What is to be done for a frame under a padding scheme.
    pub fn write_frame(&mut self, frame: &Frame, padding: &PaddingFactory) -> (write: FrameWrite)
        ensures
            scheme_stop(padding@) is Some,
            final(self)@ == after_frame(old(self)@, scheme_stop(padding@)->0 as int, frame@),
            exists|sizes: Seq<i32>|
                #![auto]
                (pads_next(old(self)@, scheme_stop(padding@)->0 as int) ==> items_allow(
                    scheme_items(padding@, (old(self)@.packet_counter + 1) as u32),
                    sizes,
                )) && write@ == frame_write(old(self)@, scheme_stop(padding@)->0 as int, sizes, frame@),
    {
        let stop = padding.stop();
        let sizes: Vec<i32> = match self.next_packet(stop) {
            Some(packet) => padding.generate_record_payload_sizes(packet),
            None => Vec::new(),
        };
        self.write_frame_sized(frame, stop, sizes.as_slice())
    }
}

/// How much of a frame that goes out as it is has been written.
pub struct UnpaddedWrite {
    header: [u8; 7],
    header_pos: usize,
    data_pos: usize,
    data_len: usize,
}

impl UnpaddedWrite {
    #[verifier::type_invariant]
    spec fn well_formed(self) -> bool {
        &&& self.header_pos <= HEADER_SIZE
        &&& self.data_pos <= self.data_len
        &&& self.header_pos < HEADER_SIZE ==> self.data_pos == 0
    }

    /// How many bytes have been written, header and data together.
    pub closed spec fn written(self) -> int {
        self.header_pos + self.data_pos
    }

    /// How many bytes there are to write, header and data together.
    pub closed spec fn total(self) -> int {
        HEADER_SIZE + self.data_len
    }

    /// The header of the frame.
    pub closed spec fn header(self) -> Seq<u8> {
        self.header@
    }

    /// Nothing of the frame has been written.
    pub fn new(frame: &Frame) -> (write: Self)
        ensures
            write.written() == 0,
            write.total() == frame_bytes(frame@).len(),
            write.header() == header_bytes(frame@),
    {
        let header = frame.encode_header();
        assert(header@.len() == HEADER_SIZE);
        UnpaddedWrite { header, header_pos: 0, data_pos: 0, data_len: bytes_slice(&frame.data).len() }
    }

    /// Whether the frame has been written.
    pub fn is_done(&self) -> (done: bool)
        ensures
            done == (self.written() == self.total()),
    {
        proof {
            use_type_invariant(self);
        }
        self.header_pos == HEADER_SIZE && self.data_pos == self.data_len
    }

    /// The part of the header that is still to be written.
    pub fn header_rest(&self) -> (rest: &[u8])
        ensures
            rest@ == self.header().skip(if self.written() < HEADER_SIZE {
                self.written()
            } else {
                HEADER_SIZE as int
            }),
    {
        proof {
            use_type_invariant(self);
        }
        let rest = slice_subrange(self.header.as_slice(), self.header_pos, HEADER_SIZE);
        assert(rest@ =~= self.header().skip(self.header_pos as int));
        rest
    }

    /// How much of the data has been written.
    pub fn data_start(&self) -> (start: usize)
        ensures
            start == if self.written() < HEADER_SIZE {
                0
            } else {
                self.written() - HEADER_SIZE
            },
    {
        proof {
            use_type_invariant(self);
        }
        self.data_pos
    }

    /// Takes note of `written` more bytes. A transport that takes none has failed.
    pub fn advance(&mut self, written: usize) -> (result: core::result::Result<(), IoError>)
        ensures
            final(self).total() == old(self).total(),
            final(self).header() == old(self).header(),
            match result {
                Ok(()) => written > 0 && final(self).written() == if old(self).written() + written <= old(
                    self,
                ).total() {
                    old(self).written() + written
                } else {
                    old(self).total()
                },
                Err(err) => written == 0 && final(self).written() == old(self).written() && err.kind
                    == IoErrorKind::WriteZero && err.message@ == "failed to write frame"@,
            },
    {
        proof {
            use_type_invariant(&*self);
        }
        if written == 0 {
            return Err(
                IoError { kind: IoErrorKind::WriteZero, message: String::from_str("failed to write frame") },
            );
        }
        let header_left: usize = HEADER_SIZE - self.header_pos;
        let header_written: usize = if written < header_left { written } else { header_left };
        let left: usize = written - header_written;
        self.header_pos = self.header_pos + header_written;
        if left > 0 {
            let data_left: usize = self.data_len - self.data_pos;
            let data_written: usize = if left < data_left { left } else { data_left };
            self.data_pos = self.data_pos + data_written;
        }
        Ok(())
    }
}

// What padding makes of a payload.

/// The sum of these sizes.
pub open spec fn total_size(sizes: Seq<i32>) -> int
    decreases sizes.len(),
{
    if sizes.len() == 0 {
        0
    } else {
        sizes[0] + total_size(sizes.drop_first())
    }
}

/// Sizes without a check mark among them.
pub open spec fn plain_sizes(sizes: Seq<i32>) -> bool {
    forall|i: int| 0 <= i < sizes.len() ==> 0 <= #[trigger] sizes[i]
}

proof fn lemma_plain_rest(sizes: Seq<i32>)
    requires
        plain_sizes(sizes),
        sizes.len() > 0,
    ensures
        plain_sizes(sizes.drop_first()),
        sizes[0] >= 0,
        total_size(sizes.drop_first()) >= 0,
    decreases sizes.len(),
{
    let rest = sizes.drop_first();
    assert forall|i: int| 0 <= i < rest.len() implies 0 <= #[trigger] rest[i] by {
        assert(rest[i] == sizes[i + 1]);
    }
    if rest.len() > 0 {
        lemma_plain_rest(rest);
    }
}

/// A record has the size that was drawn for it. The records that the payload fills hold the payload
/// in its order and nothing else. The one in which the payload ends holds the rest of it and is
/// filled up with a waste frame to exactly its size, where the frame's header fits too; otherwise it
/// holds the rest alone. Behind it each record is a waste frame with data of its size.
#[verifier::rlimit(40)]
pub proof fn each_record_has_its_size(payload: Seq<u8>, sizes: Seq<i32>, i: int)
    requires
        plain_sizes(sizes.take(i + 1)),
        0 <= i < sizes.len(),
        records(payload, sizes).1 is None,
    ensures
        ({
            let chunks = records(payload, sizes).0;
            let before = total_size(sizes.take(i));
            let size = sizes[i] as int;
            let left = payload.len() - before;
            &&& i < chunks.len()
            &&& left > size ==> chunks[i] == payload.subrange(before, before + size)
            &&& 0 < left <= size ==> chunks[i].take(left) == payload.skip(before)
            &&& 0 < left && left + 7 < size ==> chunks[i].len() == size && chunks[i].skip(left) == frame_bytes(
                waste((size - left - 7) as nat),
            )
            &&& 0 < left <= size && left + 7 >= size ==> chunks[i] == payload.skip(before)
            &&& left <= 0 ==> chunks[i] == frame_bytes(waste(size as nat)) && chunks[i].len() == size + 7
        }),
    decreases i,
{
    let chunks = records(payload, sizes).0;
    let rest = sizes.drop_first();
    let size = sizes[0] as int;
    let front = sizes.take(i + 1);
    lemma_plain_rest(front);
    assert(front[0] == sizes[0] && front[i] == sizes[i]);
    if i == 0 {
        assert(sizes.take(0) =~= Seq::empty());
        let left = payload.len() as int;
        assert(payload.skip(0) =~= payload);
        if left > size {
            assert(payload.take(size) =~= payload.subrange(0, size));
        } else {
            let n = if left > 0 {
                fill(size, left)
            } else {
                size
            };
            frame_round_trip(waste(n as nat), Seq::empty());
            assert(chunks[0].take(left) =~= payload);
            assert(payload + Seq::<u8>::empty() =~= payload);
            if left == 0 {
                assert(payload =~= Seq::empty());
                assert(payload + frame_bytes(waste(n as nat)) =~= frame_bytes(waste(n as nat)));
            } else if n > 0 {
                assert(chunks[0].skip(left) =~= frame_bytes(waste(n as nat)));
            }
        }
    } else {
        assert(front.drop_first() =~= rest.take(i));
        assert(sizes.take(i).drop_first() =~= rest.take(i - 1));
        assert(sizes.take(i)[0] == sizes[0]);
        assert(total_size(sizes.take(i)) == size + total_size(rest.take(i - 1)));
        let before = total_size(rest.take(i - 1));
        assert(before >= 0) by {
            let part = sizes.take(i);
            assert forall|j: int| 0 <= j < part.len() implies 0 <= #[trigger] part[j] by {
                assert(part[j] == front[j]);
            }
            lemma_plain_rest(part);
        }
        let left = if payload.len() > size {
            payload.skip(size)
        } else {
            Seq::empty()
        };
        each_record_has_its_size(left, rest, i - 1);
        assert(chunks.drop_first() =~= records(left, rest).0);
        assert(chunks[i] == chunks.drop_first()[i - 1]);
        if payload.len() > size && before <= left.len() {
            assert(left.skip(before) =~= payload.skip(size + before));
            if before + sizes[i] <= left.len() {
                assert(left.subrange(before, before + sizes[i]) =~= payload.subrange(
                    size + before,
                    size + before + sizes[i],
                ));
            }
        }
    }
}

/// A payload that sizes do not cover makes one more record, which ends it.
pub proof fn the_rest_makes_the_last_record(payload: Seq<u8>, sizes: Seq<i32>)
    requires
        plain_sizes(sizes),
        total_size(sizes) < payload.len(),
    ensures
        records(payload, sizes).1 is None,
        records(payload, sizes).0.len() == sizes.len() + 1,
        records(payload, sizes).0.last() == payload.skip(total_size(sizes)),
    decreases sizes.len(),
{
    if sizes.len() == 0 {
        assert(payload.skip(0) =~= payload);
    } else {
        lemma_plain_rest(sizes);
        let rest = sizes.drop_first();
        let left = payload.skip(sizes[0] as int);
        the_rest_makes_the_last_record(left, rest);
        assert(left.skip(total_size(rest)) =~= payload.skip(total_size(sizes)));
        assert(records(payload, sizes).0.last() == records(left, rest).0.last());
    }
}

/// A payload that sizes cover makes one record for each size and no more, unless there is too much
/// to fill up, which is an error.
pub proof fn there_is_a_record_for_each_size(payload: Seq<u8>, sizes: Seq<i32>)
    requires
        plain_sizes(sizes),
        total_size(sizes) >= payload.len(),
    ensures
        records(payload, sizes).1 is None ==> records(payload, sizes).0.len() == sizes.len(),
        (forall|i: int| 0 <= i < sizes.len() ==> #[trigger] sizes[i] <= 65535) ==> records(payload, sizes).1 is None,
    decreases sizes.len(),
{
    if sizes.len() > 0 {
        lemma_plain_rest(sizes);
        let rest = sizes.drop_first();
        let left = if payload.len() > sizes[0] {
            payload.skip(sizes[0] as int)
        } else {
            Seq::empty()
        };
        there_is_a_record_for_each_size(left, rest);
        if forall|i: int| 0 <= i < sizes.len() ==> #[trigger] sizes[i] <= 65535 {
            assert forall|i: int| 0 <= i < rest.len() implies #[trigger] rest[i] <= 65535 by {
                assert(rest[i] == sizes[i + 1]);
            }
            assert(sizes[0] <= 65535);
        }
    }
}

/// A check mark means nothing while payload is left.
#[verifier::rlimit(40)]
pub proof fn checks_pass_while_payload_is_left(payload: Seq<u8>, before: Seq<i32>, after: Seq<i32>)
    requires
        plain_sizes(before),
        total_size(before) < payload.len(),
    ensures
        records(payload, before.push(CHECK_MARK) + after) == records(payload, before + after),
    decreases before.len(),
{
    let all = before.push(CHECK_MARK) + after;
    let plain = before + after;
    if before.len() == 0 {
        assert(all.drop_first() =~= after);
        assert(plain =~= after);
    } else {
        lemma_plain_rest(before);
        let rest = before.drop_first();
        checks_pass_while_payload_is_left(payload.skip(before[0] as int), rest, after);
        assert(all.drop_first() =~= rest.push(CHECK_MARK) + after);
        assert(plain.drop_first() =~= rest + after);
    }
}

/// A check mark ends the records once the payload has ended: nothing behind it counts.
pub proof fn checks_stop_behind_the_payload(payload: Seq<u8>, before: Seq<i32>, after: Seq<i32>)
    requires
        plain_sizes(before),
        total_size(before) >= payload.len(),
    ensures
        records(payload, before.push(CHECK_MARK) + after) == records(payload, before),
    decreases before.len(),
{
    let all = before.push(CHECK_MARK) + after;
    if before.len() > 0 {
        lemma_plain_rest(before);
        let rest = before.drop_first();
        let left = if payload.len() > before[0] {
            payload.skip(before[0] as int)
        } else {
            Seq::empty()
        };
        checks_stop_behind_the_payload(left, rest, after);
        assert(all.drop_first() =~= rest.push(CHECK_MARK) + after);
    }
}

/// A size below zero that is no check mark counts as zero.
pub proof fn sizes_below_zero_count_as_zero(payload: Seq<u8>, size: i32, rest: Seq<i32>)
    requires
        size < -1,
    ensures
        records(payload, seq![size] + rest) == records(payload, seq![0i32] + rest),
{
    assert((seq![size] + rest).drop_first() =~= rest);
    assert((seq![0i32] + rest).drop_first() =~= rest);
}

/// A record that would take more waste than a frame holds is an error, and so is every plan that
/// comes to it. The records before it are written.
#[verifier::rlimit(40)]
pub proof fn too_much_waste_is_an_error(payload: Seq<u8>, before: Seq<i32>, size: i32, after: Seq<i32>)
    requires
        plain_sizes(before),
        total_size(before) < payload.len(),
        payload.len() - total_size(before) + 7 + 65535 < size,
    ensures
        ({
            let plan = padded_plan(payload, before.push(size) + after);
            let n = size - (payload.len() - total_size(before)) - 7;
            &&& plan.result == Err::<int, IoErrorView>(
                (IoErrorKind::Other, "protocol error: "@ + ("frame data too large: "@ + dec(n as nat) + " bytes"@)),
            )
            &&& plan.chunks.len() == before.len()
            &&& flat(plan.chunks) == payload.take(total_size(before))
        }),
    decreases before.len(),
{
    let all = before.push(size) + after;
    assert(all.drop_first() =~= if before.len() == 0 {
        after
    } else {
        before.drop_first().push(size) + after
    });
    let chunks = records(payload, all).0;
    if before.len() == 0 {
        assert(flat(chunks) =~= payload.take(0));
    } else {
        lemma_plain_rest(before);
        let rest = before.drop_first();
        let left = payload.skip(before[0] as int);
        too_much_waste_is_an_error(left, rest, size, after);
        assert(chunks.drop_first() =~= records(left, rest.push(size) + after).0);
        assert(flat(chunks) =~= payload.take(total_size(before)));
    }
}

/// A plan that comes to its end has written the whole payload, and says how long it was.
pub proof fn plans_report_the_payload(payload: Seq<u8>, sizes: Seq<i32>)
    ensures
        padded_plan(payload, sizes).result is Ok ==> padded_plan(payload, sizes).result == Ok::<int, IoErrorView>(
            payload.len() as int,
        ) && payload.is_prefix_of(flat(padded_plan(payload, sizes).chunks)),
        plain_plan(payload).result == Ok::<int, IoErrorView>(payload.len() as int),
        plain_plan(payload).chunks == seq![payload],
        records(payload, Seq::empty()).0 == if payload.len() > 0 {
            seq![payload]
        } else {
            Seq::empty()
        },
{
    if padded_plan(payload, sizes).result is Ok {
        padding_only_appends_waste(payload, sizes);
        let out = flat(records(payload, sizes).0);
        assert(out.take(payload.len() as int) =~= payload);
    }
}

/// The state after `n` payloads.
pub open spec fn after_payloads(state: WriteStateView, stop: int, n: nat) -> WriteStateView
    decreases n,
{
    if n == 0 {
        state
    } else {
        after_payload(after_payloads(state, stop, (n - 1) as nat), stop)
    }
}

/// A connection that starts with padding counts its packets from one on and pads every one whose
/// number is below that at which the scheme stops. None from there on is padded. A connection that
/// starts without padding never pads.
pub proof fn the_first_packets_are_padded(start: WriteStateView, stop: int, sizes: Seq<i32>, payload: Seq<u8>, n: nat)
    requires
        start.packet_counter == 0,
        stop >= 0,
    ensures
        ({
            let state = after_payloads(start, stop, n);
            &&& pads_next(state, stop) == (start.enabled && n + 1 < stop)
            &&& start.enabled && n < stop ==> state.packet_counter == n
            &&& start.enabled && n + 1 < stop ==> payload_plan(state, stop, sizes, payload) == padded_plan(payload, sizes)
            &&& !start.enabled || n + 1 >= stop ==> payload_plan(state, stop, sizes, payload) == (PlanView {
                chunks: seq![payload],
                result: Ok(payload.len() as int),
            })
            &&& state.initial_buffering == start.initial_buffering
            &&& state.initial_buffer == start.initial_buffer
        }),
    decreases n,
{
    lemma_after_payloads(start, stop, n);
}

proof fn lemma_after_payloads(start: WriteStateView, stop: int, n: nat)
    requires
        start.packet_counter == 0,
        stop >= 0,
    ensures
        ({
            let state = after_payloads(start, stop, n);
            &&& !start.enabled ==> state == start
            &&& start.enabled ==> state.enabled == (n == 0 || n < stop)
            &&& start.enabled && (n == 0 || n <= stop) ==> state.packet_counter == n
            &&& state.initial_buffering == start.initial_buffering
            &&& state.initial_buffer == start.initial_buffer
        }),
    decreases n,
{
    if n > 0 {
        lemma_after_payloads(start, stop, (n - 1) as nat);
    }
}

/// While padding is on, the settings and the stream that a connection starts with wait for the next
/// frame, and then go out before it in one payload. After that nothing waits any more.
#[verifier::rlimit(40)]
pub proof fn first_frames_go_out_together(
    state: WriteStateView,
    stop: int,
    sizes: Seq<i32>,
    held: FrameView,
    next: FrameView,
)
    requires
        state.enabled,
        state.initial_buffering,
        held.command == Command::Settings || held.command == Command::Syn,
        next.command != Command::Settings,
        next.command != Command::Syn,
    ensures
        ({
            let waiting = after_frame(state, stop, held);
            let done = after_frame(waiting, stop, next);
            let payload = state.initial_buffer + frame_bytes(held) + frame_bytes(next);
            &&& frame_write(state, stop, sizes, held) is Buffered
            &&& waiting.initial_buffer == state.initial_buffer + frame_bytes(held)
            &&& waiting.packet_counter == state.packet_counter
            &&& frame_write(waiting, stop, sizes, next) == FrameWriteView::Records(
                if state.packet_counter + 1 < stop {
                    padded_plan(payload, sizes)
                } else {
                    PlanView { chunks: seq![payload], result: Ok(payload.len() as int) }
                },
            )
            &&& !done.initial_buffering
            &&& done.initial_buffer.len() == 0
            &&& done.packet_counter == state.packet_counter + 1
        }),
{
    lemma_header_len(held);
}

proof fn lemma_header_len(frame: FrameView)
    ensures
        frame_bytes(frame).len() >= 7,
{
    crate::wire::lemma_be_bytes_len(frame.stream_id as nat, 4);
    crate::wire::lemma_be_bytes_len((frame.data.len() % 0x1_0000) as nat, 2);
}

/// Once nothing waits any more, each frame goes out at once: in records while padding is on, and
/// then as it is.
pub proof fn later_frames_go_out_at_once(state: WriteStateView, stop: int, sizes: Seq<i32>, frame: FrameView)
    requires
        !state.initial_buffering,
        state.initial_buffer.len() == 0,
    ensures
        !state.enabled ==> frame_write(state, stop, sizes, frame) is Unpadded && after_frame(state, stop, frame)
            == state,
        state.enabled ==> frame_write(state, stop, sizes, frame) == FrameWriteView::Records(
            if state.packet_counter + 1 < stop {
                padded_plan(frame_bytes(frame), sizes)
            } else {
                PlanView { chunks: seq![frame_bytes(frame)], result: Ok(frame_bytes(frame).len() as int) }
            },
        ),
        state.enabled ==> after_frame(state, stop, frame) == (WriteStateView {
            enabled: state.packet_counter + 1 < stop,
            packet_counter: state.packet_counter + 1,
            ..state
        }),
        !after_frame(state, stop, frame).initial_buffering,
        after_frame(state, stop, frame).initial_buffer.len() == 0,
{
    assert(state.initial_buffer + frame_bytes(frame) =~= frame_bytes(frame));
}

} // verus!
