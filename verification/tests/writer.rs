use anytls::error::IoErrorKind;
use anytls::frame::{Command, Frame, HEADER_SIZE};
use anytls::padding::{PaddingFactory, CHECK_MARK};
use anytls::writer::{plan_records, FrameWrite, PaddingWriteState, UnpaddedWrite};
use bytes::BytesMut;

fn frame(command: Command, data: &[u8]) -> Frame {
    Frame::new(command, 1, data.to_vec()).unwrap()
}

fn lens(chunks: &[Vec<u8>]) -> Vec<usize> {
    chunks.iter().map(|chunk| chunk.len()).collect()
}

fn records(write: FrameWrite) -> Vec<Vec<u8>> {
    match write {
        FrameWrite::Records(plan) => {
            plan.result.unwrap();
            plan.chunks
        }
        _ => panic!("records are expected"),
    }
}

#[test]
fn payload_is_cut_and_filled_up() {
    let payload = [5_u8; 25];
    let plan = plan_records(&payload, &[10, 40, 9]);
    assert_eq!(lens(&plan.chunks), vec![10, 40, 16]);
    assert_eq!(plan.result.unwrap(), 25);
    assert_eq!(plan.chunks[1][15..22], [0, 0, 0, 0, 0, 0, 18]);
    assert_eq!(plan.chunks[2][..7], [0, 0, 0, 0, 0, 0, 9]);
}

#[test]
fn short_gaps_are_not_filled() {
    assert_eq!(lens(&plan_records(&[1; 10], &[17]).chunks), vec![10]);
    assert_eq!(lens(&plan_records(&[1; 10], &[18]).chunks), vec![18]);
    assert_eq!(lens(&plan_records(&[1; 10], &[10]).chunks), vec![10]);
    assert_eq!(lens(&plan_records(&[1; 10], &[9]).chunks), vec![9, 1]);
}

#[test]
fn check_marks_stop_padding_once_nothing_is_left() {
    assert_eq!(lens(&plan_records(&[1; 10], &[10, CHECK_MARK, 50]).chunks), vec![10]);
    assert_eq!(lens(&plan_records(&[1; 10], &[5, CHECK_MARK, 50]).chunks), vec![5, 50]);
    assert_eq!(lens(&plan_records(&[], &[3]).chunks), vec![10]);
    assert_eq!(lens(&plan_records(&[], &[CHECK_MARK, 3]).chunks), Vec::<usize>::new());
    assert_eq!(lens(&plan_records(&[1; 3], &[-5, 2]).chunks), vec![0, 2, 1]);
}

#[test]
fn waste_that_fits_no_frame_fails() {
    let plan = plan_records(&[1; 10], &[4, 70000, 3]);
    assert_eq!(lens(&plan.chunks), vec![4]);
    let err = plan.result.unwrap_err();
    assert_eq!(err.kind, IoErrorKind::Other);
    assert_eq!(err.message, "protocol error: frame data too large: 69987 bytes");
}

#[test]
fn first_control_frames_share_a_record_with_the_next_frame() {
    let padding = PaddingFactory::new(b"stop=3\n1=100-100\n2=20-20").unwrap();
    let mut state = PaddingWriteState::new(true);
    assert!(matches!(state.write_frame(&frame(Command::Settings, b"v=2"), &padding), FrameWrite::Buffered));
    assert!(matches!(state.write_frame(&frame(Command::Syn, b""), &padding), FrameWrite::Buffered));
    let first = records(state.write_frame(&frame(Command::Psh, b"hello"), &padding));
    assert_eq!(lens(&first), vec![100]);
    let second = records(state.write_frame(&frame(Command::Syn, b""), &padding));
    assert_eq!(lens(&second), vec![20]);
    let third = records(state.write_frame(&frame(Command::Psh, b"x"), &padding));
    assert_eq!(lens(&third), vec![8]);
    assert!(matches!(state.write_frame(&frame(Command::Psh, b"x"), &padding), FrameWrite::Unpadded));

    let mut buffer = BytesMut::new();
    for record in first.iter().chain(&second).chain(&third) {
        buffer.extend_from_slice(record);
    }
    let mut commands = Vec::new();
    while let Some(frame) = Frame::decode(&mut buffer).unwrap() {
        if frame.command != Command::Waste {
            commands.push(frame.command);
        }
    }
    assert_eq!(
        commands,
        vec![Command::Settings, Command::Syn, Command::Psh, Command::Syn, Command::Psh]
    );
    assert!(buffer.is_empty());
}

#[test]
fn servers_do_not_pad() {
    let mut state = PaddingWriteState::new(false);
    let padding = PaddingFactory::default_scheme();
    assert_eq!(state.next_packet(padding.stop()), None);
    assert!(matches!(state.write_frame(&frame(Command::Settings, b""), &padding), FrameWrite::Unpadded));
    assert_eq!(lens(&state.write_conn(b"abc", &padding).chunks), vec![3]);
}

#[test]
fn sizes_of_the_scheme_are_used() {
    let padding = PaddingFactory::default_scheme();
    for _ in 0..50 {
        let mut state = PaddingWriteState::new(true);
        let chunks = state.write_conn(&[1; 50], &padding).chunks;
        assert_eq!(chunks.len(), 1);
        assert!(chunks[0].len() >= 100 && chunks[0].len() <= 400);
        assert_eq!(state.next_packet(8), Some(2));
    }
    let mut state = PaddingWriteState::new(true);
    for _ in 0..7 {
        state.write_payload(b"abc", 8, &[20]);
    }
    assert_eq!(state.next_packet(8), None);
    assert_eq!(lens(&state.write_payload(b"abc", 8, &[20]).chunks), vec![3]);
}

#[test]
fn frames_go_out_in_pieces() {
    let frame = frame(Command::Psh, b"hello");
    let encoded = frame.encode();
    for step in 1..14 {
        let mut write = UnpaddedWrite::new(&frame);
        let mut out = Vec::new();
        while !write.is_done() {
            let mut left = write.header_rest().to_vec();
            left.extend_from_slice(&frame.data[write.data_start()..]);
            let n = step.min(left.len());
            out.extend_from_slice(&left[..n]);
            write.advance(step).unwrap();
        }
        assert_eq!(&out[..], &encoded[..]);
    }
    let mut write = UnpaddedWrite::new(&frame);
    let err = write.advance(0).unwrap_err();
    assert_eq!((err.kind, err.message.as_str()), (IoErrorKind::WriteZero, "failed to write frame"));
    assert_eq!(write.header_rest().len(), HEADER_SIZE);
}

#[test]
fn pieces_do_not_matter() {
    let frames = [frame(Command::Psh, b"hello"), frame(Command::Fin, b""), frame(Command::Psh, b"world!")];
    let bytes: Vec<u8> = frames.iter().flat_map(|frame| frame.encode()).collect();
    for cut in 0..=bytes.len() {
        let mut buffer = BytesMut::new();
        let mut read = Vec::new();
        for piece in [&bytes[..cut], &bytes[cut..]] {
            buffer.extend_from_slice(piece);
            while let Some(frame) = Frame::decode(&mut buffer).unwrap() {
                read.push(frame);
            }
        }
        assert_eq!(read, frames);
        assert!(buffer.is_empty());
    }
}
