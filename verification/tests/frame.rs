use anytls::frame::{waste_frame, waste_frame_into, Command, Frame, HEADER_SIZE, MAX_FRAME_DATA_LEN};
use anytls::wire::Progress;
use anytls::AnyTlsError;
use bytes::BytesMut;

fn read(bytes: &[u8]) -> (Frame, usize) {
    match Frame::read_from(bytes).unwrap() {
        Progress::Done { value, consumed } => (value, consumed),
        Progress::Need { total } => panic!("{total} bytes are needed"),
    }
}

#[test]
fn frame_encodes_big_endian_header() {
    let frame = Frame::new(Command::Psh, 0x0102_0304, b"abc".to_vec()).unwrap();

    assert_eq!(frame.encode(), vec![2, 1, 2, 3, 4, 0, 3, b'a', b'b', b'c']);
}

#[test]
fn frame_reads_big_endian_header() {
    let (frame, consumed) = read(&[7, 0, 0, 0, 9, 0, 2, b'o', b'k']);

    assert_eq!(consumed, 9);
    assert_eq!(frame.command, Command::SynAck);
    assert_eq!(frame.stream_id, 9);
    assert_eq!(&frame.data[..], b"ok");
}

#[test]
fn frame_decodes_from_bytesmut_without_copying_payload() {
    let mut buffer = BytesMut::from(&[2, 0, 0, 0, 7, 0, 3, b'f', b'o', b'o'][..]);

    let frame = Frame::decode(&mut buffer).unwrap().unwrap();

    assert_eq!(frame.command, Command::Psh);
    assert_eq!(frame.stream_id, 7);
    assert_eq!(&frame.data[..], b"foo");
    assert!(buffer.is_empty());
}

#[test]
fn header_size_matches_protocol() {
    assert_eq!(HEADER_SIZE, 7);
}

#[test]
fn commands_have_their_bytes() {
    for byte in 0..=10u8 {
        assert_eq!(Command::from_u8(byte).unwrap().to_u8(), byte);
    }
    assert_eq!(Command::from_u8(0), Some(Command::Waste));
    assert_eq!(Command::from_u8(10), Some(Command::ServerSettings));
    assert_eq!(Command::from_u8(11), None);
    assert_eq!(Command::from_u8(255), None);
}

#[test]
fn frames_read_back_from_one_buffer() {
    let first = Frame::new(Command::Psh, 1, vec![9; 300]).unwrap();
    let second = Frame::empty(Command::Fin, u32::MAX);
    let mut buffer = BytesMut::from(&first.encode()[..]);
    buffer.extend_from_slice(&second.encode());
    buffer.extend_from_slice(&[2, 0]);

    assert_eq!(Frame::decode(&mut buffer).unwrap(), Some(first.clone()));
    assert_eq!(Frame::decode(&mut buffer).unwrap(), Some(second));
    assert_eq!(Frame::decode(&mut buffer).unwrap(), None);
    assert_eq!(&buffer[..], &[2, 0]);
}

#[test]
fn parts_of_a_frame_wait() {
    let bytes = Frame::new(Command::Alert, 3, b"hello".to_vec()).unwrap().encode();
    for n in 0..bytes.len() {
        match Frame::read_from(&bytes[..n]).unwrap() {
            Progress::Need { total } => assert!(n < total && total <= bytes.len()),
            Progress::Done { .. } => panic!("{n} bytes were taken for a frame"),
        }
        let mut buffer = BytesMut::from(&bytes[..n]);
        assert_eq!(Frame::decode(&mut buffer).unwrap(), None);
        assert_eq!(&buffer[..], &bytes[..n]);
    }
}

#[test]
fn unknown_commands_are_refused() {
    let bytes = [77, 0, 0, 0, 0, 0, 0];
    let mut buffer = BytesMut::from(&bytes[..]);
    let err = Frame::decode(&mut buffer).unwrap_err();
    assert_eq!(err.message(), "protocol error: unknown command: 77");
    assert!(matches!(Frame::read_from(&bytes), Err(AnyTlsError::Protocol(_))));
    assert_eq!(buffer.len(), 7);
}

#[test]
fn frames_hold_up_to_65535_bytes() {
    let largest = Frame::new(Command::Psh, 1, vec![1; MAX_FRAME_DATA_LEN]).unwrap();
    assert_eq!(&largest.encode_header()[5..], &[255, 255]);
    assert_eq!(read(&largest.encode()).0, largest);

    let err = Frame::new(Command::Psh, 1, vec![1; MAX_FRAME_DATA_LEN + 1]).unwrap_err();
    assert_eq!(err.message(), "protocol error: frame data too large: 65536 bytes");
}

#[test]
fn waste_is_a_frame_of_zeros() {
    assert_eq!(waste_frame(2).unwrap(), vec![0, 0, 0, 0, 0, 0, 2, 0, 0]);
    let mut out = vec![8];
    waste_frame_into(&mut out, 1).unwrap();
    assert_eq!(out, vec![8, 0, 0, 0, 0, 0, 0, 1, 0]);
    assert!(waste_frame(65536).is_err());
    assert!(waste_frame_into(&mut out, 65536).is_err());
    assert_eq!(out.len(), 9);
}

#[test]
fn header_stands_before_the_data() {
    let frame = Frame::new(Command::Settings, 0, b"v=2".to_vec()).unwrap();
    let mut out = Vec::new();
    frame.encode_header_into(&mut out);
    assert_eq!(out, frame.encode_header());
    frame.encode_into(&mut out);
    assert_eq!(&out[HEADER_SIZE..], &frame.encode()[..]);
}
