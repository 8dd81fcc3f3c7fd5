use anytls::frame::{Command, Frame, MAX_FRAME_DATA_LEN};
use anytls::error::{AnyTlsError, IoError, IoErrorKind};
use anytls::padding::PaddingFactory;
use anytls::session::{anytls_to_io_error, role_name, Action, Session, SharedPadding, Stream, StreamCloseReason, StreamState};
use anytls::settings::StringMap;
use anytls::PROGRAM_VERSION_NAME;
use bytes::Bytes;

fn default_padding() -> PaddingFactory {
    PaddingFactory::default_scheme()
}

fn no_padding() -> PaddingFactory {
    PaddingFactory::new(b"stop=1\n0=0-0").unwrap()
}

fn sent(actions: &[Action]) -> Vec<&Frame> {
    actions
        .iter()
        .filter_map(|action| match action {
            Action::Send(frame) => Some(frame),
            _ => None,
        })
        .collect()
}

/// A server that knows the settings of a client, and that client.
fn agreed_sessions() -> (Session, Session) {
    let padding = no_padding();
    let (mut client, settings) = Session::new_client(&padding);
    let mut server = Session::new_server();
    let handled = server.handle_frame(&padding, settings);
    for action in handled.actions {
        if let Action::Send(frame) = action {
            assert!(client.handle_frame(&padding, frame).outcome.unwrap());
        }
    }
    assert_eq!((client.peer_version(), server.peer_version()), (2, 2));
    (client, server)
}

/// A queue of the writing side with room for this many frames.
struct Queue {
    frames: Vec<Frame>,
    capacity: usize,
}

impl Queue {
    fn write(&mut self, stream: &Stream, state: &StreamState, buf: &[u8]) -> Result<Option<usize>, IoError> {
        if !stream.check_write(state, buf)? {
            return Ok(Some(0));
        }
        if self.frames.len() == self.capacity {
            return Ok(None);
        }
        let (frame, len) = stream.data_frame(buf);
        self.frames.push(frame);
        Ok(Some(len))
    }

    fn shutdown(&mut self, stream: &mut Stream) -> bool {
        if !stream.begin_shutdown(false) {
            return true;
        }
        if self.frames.len() == self.capacity {
            return false;
        }
        self.frames.push(stream.fin_frame());
        stream.finish_shutdown();
        true
    }
}

#[test]
fn stream_write_waits_for_writer_capacity() {
    let stream = Stream::new(1);
    let state = StreamState::new();
    let mut queue = Queue { frames: Vec::new(), capacity: 1 };

    assert_eq!(queue.write(&stream, &state, b"one").unwrap(), Some(3));

    assert_eq!(queue.write(&stream, &state, b"two").unwrap(), None);

    let frame = queue.frames.remove(0);
    assert_eq!(frame.command, Command::Psh);
    assert_eq!(&frame.data[..], b"one");

    assert_eq!(queue.write(&stream, &state, b"two").unwrap(), Some(3));
    assert_eq!(&queue.frames.remove(0).data[..], b"two");
}

#[test]
fn stream_shutdown_blocks_late_writes_until_fin_is_queued() {
    let mut stream = Stream::new(1);
    let state = StreamState::new();
    let mut queue = Queue { frames: Vec::new(), capacity: 1 };

    assert_eq!(queue.write(&stream, &state, b"queued").unwrap(), Some(6));

    assert!(!queue.shutdown(&mut stream));

    let err = queue.write(&stream, &state, b"late").unwrap_err();
    assert_eq!(err.kind, IoErrorKind::BrokenPipe);
    assert_eq!(err.message, "stream is shutting down");

    queue.frames.remove(0);
    assert!(queue.shutdown(&mut stream));

    let frame = queue.frames.remove(0);
    assert_eq!(frame.command, Command::Fin);
    assert!(frame.data.is_empty());

    let err = queue.write(&stream, &state, b"later").unwrap_err();
    assert_eq!(err.message, "stream is shut down");
}

#[test]
fn stream_write_caps_payload_at_frame_limit() {
    let stream = Stream::new(1);
    let state = StreamState::new();
    let mut queue = Queue { frames: Vec::new(), capacity: 1 };
    let payload = vec![7_u8; MAX_FRAME_DATA_LEN + 9];

    let written = queue.write(&stream, &state, &payload).unwrap().unwrap();

    assert_eq!(written, MAX_FRAME_DATA_LEN);
    let frame = queue.frames.remove(0);
    assert_eq!(frame.command, Command::Psh);
    assert_eq!(frame.data.len(), MAX_FRAME_DATA_LEN);
}

#[test]
fn empty_stream_write_does_not_queue_frame() {
    let stream = Stream::new(1);
    let state = StreamState::new();
    let mut queue = Queue { frames: Vec::new(), capacity: 1 };

    let written = queue.write(&stream, &state, &[]).unwrap().unwrap();

    assert_eq!(written, 0);
    assert!(queue.frames.is_empty());
}

#[test]
fn server_rejects_syn_before_settings() {
    let mut server = Session::new_server();

    let handled = server.handle_frame(&default_padding(), Frame::empty(Command::Syn, 1));

    assert!(!handled.outcome.unwrap());
    assert_eq!(handled.actions.len(), 1);
    let frames = sent(&handled.actions);
    assert_eq!(frames[0].command, Command::Alert);
    assert_eq!(&frames[0].data[..], b"client did not send its settings");
}

#[test]
fn server_replies_to_heart_request() {
    let mut server = Session::new_server();

    let handled = server.handle_frame(&default_padding(), Frame::empty(Command::HeartRequest, 99));

    assert!(handled.outcome.unwrap());
    let frames = sent(&handled.actions);
    assert_eq!(frames[0].command, Command::HeartResponse);
    assert_eq!(frames[0].stream_id, 99);
    assert!(frames[0].data.is_empty());
}

#[test]
fn server_sends_padding_update_when_client_md5_differs() {
    let server_padding = PaddingFactory::new(b"stop=2\n0=1-1\n1=9-9").unwrap();
    let mut server = Session::new_server();
    let mut settings = StringMap::new();
    settings.insert("v", "2");
    settings.insert("client", "test-client");
    settings.insert("padding-md5", "different");

    let handled = server.handle_frame(
        &server_padding,
        Frame::new(Command::Settings, 0, settings.to_bytes()).unwrap(),
    );

    let frames = sent(&handled.actions);
    assert_eq!(frames[0].command, Command::UpdatePaddingScheme);
    assert_eq!(frames[0].data, server_padding.raw_scheme());
    assert_eq!(frames[1].command, Command::ServerSettings);
    assert_eq!(
        StringMap::from_bytes(&frames[1].data).get("v"),
        Some("2")
    );
}

#[test]
fn client_updates_shared_padding_from_server_command() {
    let mut shared_padding = SharedPadding::new(PaddingFactory::new(b"stop=1\n0=1-1").unwrap());
    let (mut client, _) = Session::new_client(&shared_padding.get());
    let new_padding = PaddingFactory::new(b"stop=2\n0=3-3\n1=4-4").unwrap();

    let handled = client.handle_frame(
        &shared_padding.get(),
        Frame::new(
            Command::UpdatePaddingScheme,
            0,
            new_padding.raw_scheme().to_vec(),
        )
        .unwrap(),
    );
    for action in handled.actions {
        if let Action::UpdatePadding(factory) = action {
            shared_padding.update(factory);
        }
    }

    assert_eq!(shared_padding.get().md5(), new_padding.md5());
}

#[test]
fn client_and_server_exchange_stream_data() {
    let padding = no_padding();
    let (mut client, mut server) = agreed_sessions();

    let (id, actions) = client.open_stream().unwrap();
    let mut client_stream = Stream::new(id);
    let mut to_server: Vec<Frame> = sent(&actions).iter().map(|frame| Frame::empty(frame.command, frame.stream_id)).collect();
    to_server.push(client_stream.data_frame(b"ping").0);

    let mut to_client = Vec::new();
    let mut server_stream = None;
    for frame in to_server {
        for action in server.handle_frame(&padding, frame).actions {
            match action {
                Action::Open(id) => {
                    let mut stream = Stream::new(id);
                    to_client.push(stream.report_handshake_success(&server).unwrap().unwrap());
                    server_stream = Some(stream);
                }
                Action::Deliver(to, data) => {
                    let stream = server_stream.as_mut().unwrap();
                    assert_eq!(to, stream.id());
                    assert_eq!(stream.accept_inbound(data, 4), b"ping");
                    to_client.push(stream.data_frame(b"pong").0);
                    assert!(stream.begin_shutdown(server.is_closed()));
                    to_client.push(stream.fin_frame());
                    stream.finish_shutdown();
                }
                _ => panic!("nothing else is to be done"),
            }
        }
    }

    let mut output = Vec::new();
    let mut state = StreamState::new();
    for frame in to_client {
        for action in client.handle_frame(&padding, frame).actions {
            match action {
                Action::Deliver(_, data) => output = client_stream.accept_inbound(data, 4),
                Action::CloseStream(_, reason) => state.mark_closed(reason),
                _ => panic!("nothing else is to be done"),
            }
        }
    }

    assert_eq!(output, b"pong");
    assert_eq!(client_stream.end_of_input(&state).unwrap_err().message, "stream is closed");
}

#[test]
fn synack_error_is_returned_to_client_stream() {
    let padding = no_padding();
    let (mut client, mut server) = agreed_sessions();
    let (id, _) = client.open_stream().unwrap();
    let stream = Stream::new(id);
    let handled = server.handle_frame(&padding, Frame::empty(Command::Syn, id));
    assert!(matches!(handled.actions[..], [Action::Open(1)]));
    let mut served = Stream::new(id);
    let report = served
        .report_handshake_failure(&server, "dial tcp 127.0.0.1:1: connect: connection refused")
        .unwrap()
        .unwrap();

    let mut state = StreamState::new();
    for action in client.handle_frame(&padding, report).actions {
        if let Action::CloseStream(closed, reason) = action {
            assert_eq!(closed, id);
            state.mark_closed(reason);
        }
    }

    let read_err = stream.end_of_input(&state).unwrap_err();
    assert_eq!(read_err.kind, IoErrorKind::Other);
    assert!(read_err
        .message
        .contains("remote: dial tcp 127.0.0.1:1: connect: connection refused"));

    let err = stream.check_write(&state, b"ping").unwrap_err();
    assert!(err
        .message
        .contains("remote: dial tcp 127.0.0.1:1: connect: connection refused"));
}

#[test]
fn client_settings_name_version_program_and_scheme() {
    let padding = no_padding();
    let (client, frame) = Session::new_client(&padding);
    assert!(client.is_client());
    assert_eq!((client.peer_version(), client.seq(), client.last_stream_id()), (1, 0, 0));
    assert_eq!((frame.command, frame.stream_id), (Command::Settings, 0));
    let settings = StringMap::from_bytes(&frame.data);
    assert_eq!(settings.get("v"), Some("2"));
    assert_eq!(settings.get("client"), Some(PROGRAM_VERSION_NAME));
    assert_eq!(settings.get("padding-md5"), Some(padding.md5()));
}

#[test]
fn scheme_is_sent_only_to_clients_with_another_one() {
    let padding = no_padding();
    let (_, settings) = Session::new_client(&padding);
    let handled = Session::new_server().handle_frame(&padding, settings);
    let commands: Vec<_> = sent(&handled.actions).iter().map(|frame| frame.command).collect();
    assert_eq!(commands, vec![Command::ServerSettings]);
    let (_, settings) = Session::new_client(&default_padding());
    let handled = Session::new_server().handle_frame(&padding, settings);
    let commands: Vec<_> = sent(&handled.actions).iter().map(|frame| frame.command).collect();
    assert_eq!(commands, vec![Command::UpdatePaddingScheme, Command::ServerSettings]);
}

#[test]
fn old_clients_get_no_settings() {
    let padding = no_padding();
    for version in ["1", "x", "256", "-2", ""] {
        let mut settings = StringMap::new();
        settings.insert("v", version);
        settings.insert("padding-md5", padding.md5());
        let mut server = Session::new_server();
        let handled = server.handle_frame(&padding, Frame::new(Command::Settings, 0, settings.to_bytes()).unwrap());
        assert!(handled.actions.is_empty());
        assert_eq!(server.peer_version(), 1);
        let mut stream = Stream::new(1);
        assert!(stream.report_handshake_success(&server).unwrap().is_none());
    }
    let mut settings = StringMap::new();
    settings.insert("v", "+7");
    settings.insert("padding-md5", padding.md5());
    let mut server = Session::new_server();
    server.handle_frame(&padding, Frame::new(Command::Settings, 0, settings.to_bytes()).unwrap());
    assert_eq!(server.peer_version(), 2);
}

#[test]
fn schemes_that_fit_no_frame_end_the_session() {
    let mut raw = b"stop=1\n0=0-0\n".to_vec();
    raw.resize(MAX_FRAME_DATA_LEN + 1, b'x');
    let padding = PaddingFactory::new(&raw).unwrap();
    let (_, settings) = Session::new_client(&no_padding());
    let handled = Session::new_server().handle_frame(&padding, settings);
    assert_eq!(
        handled.outcome.unwrap_err().message(),
        "protocol error: frame data too large: 65536 bytes"
    );
}

#[test]
fn streams_are_numbered_and_opened_once() {
    let padding = no_padding();
    let (mut client, mut server) = agreed_sessions();
    for id in 1..4 {
        let (opened, actions) = client.open_stream().unwrap();
        assert_eq!(opened, id);
        assert_eq!(actions.len(), if id == 1 { 1 } else { 2 });
        assert_eq!(matches!(actions[0], Action::ArmSynAckTimeout(armed) if armed == id), id > 1);
    }
    assert_eq!(server.handle_frame(&padding, Frame::empty(Command::Syn, 3)).actions.len(), 1);
    assert_eq!(server.handle_frame(&padding, Frame::empty(Command::Syn, 3)).actions.len(), 0);
    assert_eq!(client.last_stream_id(), 3);
}

#[test]
fn late_acknowledgements_close_the_session() {
    let (mut client, _) = agreed_sessions();
    client.open_stream().unwrap();
    client.open_stream().unwrap();
    assert!(client.syn_ack_timed_out(1).is_empty());
    assert!(!client.is_closed());
    let actions = client.syn_ack_timed_out(2);
    assert!(matches!(
        actions[..],
        [Action::CancelSynAckTimeout, Action::CloseAllStreams, Action::NotifyClosed, Action::CloseWriter]
    ));
    assert!(client.is_closed());

    let (mut client, _) = agreed_sessions();
    client.open_stream().unwrap();
    client.open_stream().unwrap();
    let handled = client.handle_frame(&no_padding(), Frame::empty(Command::SynAck, 2));
    assert!(matches!(handled.actions[..], [Action::CancelSynAckTimeout]));
    assert!(client.syn_ack_timed_out(2).is_empty());
}

#[test]
fn a_session_is_closed_once_and_then_silent() {
    let (mut client, _) = agreed_sessions();
    assert_eq!(client.mark_closed().len(), 3);
    assert!(client.mark_closed().is_empty());
    assert!(matches!(client.close()[..], [Action::CloseWriter]));
    assert!(matches!(client.open_stream(), Err(AnyTlsError::SessionClosed)));
    let handled = client.handle_frame(&no_padding(), Frame::empty(Command::HeartRequest, 1));
    assert!(matches!(handled.outcome, Err(AnyTlsError::SessionClosed)));
    let mut stream = Stream::new(1);
    assert!(matches!(stream.report_handshake_success(&client), Err(AnyTlsError::SessionClosed)));
    assert!(stream.report_handshake_success(&client).unwrap().is_none());
    client.set_seq(7);
    assert_eq!(client.seq(), 7);

    let (mut client, _) = agreed_sessions();
    client.writer_lost();
    assert!(client.is_closed() && client.open_stream().is_err());
}

#[test]
fn frames_that_do_nothing() {
    let padding = no_padding();
    let (mut client, mut server) = agreed_sessions();
    let data = |command| Frame::new(command, 5, b"data".to_vec()).unwrap();
    for command in [Command::Waste, Command::HeartResponse, Command::Fin, Command::Psh, Command::Settings] {
        let handled = client.handle_frame(&padding, data(command));
        assert!(handled.actions.is_empty() && handled.outcome.unwrap());
    }
    for command in [Command::UpdatePaddingScheme, Command::ServerSettings] {
        let handled = server.handle_frame(&padding, data(command));
        assert!(handled.actions.is_empty() && handled.outcome.unwrap());
    }
    assert!(client.handle_frame(&padding, data(Command::UpdatePaddingScheme)).actions.is_empty());
    assert!(!client.handle_frame(&padding, data(Command::Alert)).outcome.unwrap());
}

#[test]
fn data_stops_at_lost_streams() {
    let padding = no_padding();
    let (_, mut server) = agreed_sessions();
    server.handle_frame(&padding, Frame::empty(Command::Syn, 4));
    let data = || Frame::new(Command::Psh, 4, b"data".to_vec()).unwrap();
    assert!(matches!(server.handle_frame(&padding, data()).actions[..], [Action::Deliver(4, _)]));
    assert!(server.handle_frame(&padding, Frame::empty(Command::Psh, 4)).actions.is_empty());
    server.stream_lost(4);
    assert!(server.handle_frame(&padding, data()).actions.is_empty());
}

#[test]
fn reads_take_what_fits() {
    let mut stream = Stream::new(9);
    assert_eq!(stream.id(), 9);
    assert_eq!(stream.read_buffered(5), None);
    assert_eq!(stream.accept_inbound(Bytes::from_static(b"hello world"), 5), b"hello");
    assert_eq!(stream.read_buffered(3).unwrap(), b" wo");
    assert_eq!(stream.read_buffered(0).unwrap(), b"");
    assert_eq!(stream.read_buffered(9).unwrap(), b"rld");
    assert_eq!(stream.read_buffered(9), None);
    assert!(stream.end_of_input(&StreamState::new()).is_ok());
}

#[test]
fn streams_end_when_dropped() {
    let mut stream = Stream::new(3);
    let mut state = StreamState::new();
    let fin = stream.fin_on_drop(&state, false).unwrap();
    assert_eq!((fin.command, fin.stream_id), (Command::Fin, 3));
    assert!(stream.fin_on_drop(&state, true).is_none());
    assert!(!stream.begin_shutdown(true));
    assert!(stream.fin_on_drop(&state, false).is_none());
    let other = Stream::new(4);
    state.mark_closed(StreamCloseReason::RemoteError("first".to_string()));
    state.mark_closed(StreamCloseReason::Closed);
    assert!(state.is_closed());
    assert_eq!(state.io_error().message, "first");
    assert!(other.fin_on_drop(&state, false).is_none());
}

#[test]
fn failures_have_to_fit_a_frame() {
    let (_, server) = agreed_sessions();
    let mut stream = Stream::new(1);
    let err = stream.report_handshake_failure(&server, &"x".repeat(70000)).err().unwrap();
    assert_eq!(err.message(), "protocol error: frame data too large: 70000 bytes");
}

#[test]
fn errors_are_passed_on() {
    let inner = IoError { kind: IoErrorKind::TimedOut, message: "slow".to_string() };
    let err = anytls_to_io_error(AnyTlsError::Io(inner));
    assert_eq!((err.kind, err.message.as_str()), (IoErrorKind::TimedOut, "slow"));
    let err = anytls_to_io_error(AnyTlsError::SessionClosed);
    assert_eq!((err.kind, err.message.as_str()), (IoErrorKind::Other, "session is closed"));
    assert_eq!(AnyTlsError::AuthenticationFailed.message(), "authentication failed");
    assert_eq!(AnyTlsError::InvalidDnsName("x y".to_string()).message(), "invalid DNS name: x y");
    assert_eq!((role_name(true), role_name(false)), ("client", "server"));
}

#[test]
fn written_data_arrives() {
    let padding = no_padding();
    let (_, mut server) = agreed_sessions();
    server.handle_frame(&padding, Frame::empty(Command::Syn, 1));
    let stream = Stream::new(1);
    let data: Vec<u8> = (0..150_000).map(|i| (i % 251) as u8).collect();
    let mut sent = 0;
    let mut arrived = Vec::new();
    while sent < data.len() {
        let (frame, len) = stream.data_frame(&data[sent..]);
        sent += len;
        for frame in [frame, Frame::new(Command::Waste, 0, vec![0; 9]).unwrap()] {
            let handled = server.handle_frame(&padding, frame);
            assert!(handled.outcome.unwrap());
            for action in handled.actions {
                match action {
                    Action::Deliver(1, part) => arrived.extend_from_slice(&part),
                    _ => panic!("nothing else is to be done"),
                }
            }
        }
    }
    assert_eq!(arrived, data);
}
