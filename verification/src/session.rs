//! Sessions: streams that share one connection.
//!
//! A [`Session`] decides what each frame that comes in leads to, and what is sent. Whoever runs
//! the connection performs the [`Action`]s in their order and reports back.

use vstd::prelude::*;
use vstd::slice::slice_to_vec;
use vstd::utf8::{encode_utf8, is_ascii_chars, is_ascii_chars_encode_utf8};

use std::collections::HashSet;

use bytes::Bytes;

use crate::buffer::{bytes_slice, bytes_view};
use crate::crypto::md5_digest;
use crate::digits::{
    dec, dec_value, hex_bytes, lemma_hex_bytes, lemma_parse_dec, parse_nat_upto, parse_unsigned,
};
use crate::error::{error_text, AnyTlsError, ErrorView, IoError, IoErrorKind, Result};
use crate::frame::{empty_frame, too_large, Command, Frame, FrameView, MAX_FRAME_DATA_LEN};
use crate::padding::{scheme_md5, scheme_stop, PaddingFactory};
use crate::settings::{
    entries_map, entry_line, entry_lines, lemma_listing_is, map_text, rising, settings_round_trip, text_map,
    EntryView, StringMap,
};
use crate::text::{bytes_text, chars_of, join, lossy_text};
use crate::writer::{flat, frames_bytes, frames_in, meaningful, padded_plan, padding_is_invisible, sendable};
use crate::PROGRAM_VERSION_NAME;

pub use crate::stream::Stream;

verus! {

broadcast use vstd::std_specs::hash::group_hash_axioms;

// Streams that have been closed.

/// Why a stream was closed.
#[derive(Clone, Debug)]
pub enum StreamCloseReason {
    Closed,
    /// The other side could not serve the stream, and said why.
    RemoteError(String),
}

/// The mathematical value of a [`StreamCloseReason`].
pub enum CloseReasonView {
    Closed,
    RemoteError(Seq<char>),
}

impl View for StreamCloseReason {
    type V = CloseReasonView;

    open spec fn view(&self) -> CloseReasonView {
        match self {
            StreamCloseReason::Closed => CloseReasonView::Closed,
            StreamCloseReason::RemoteError(message) => CloseReasonView::RemoteError(message@),
        }
    }
}

/// Whether a stream has been closed, and why.
pub struct StreamState {
    reason: Option<StreamCloseReason>,
}

impl View for StreamState {
    type V = Option<CloseReasonView>;

    closed spec fn view(&self) -> Option<CloseReasonView> {
        match self.reason {
            Some(reason) => Some(reason@),
            None => None,
        }
    }
}

/// The error that a closed stream gives to whoever still uses it.
pub open spec fn closed_error(reason: Option<CloseReasonView>) -> (IoErrorKind, Seq<char>) {
    match reason {
        Some(CloseReasonView::RemoteError(message)) => (IoErrorKind::Other, message),
        _ => (IoErrorKind::BrokenPipe, "stream is closed"@),
    }
}

fn broken_pipe(message: &str) -> (err: IoError)
    ensures
        err.kind == IoErrorKind::BrokenPipe,
        err.message@ == message@,
{
    IoError { kind: IoErrorKind::BrokenPipe, message: message.to_owned() }
}

impl StreamState {
    /// A stream that is open.
    pub fn new() -> (state: Self)
        ensures
            state@ is None,
    {
        StreamState { reason: None }
    }

    /// Closes the stream. The first reason stays.
    pub fn mark_closed(&mut self, reason: StreamCloseReason)
        ensures
            final(self)@ == match old(self)@ {
                Some(first) => Some(first),
                None => Some(reason@),
            },
    {
        if self.reason.is_none() {
            self.reason = Some(reason);
        }
    }

    /// Whether the stream has been closed.
    pub fn is_closed(&self) -> (closed: bool)
        ensures
            closed == self@ is Some,
    {
        self.reason.is_some()
    }

    /// The error for whoever still uses the stream.
    pub fn io_error(&self) -> (err: IoError)
        ensures
            (err.kind, err.message@) == closed_error(self@),
    {
        match &self.reason {
            Some(StreamCloseReason::RemoteError(message)) => IoError {
                kind: IoErrorKind::Other,
                message: message.clone(),
            },
            _ => broken_pipe("stream is closed"),
        }
    }
}

/// How an error is passed on to a transport.
pub open spec fn as_io_error(err: ErrorView) -> (IoErrorKind, Seq<char>) {
    match err {
        ErrorView::Io(kind, message) => (kind, message),
        other => (IoErrorKind::Other, error_text(other)),
    }
}

/// The error in the form in which a transport passes it on.
pub fn anytls_to_io_error(err: AnyTlsError) -> (io: IoError)
    ensures
        (io.kind, io.message@) == as_io_error(err@),
{
    match err {
        AnyTlsError::Io(io) => io,
        other => IoError { kind: IoErrorKind::Other, message: other.message() },
    }
}

/// A side's name.
pub fn role_name(is_client: bool) -> (name: &'static str)
    ensures
        name@ == if is_client {
            "client"@
        } else {
            "server"@
        },
{
    if is_client {
        "client"
    } else {
        "server"
    }
}

/// The padding scheme in force, for all sessions of one side.
pub struct SharedPadding {
    factory: PaddingFactory,
}

impl View for SharedPadding {
    type V = Seq<u8>;

    closed spec fn view(&self) -> Seq<u8> {
        self.factory@
    }
}

impl Default for SharedPadding {
    fn default() -> (shared: Self)
        ensures
            shared@ == encode_utf8(crate::padding::DEFAULT_PADDING_SCHEME@),
    {
        SharedPadding::new(PaddingFactory::default_scheme())
    }
}

impl SharedPadding {
    pub fn new(factory: PaddingFactory) -> (shared: Self)
        ensures
            shared@ == factory@,
    {
        SharedPadding { factory }
    }

    /// A copy of the scheme in force.
    pub fn get(&self) -> (factory: PaddingFactory)
        ensures
            factory@ == self@,
    {
        self.factory.clone()
    }

    /// Puts another scheme in force.
    pub fn update(&mut self, factory: PaddingFactory)
        ensures
            final(self)@ == factory@,
    {
        self.factory = factory;
    }
}

// What a session does.

/// What the runner of a session has to do.
pub enum Action {
    /// Queue the frame for the writing side.
    Send(Frame),
    /// Hand the data to the stream.
    Deliver(u32, Bytes),
    /// Serve the stream that the other side has opened.
    Open(u32),
    /// Tell the stream that it is closed.
    CloseStream(u32, StreamCloseReason),
    /// Tell every stream that it is closed.
    CloseAllStreams,
    /// Give the other side three seconds from now to acknowledge the stream, in place of any
    /// earlier wait.
    ArmSynAckTimeout(u32),
    /// Stop waiting for an acknowledgement.
    CancelSynAckTimeout,
    /// Put the padding scheme in force.
    UpdatePadding(PaddingFactory),
    /// Tell whoever waits for the end of the session.
    NotifyClosed,
    /// Let the writing side finish.
    CloseWriter,
}

/// The mathematical value of an [`Action`].
pub enum ActionView {
    Send(FrameView),
    Deliver(u32, Seq<u8>),
    Open(u32),
    CloseStream(u32, CloseReasonView),
    CloseAllStreams,
    ArmSynAckTimeout(u32),
    CancelSynAckTimeout,
    UpdatePadding(Seq<u8>),
    NotifyClosed,
    CloseWriter,
}

impl View for Action {
    type V = ActionView;

    open spec fn view(&self) -> ActionView {
        match self {
            Action::Send(frame) => ActionView::Send(frame@),
            Action::Deliver(id, data) => ActionView::Deliver(*id, bytes_view(*data)),
            Action::Open(id) => ActionView::Open(*id),
            Action::CloseStream(id, reason) => ActionView::CloseStream(*id, reason@),
            Action::CloseAllStreams => ActionView::CloseAllStreams,
            Action::ArmSynAckTimeout(id) => ActionView::ArmSynAckTimeout(*id),
            Action::CancelSynAckTimeout => ActionView::CancelSynAckTimeout,
            Action::UpdatePadding(factory) => ActionView::UpdatePadding(factory@),
            Action::NotifyClosed => ActionView::NotifyClosed,
            Action::CloseWriter => ActionView::CloseWriter,
        }
    }
}

pub open spec fn action_views(actions: Seq<Action>) -> Seq<ActionView> {
    actions.map_values(|action: Action| action@)
}

/// What came of a frame: things to do, in this order, and then whether to read on.
pub struct Handled {
    pub actions: Vec<Action>,
    pub outcome: Result<bool>,
}

/// The mathematical value of a `Result`.
pub open spec fn result_view<T>(result: Result<T>) -> core::result::Result<T, ErrorView> {
    match result {
        Ok(value) => Ok(value),
        Err(err) => Err(err@),
    }
}

/// The mathematical value of a [`Session`].
#[verifier::ext_equal]
pub struct SessionView {
    pub is_client: bool,
    pub closed: bool,
    /// The last stream that this side opened.
    pub last_stream_id: u32,
    pub seq: u64,
    /// The protocol version of the other side.
    pub peer_version: u8,
    /// The streams that are open.
    pub streams: Set<u32>,
    /// The stream whose acknowledgement is waited for.
    pub pending_syn_ack: Option<u32>,
    /// The client has sent its settings.
    pub received_settings: bool,
}

/// What a step of a session leads to.
#[verifier::ext_equal]
pub struct StepView {
    pub state: SessionView,
    pub actions: Seq<ActionView>,
    pub outcome: core::result::Result<bool, ErrorView>,
}

/// A step that goes on.
pub open spec fn goes_on(state: SessionView, actions: Seq<ActionView>) -> StepView {
    StepView { state, actions, outcome: Ok(true) }
}

/// A step with a frame to send, which a closed session refuses.
pub open spec fn sends(state: SessionView, actions: Seq<ActionView>, frame: FrameView, go_on: bool) -> StepView {
    if state.closed {
        StepView { state, actions, outcome: Err(ErrorView::SessionClosed) }
    } else {
        StepView { state, actions: actions.push(ActionView::Send(frame)), outcome: Ok(go_on) }
    }
}

/// A frame about the session as a whole.
pub open spec fn session_frame(command: Command, data: Seq<u8>) -> FrameView {
    FrameView { command, stream_id: 0, data }
}

/// What a client that opens a stream before it has sent its settings is told.
pub open spec fn no_settings_alert() -> FrameView {
    session_frame(Command::Alert, encode_utf8("client did not send its settings"@))
}

/// The version that settings state.
pub open spec fn stated_version(settings: Map<Seq<char>, Seq<char>>) -> Option<nat> {
    if settings.contains_key("v"@) {
        parse_nat_upto(settings["v"@], 255)
    } else {
        None
    }
}

/// Whether settings name this padding scheme.
pub open spec fn names_scheme(settings: Map<Seq<char>, Seq<char>>, padding: Seq<u8>) -> bool {
    settings.contains_key("padding-md5"@) && settings["padding-md5"@] == scheme_md5(padding)
}

/// The text of a client's settings.
pub open spec fn client_settings_text(padding: Seq<u8>) -> Seq<char> {
    "client=anytls-rust/0.1.0\npadding-md5="@ + scheme_md5(padding) + "\nv=2"@
}

/// What a client sends first.
pub open spec fn client_settings(padding: Seq<u8>) -> FrameView {
    session_frame(Command::Settings, encode_utf8(client_settings_text(padding)))
}

/// The text of a server's settings.
pub open spec fn server_settings() -> Seq<u8> {
    encode_utf8("v=2"@)
}

/// A client's settings are answered with the padding scheme, if they name another one, and with
/// the server's settings, if the client speaks the second version of the protocol.
pub open spec fn settings_step(state: SessionView, padding: Seq<u8>, data: Seq<u8>) -> StepView {
    let settings = text_map(bytes_text(data));
    let first = if names_scheme(settings, padding) {
        goes_on(state, Seq::empty())
    } else if padding.len() > MAX_FRAME_DATA_LEN {
        StepView { state, actions: Seq::empty(), outcome: Err(too_large(padding.len())) }
    } else {
        sends(state, Seq::empty(), session_frame(Command::UpdatePaddingScheme, padding), true)
    };
    if first.outcome is Err {
        first
    } else if stated_version(settings) matches Some(version) && version >= 2 {
        sends(
            SessionView { peer_version: 2, ..state },
            first.actions,
            session_frame(Command::ServerSettings, server_settings()),
            true,
        )
    } else {
        first
    }
}

/// A stream that the other side has closed.
pub open spec fn close_step(
    state: SessionView,
    actions: Seq<ActionView>,
    stream_id: u32,
    reason: CloseReasonView,
) -> StepView {
    if state.streams.contains(stream_id) {
        goes_on(
            SessionView { streams: state.streams.remove(stream_id), ..state },
            actions.push(ActionView::CloseStream(stream_id, reason)),
        )
    } else {
        goes_on(state, actions)
    }
}

/// Waiting for an acknowledgement ends.
pub open spec fn cancel_actions(state: SessionView) -> Seq<ActionView> {
    if state.pending_syn_ack is Some {
        seq![ActionView::CancelSynAckTimeout]
    } else {
        Seq::empty()
    }
}

/// What a frame leads to.
pub open spec fn handle(state: SessionView, padding: Seq<u8>, frame: FrameView) -> StepView {
    let id = frame.stream_id;
    match frame.command {
        Command::Psh => if frame.data.len() > 0 && state.streams.contains(id) {
            goes_on(state, seq![ActionView::Deliver(id, frame.data)])
        } else {
            goes_on(state, Seq::empty())
        },
        Command::Syn => if !state.is_client && !state.received_settings {
            sends(state, Seq::empty(), no_settings_alert(), false)
        } else if state.streams.contains(id) {
            goes_on(state, Seq::empty())
        } else {
            goes_on(SessionView { streams: state.streams.insert(id), ..state }, seq![ActionView::Open(id)])
        },
        Command::SynAck => {
            let answered = SessionView { pending_syn_ack: None, ..state };
            if frame.data.len() > 0 {
                close_step(
                    answered,
                    cancel_actions(state),
                    id,
                    CloseReasonView::RemoteError("remote: "@ + bytes_text(frame.data)),
                )
            } else {
                goes_on(answered, cancel_actions(state))
            }
        },
        Command::Fin => close_step(state, Seq::empty(), id, CloseReasonView::Closed),
        Command::Settings => if state.is_client {
            goes_on(state, Seq::empty())
        } else {
            settings_step(SessionView { received_settings: true, ..state }, padding, frame.data)
        },
        Command::Alert => StepView { state, actions: Seq::empty(), outcome: Ok(false) },
        Command::UpdatePaddingScheme => if state.is_client && scheme_stop(frame.data) is Some {
            goes_on(state, seq![ActionView::UpdatePadding(frame.data)])
        } else {
            goes_on(state, Seq::empty())
        },
        Command::HeartRequest => sends(state, Seq::empty(), empty_frame(Command::HeartResponse, id), true),
        Command::ServerSettings => if state.is_client {
            match stated_version(text_map(bytes_text(frame.data))) {
                Some(version) => goes_on(SessionView { peer_version: version as u8, ..state }, Seq::empty()),
                None => goes_on(state, Seq::empty()),
            }
        } else {
            goes_on(state, Seq::empty())
        },
        Command::Waste | Command::HeartResponse => goes_on(state, Seq::empty()),
    }
}

/// The state of a session that is closed, whatever it was before.
pub open spec fn closed_state(state: SessionView) -> SessionView {
    if state.closed {
        state
    } else {
        SessionView { closed: true, streams: Set::empty(), pending_syn_ack: None, ..state }
    }
}

/// What closing a session takes.
pub open spec fn close_actions(state: SessionView) -> Seq<ActionView> {
    if state.closed {
        Seq::empty()
    } else {
        cancel_actions(state) + seq![
            ActionView::CloseAllStreams,
            ActionView::NotifyClosed,
            ActionView::CloseWriter,
        ]
    }
}

/// Whether opening this stream starts a wait for its acknowledgement. The first stream of a
/// session has none.
pub open spec fn waits_for_ack(state: SessionView, id: int) -> bool {
    id >= 2 && state.peer_version >= 2 && state.is_client
}

/// The state after this side has opened a stream.
pub open spec fn opened_state(state: SessionView) -> SessionView {
    let id = (state.last_stream_id + 1) as u32;
    SessionView {
        last_stream_id: id,
        streams: state.streams.insert(id),
        pending_syn_ack: if waits_for_ack(state, id as int) {
            Some(id)
        } else {
            state.pending_syn_ack
        },
        ..state
    }
}

/// What opening a stream takes.
pub open spec fn open_actions(state: SessionView) -> Seq<ActionView> {
    let id = (state.last_stream_id + 1) as u32;
    let syn = ActionView::Send(empty_frame(Command::Syn, id));
    if waits_for_ack(state, id as int) {
        seq![ActionView::ArmSynAckTimeout(id), syn]
    } else {
        seq![syn]
    }
}

/// A session at its start.
pub open spec fn initial_state(is_client: bool) -> SessionView {
    SessionView {
        is_client,
        closed: false,
        last_stream_id: 0,
        seq: 0,
        peer_version: 1,
        streams: Set::empty(),
        pending_syn_ack: None,
        received_settings: false,
    }
}

/// A session's side of a connection.
pub struct Session {
    is_client: bool,
    closed: bool,
    last_stream_id: u32,
    seq: u64,
    peer_version: u8,
    streams: HashSet<u32>,
    pending_syn_ack: Option<u32>,
    received_settings: bool,
}

impl View for Session {
    type V = SessionView;

    closed spec fn view(&self) -> SessionView {
        SessionView {
            is_client: self.is_client,
            closed: self.closed,
            last_stream_id: self.last_stream_id,
            seq: self.seq,
            peer_version: self.peer_version,
            streams: self.streams@,
            pending_syn_ack: self.pending_syn_ack,
            received_settings: self.received_settings,
        }
    }
}

/// Appends the frame to what is to be done, unless the session is closed.
fn send(session: &Session, actions: &mut Vec<Action>, frame: Frame) -> (result: Result<()>)
    ensures
        match result {
            Ok(()) => !session@.closed && action_views(final(actions)@) == action_views(old(actions)@).push(
                ActionView::Send(frame@),
            ),
            Err(err) => session@.closed && err@ == ErrorView::SessionClosed && final(actions)@ == old(actions)@,
        },
{
    if session.closed {
        return Err(AnyTlsError::SessionClosed);
    }
    actions.push(Action::Send(frame));
    assert(action_views(actions@) =~= action_views(old(actions)@).push(ActionView::Send(frame@)));
    Ok(())
}

/// The version that settings state.
fn version_of(settings: &StringMap) -> (version: Option<u8>)
    ensures
        match version {
            Some(version) => stated_version(settings@) == Some(version as nat),
            None => stated_version(settings@) is None,
        },
{
    match settings.get("v") {
        Some(value) => match parse_unsigned(chars_of(value).as_slice(), 255) {
            Some(version) => Some(version as u8),
            None => None,
        },
        None => None,
    }
}

spec fn server_entries() -> Seq<EntryView> {
    seq![("v"@, "2"@)]
}

proof fn lemma_server_settings()
    ensures
        map_text(Map::empty().insert("v"@, "2"@)) == "v=2"@,
{
    let entries = server_entries();
    reveal_strlit("v");
    reveal_strlit("2");
    reveal_strlit("v=2");
    assert(entries.drop_last() =~= Seq::empty());
    reveal_with_fuel(entries_map, 2);
    assert(entries_map(entries) =~= Map::empty().insert("v"@, "2"@));
    lemma_listing_is(entries);
    assert(entry_line(entries[0]) =~= "v=2"@);
}

spec fn client_entries(padding: Seq<u8>) -> Seq<EntryView> {
    seq![("client"@, PROGRAM_VERSION_NAME@), ("padding-md5"@, scheme_md5(padding)), ("v"@, "2"@)]
}

spec fn client_map(padding: Seq<u8>) -> Map<Seq<char>, Seq<char>> {
    Map::empty().insert("v"@, "2"@).insert("client"@, PROGRAM_VERSION_NAME@).insert(
        "padding-md5"@,
        scheme_md5(padding),
    )
}

#[verifier::rlimit(60)]
proof fn lemma_client_settings(padding: Seq<u8>)
    ensures
        rising(client_entries(padding)),
        entries_map(client_entries(padding)) == client_map(padding),
        map_text(client_map(padding)) == client_settings_text(padding),
        "v"@ != "client"@,
        "v"@ != "padding-md5"@,
        "client"@ != "padding-md5"@,
{
    let entries = client_entries(padding);
    let md5 = scheme_md5(padding);
    reveal_strlit("v");
    reveal_strlit("2");
    reveal_strlit("client");
    reveal_strlit("padding-md5");
    reveal_strlit("anytls-rust/0.1.0");
    reveal_strlit("client=anytls-rust/0.1.0\npadding-md5=");
    reveal_strlit("\nv=2");
    assert("v"@[0] == 'v' && "client"@[0] == 'c' && "padding-md5"@[0] == 'p');
    assert(rising(entries));
    reveal_with_fuel(entries_map, 4);
    assert(entries.drop_last().drop_last().drop_last() =~= Seq::empty());
    assert(entries_map(entries) =~= client_map(padding));
    lemma_listing_is(entries);
    let lines = entry_lines(entries);
    reveal_with_fuel(join, 4);
    assert(lines[0] =~= "client"@.push('=') + PROGRAM_VERSION_NAME@);
    assert(lines[1] =~= "padding-md5"@.push('=') + md5);
    assert(lines[2] =~= "v"@.push('=') + "2"@);
    assert(map_text(client_map(padding)) =~= client_settings_text(padding));
}

proof fn lemma_settings_fit(padding: Seq<u8>)
    requires
        scheme_md5(padding).len() == 32,
    ensures
        encode_utf8(client_settings_text(padding)).len() <= MAX_FRAME_DATA_LEN,
{
    let text = client_settings_text(padding);
    reveal_strlit("client=anytls-rust/0.1.0\npadding-md5=");
    reveal_strlit("\nv=2");
    lemma_hex_bytes(md5_digest(padding));
    assert(is_ascii_chars(text));
    is_ascii_chars_encode_utf8(text);
}

impl Session {
    /// A client's session, and the frame that it sends first.
    pub fn new_client(padding: &PaddingFactory) -> (started: (Self, Frame))
        ensures
            started.0@ == initial_state(true),
            started.1@ == client_settings(padding@),
    {
        let mut settings = StringMap::new();
        settings.insert("v", "2");
        settings.insert("client", PROGRAM_VERSION_NAME);
        settings.insert("padding-md5", padding.md5());
        proof {
            lemma_client_settings(padding@);
        }
        let data = settings.to_bytes();
        let frame = Frame::new(Command::Settings, 0, data);
        proof {
            lemma_settings_fit(padding@);
        }
        (Session::start(true), frame.unwrap())
    }

    /// A server's session.
    pub fn new_server() -> (session: Self)
        ensures
            session@ == initial_state(false),
    {
        Session::start(false)
    }

    fn start(is_client: bool) -> (session: Self)
        ensures
            session@ == initial_state(is_client),
    {
        let session = Session {
            is_client,
            closed: false,
            last_stream_id: 0,
            seq: 0,
            peer_version: 1,
            streams: HashSet::new(),
            pending_syn_ack: None,
            received_settings: false,
        };
        assert(session@ =~= initial_state(is_client));
        session
    }

    /// The number by which a pool knows the session.
    pub fn seq(&self) -> (seq: u64)
        ensures
            seq == self@.seq,
    {
        self.seq
    }

    /// Gives the session a number.
    pub fn set_seq(&mut self, seq: u64)
        ensures
            final(self)@ == (SessionView { seq, ..old(self)@ }),
    {
        self.seq = seq;
    }

    /// Whether the session is closed.
    pub fn is_closed(&self) -> (closed: bool)
        ensures
            closed == self@.closed,
    {
        self.closed
    }

    /// Whether this is the client's side.
    pub fn is_client(&self) -> (is_client: bool)
        ensures
            is_client == self@.is_client,
    {
        self.is_client
    }

    /// The protocol version of the other side.
    pub fn peer_version(&self) -> (version: u8)
        ensures
            version == self@.peer_version,
    {
        self.peer_version
    }

    /// The last stream that this side opened.
    pub fn last_stream_id(&self) -> (id: u32)
        ensures
            id == self@.last_stream_id,
    {
        self.last_stream_id
    }

    /// Opens a stream. The streams of one side are numbered from one on.
    pub fn open_stream(&mut self) -> (opened: Result<(u32, Vec<Action>)>)
        requires
            old(self)@.last_stream_id < u32::MAX,
        ensures
            match opened {
                Ok((id, actions)) => !old(self)@.closed && id == old(self)@.last_stream_id + 1 && action_views(
                    actions@,
                ) == open_actions(old(self)@) && final(self)@ == opened_state(old(self)@),
                Err(err) => old(self)@.closed && err@ == ErrorView::SessionClosed && final(self)@ == old(self)@,
            },
    {
        if self.closed {
            return Err(AnyTlsError::SessionClosed);
        }
        let id: u32 = self.last_stream_id + 1;
        self.last_stream_id = id;
        self.streams.insert(id);
        let mut actions: Vec<Action> = Vec::new();
        if id >= 2 && self.peer_version >= 2 && self.is_client {
            self.pending_syn_ack = Some(id);
            actions.push(Action::ArmSynAckTimeout(id));
        }
        actions.push(Action::Send(Frame::empty(Command::Syn, id)));
        assert(self@ =~= opened_state(old(self)@));
        assert(action_views(actions@) =~= open_actions(old(self)@));
        Ok((id, actions))
    }

    /// The writing side is gone: nothing more can be sent.
    pub fn writer_lost(&mut self)
        ensures
            final(self)@ == (SessionView { closed: true, ..old(self)@ }),
    {
        self.closed = true;
    }

    /// Nobody reads the stream any more.
    pub fn stream_lost(&mut self, stream_id: u32)
        ensures
            final(self)@ == (SessionView { streams: old(self)@.streams.remove(stream_id), ..old(self)@ }),
    {
        self.streams.remove(&stream_id);
        assert(self@ =~= (SessionView { streams: old(self)@.streams.remove(stream_id), ..old(self)@ }));
    }

    /// Closes the session and all its streams. A session is closed once.
    pub fn mark_closed(&mut self) -> (actions: Vec<Action>)
        ensures
            final(self)@ == closed_state(old(self)@),
            action_views(actions@) == close_actions(old(self)@),
    {
        let mut actions: Vec<Action> = Vec::new();
        if self.closed {
            assert(action_views(actions@) =~= close_actions(old(self)@));
            return actions;
        }
        self.closed = true;
        self.streams.clear();
        self.clear_syn_ack_timeout(&mut actions);
        actions.push(Action::CloseAllStreams);
        actions.push(Action::NotifyClosed);
        actions.push(Action::CloseWriter);
        assert(self@ =~= closed_state(old(self)@));
        assert(action_views(actions@) =~= close_actions(old(self)@));
        actions
    }

    /// Closes the session at this side's wish.
    pub fn close(&mut self) -> (actions: Vec<Action>)
        ensures
            final(self)@ == closed_state(old(self)@),
            action_views(actions@) == close_actions(old(self)@).push(ActionView::CloseWriter),
    {
        let mut actions = self.mark_closed();
        let ghost before = action_views(actions@);
        actions.push(Action::CloseWriter);
        assert(action_views(actions@) =~= before.push(ActionView::CloseWriter));
        actions
    }

    /// The wait for a stream's acknowledgement is over. The session is closed, unless the wait
    /// had been called off.
    pub fn syn_ack_timed_out(&mut self, stream_id: u32) -> (actions: Vec<Action>)
        ensures
            final(self)@ == if old(self)@.pending_syn_ack == Some(stream_id) {
                closed_state(old(self)@)
            } else {
                old(self)@
            },
            action_views(actions@) == if old(self)@.pending_syn_ack == Some(stream_id) {
                close_actions(old(self)@)
            } else {
                Seq::empty()
            },
    {
        let due = match self.pending_syn_ack {
            Some(waiting) => waiting == stream_id,
            None => false,
        };
        if due {
            self.mark_closed()
        } else {
            let actions: Vec<Action> = Vec::new();
            assert(action_views(actions@) =~= Seq::empty());
            actions
        }
    }

    fn clear_syn_ack_timeout(&mut self, actions: &mut Vec<Action>)
        ensures
            final(self)@ == (SessionView { pending_syn_ack: None, ..old(self)@ }),
            action_views(final(actions)@) == action_views(old(actions)@) + cancel_actions(old(self)@),
    {
        if self.pending_syn_ack.is_some() {
            self.pending_syn_ack = None;
            actions.push(Action::CancelSynAckTimeout);
        }
        assert(action_views(actions@) =~= action_views(old(actions)@) + cancel_actions(old(self)@));
    }

    fn close_stream_locally(&mut self, actions: &mut Vec<Action>, stream_id: u32, reason: StreamCloseReason)
        ensures
            final(self)@ == close_step(old(self)@, action_views(old(actions)@), stream_id, reason@).state,
            action_views(final(actions)@) == close_step(
                old(self)@,
                action_views(old(actions)@),
                stream_id,
                reason@,
            ).actions,
    {
        if self.streams.contains(&stream_id) {
            self.streams.remove(&stream_id);
            actions.push(Action::CloseStream(stream_id, reason));
            assert(self@ =~= (SessionView { streams: old(self)@.streams.remove(stream_id), ..old(self)@ }));
            assert(action_views(actions@) =~= action_views(old(actions)@).push(
                ActionView::CloseStream(stream_id, reason@),
            ));
        }
    }

    fn handle_settings(&mut self, padding: &PaddingFactory, data: &[u8]) -> (handled: Handled)
        ensures
            final(self)@ == settings_step(old(self)@, padding@, data@).state,
            action_views(handled.actions@) == settings_step(old(self)@, padding@, data@).actions,
            result_view(handled.outcome) == settings_step(old(self)@, padding@, data@).outcome,
    {
        let mut actions: Vec<Action> = Vec::new();
        assert(action_views(actions@) =~= Seq::empty());
        let settings = StringMap::from_bytes(data);
        let same = match settings.get("padding-md5") {
            Some(md5) => md5.to_owned() == padding.md5().to_owned(),
            None => false,
        };
        if !same {
            let update = match Frame::new(Command::UpdatePaddingScheme, 0, slice_to_vec(padding.raw_scheme())) {
                Ok(update) => update,
                Err(err) => {
                    return Handled { actions, outcome: Err(err) };
                },
            };
            match send(self, &mut actions, update) {
                Ok(()) => {},
                Err(err) => {
                    return Handled { actions, outcome: Err(err) };
                },
            }
        }
        let second = match version_of(&settings) {
            Some(version) => version >= 2,
            None => false,
        };
        if second {
            self.peer_version = 2;
            let mut server_settings = StringMap::new();
            server_settings.insert("v", "2");
            proof {
                lemma_server_settings();
                reveal_strlit("v=2");
                assert(is_ascii_chars("v=2"@));
                is_ascii_chars_encode_utf8("v=2"@);
            }
            let frame = Frame::new(Command::ServerSettings, 0, server_settings.to_bytes()).unwrap();
            match send(self, &mut actions, frame) {
                Ok(()) => {},
                Err(err) => {
                    return Handled { actions, outcome: Err(err) };
                },
            }
        }
        Handled { actions, outcome: Ok(true) }
    }

    /// Decides what a frame that has come in leads to.
    pub fn handle_frame(&mut self, padding: &PaddingFactory, frame: Frame) -> (handled: Handled)
        ensures
            final(self)@ == handle(old(self)@, padding@, frame@).state,
            action_views(handled.actions@) == handle(old(self)@, padding@, frame@).actions,
            result_view(handled.outcome) == handle(old(self)@, padding@, frame@).outcome,
    {
        let mut actions: Vec<Action> = Vec::new();
        assert(action_views(actions@) =~= Seq::empty());
        let stream_id: u32 = frame.stream_id;
        match frame.command {
            Command::Psh => {
                if bytes_slice(&frame.data).len() > 0 && self.streams.contains(&stream_id) {
                    actions.push(Action::Deliver(stream_id, frame.data));
                    assert(action_views(actions@) =~= seq![ActionView::Deliver(stream_id, frame@.data)]);
                }
            },
            Command::Syn => {
                if !self.is_client && !self.received_settings {
                    let data = slice_to_vec("client did not send its settings".as_bytes());
                    proof {
                        reveal_strlit("client did not send its settings");
                        assert(is_ascii_chars("client did not send its settings"@));
                        is_ascii_chars_encode_utf8("client did not send its settings"@);
                    }
                    let alert = Frame::new(Command::Alert, 0, data).unwrap();
                    return match send(self, &mut actions, alert) {
                        Ok(()) => Handled { actions, outcome: Ok(false) },
                        Err(err) => Handled { actions, outcome: Err(err) },
                    };
                }
                if !self.streams.contains(&stream_id) {
                    self.streams.insert(stream_id);
                    actions.push(Action::Open(stream_id));
                    assert(self@ =~= (SessionView { streams: old(self)@.streams.insert(stream_id), ..old(self)@ }));
                    assert(action_views(actions@) =~= seq![ActionView::Open(stream_id)]);
                }
            },
            Command::SynAck => {
                self.clear_syn_ack_timeout(&mut actions);
                assert(action_views(actions@) =~= cancel_actions(old(self)@));
                let data = bytes_slice(&frame.data);
                if data.len() > 0 {
                    let message = String::from_str("remote: ").concat(lossy_text(data).as_str());
                    self.close_stream_locally(&mut actions, stream_id, StreamCloseReason::RemoteError(message));
                }
            },
            Command::Fin => {
                self.close_stream_locally(&mut actions, stream_id, StreamCloseReason::Closed);
            },
            Command::Settings => {
                if !self.is_client {
                    self.received_settings = true;
                    return self.handle_settings(padding, bytes_slice(&frame.data));
                }
            },
            Command::Alert => {
                return Handled { actions, outcome: Ok(false) };
            },
            Command::UpdatePaddingScheme => {
                if self.is_client {
                    if let Some(factory) = PaddingFactory::new(bytes_slice(&frame.data)) {
                        actions.push(Action::UpdatePadding(factory));
                        assert(action_views(actions@) =~= seq![ActionView::UpdatePadding(frame@.data)]);
                    }
                }
            },
            Command::HeartRequest => {
                let reply = Frame::empty(Command::HeartResponse, stream_id);
                if let Err(err) = send(self, &mut actions, reply) {
                    return Handled { actions, outcome: Err(err) };
                }
            },
            Command::ServerSettings => {
                if self.is_client {
                    let settings = StringMap::from_bytes(bytes_slice(&frame.data));
                    if let Some(version) = version_of(&settings) {
                        self.peer_version = version;
                    }
                }
            },
            Command::Waste | Command::HeartResponse => {},
        }
        Handled { actions, outcome: Ok(true) }
    }
}

// What holds of every session.

/// A session that is closed stays closed, and nothing that comes in closes one by itself.
pub proof fn frames_do_not_reopen(state: SessionView, padding: Seq<u8>, frame: FrameView)
    ensures
        handle(state, padding, frame).state.closed == state.closed,
        handle(state, padding, frame).state.is_client == state.is_client,
        handle(state, padding, frame).state.last_stream_id == state.last_stream_id,
{
}

/// A closed session sends nothing.
pub proof fn closed_session_is_silent(state: SessionView, padding: Seq<u8>, frame: FrameView, i: int)
    requires
        state.closed,
        0 <= i < handle(state, padding, frame).actions.len(),
    ensures
        handle(state, padding, frame).actions[i] !is Send,
{
}

/// Until a client has sent its settings, a server serves no stream of it: a request for one is
/// answered with an alert, and reading stops there.
pub proof fn server_wants_settings_first(state: SessionView, padding: Seq<u8>, frame: FrameView)
    requires
        !state.is_client,
        !state.received_settings,
    ensures
        forall|i: int|
            0 <= i < handle(state, padding, frame).actions.len() ==> (#[trigger] handle(
                state,
                padding,
                frame,
            ).actions[i]) !is Open,
        handle(state, padding, frame).state.streams.subset_of(state.streams),
        frame.command == Command::Syn && !state.closed ==> handle(state, padding, frame) == (StepView {
            state,
            actions: seq![ActionView::Send(no_settings_alert())],
            outcome: Ok(false),
        }),
{
    assert(handle(state, padding, frame).actions =~= handle(state, padding, frame).actions);
    assert(Seq::<ActionView>::empty().push(ActionView::Send(no_settings_alert())) =~= seq![
        ActionView::Send(no_settings_alert()),
    ]);
}

/// Waste means nothing to either side.
pub proof fn waste_means_nothing(state: SessionView, padding: Seq<u8>, frame: FrameView)
    requires
        frame.command == Command::Waste,
    ensures
        handle(state, padding, frame) == goes_on(state, Seq::empty()),
{
}

/// What frames lead to that are handled one after the other, until one of them ends the reading.
pub open spec fn handle_all(state: SessionView, padding: Seq<u8>, frames: Seq<FrameView>) -> StepView
    decreases frames.len(),
{
    if frames.len() == 0 {
        goes_on(state, Seq::empty())
    } else {
        let first = handle(state, padding, frames[0]);
        if first.outcome == core::result::Result::<bool, ErrorView>::Ok(true) {
            let rest = handle_all(first.state, padding, frames.drop_first());
            StepView { actions: first.actions + rest.actions, ..rest }
        } else {
            first
        }
    }
}

/// Frames lead to the same with and without the waste between them.
pub proof fn waste_is_skipped(state: SessionView, padding: Seq<u8>, frames: Seq<FrameView>)
    ensures
        handle_all(state, padding, meaningful(frames)) == handle_all(state, padding, frames),
    decreases frames.len(),
{
    let keep = |frame: FrameView| frame.command != Command::Waste;
    if frames.len() == 0 {
        reveal(Seq::filter);
        assert(meaningful(frames) =~= frames);
    } else {
        let first = seq![frames[0]];
        let tail = frames.drop_first();
        assert(frames =~= first + tail);
        Seq::filter_distributes_over_add(first, tail, keep);
        assert(first.filter(keep) =~= if keep(frames[0]) {
            first
        } else {
            Seq::empty()
        }) by {
            reveal(Seq::filter);
            assert(first.drop_last() =~= Seq::empty());
            assert(first.drop_last().filter(keep) =~= Seq::empty());
        }
        let step = handle(state, padding, frames[0]);
        waste_is_skipped(step.state, padding, tail);
        if keep(frames[0]) {
            assert(meaningful(frames).drop_first() =~= meaningful(tail));
            assert(meaningful(frames)[0] == frames[0]);
        } else {
            assert(meaningful(frames) =~= meaningful(tail));
            let rest = handle_all(step.state, padding, tail);
            assert(step.actions + rest.actions =~= rest.actions);
        }
    }
}

/// Frames lead to the same however they were padded.
pub proof fn padding_changes_nothing(
    state: SessionView,
    padding: Seq<u8>,
    frames: Seq<FrameView>,
    sizes: Seq<i32>,
)
    requires
        sendable(frames),
        padded_plan(frames_bytes(frames), sizes).result is Ok,
    ensures
        handle_all(state, padding, frames_in(flat(padded_plan(frames_bytes(frames), sizes).chunks))) == handle_all(
            state,
            padding,
            frames,
        ),
{
    padding_is_invisible(frames, sizes);
    waste_is_skipped(state, padding, frames);
    waste_is_skipped(state, padding, frames_in(flat(padded_plan(frames_bytes(frames), sizes).chunks)));
}

#[verifier::rlimit(60)]
proof fn lemma_client_settings_read(padding: Seq<u8>)
    ensures
        text_map(bytes_text(client_settings(padding).data)) == client_map(padding),
        names_scheme(client_map(padding), padding),
        client_map(padding)["v"@] == "2"@,
        stated_version(client_map(padding)) == Some(2nat),
{
    let entries = client_entries(padding);
    let map = client_map(padding);
    lemma_client_settings(padding);
    lemma_hex_bytes(md5_digest(padding));
    reveal_strlit("v");
    reveal_strlit("2");
    reveal_strlit("client");
    reveal_strlit("padding-md5");
    reveal_strlit("anytls-rust/0.1.0");
    assert forall|key: Seq<char>| #[trigger] map.contains_key(key) implies !key.contains('=') && !key.contains(
        '\n',
    ) && !map[key].contains('\n') by {
        assert(key == "v"@ || key == "client"@ || key == "padding-md5"@);
    }
    settings_round_trip(entries);
    lemma_two();
}

proof fn lemma_two()
    ensures
        parse_nat_upto("2"@, 255) == Some(2nat),
{
    reveal_strlit("2");
    reveal_with_fuel(dec_value, 2);
    assert("2"@.drop_last() =~= Seq::empty());
}

/// A server that has the client's padding scheme does not send it again. It answers a client's
/// settings with its own, and both sides then know that the other speaks the second version.
#[verifier::rlimit(60)]
pub proof fn settings_are_agreed(server: SessionView, client: SessionView, padding: Seq<u8>)
    requires
        !server.is_client,
        !server.closed,
        client.is_client,
    ensures
        handle(server, padding, client_settings(padding)) == goes_on(
            SessionView { received_settings: true, peer_version: 2, ..server },
            seq![ActionView::Send(session_frame(Command::ServerSettings, server_settings()))],
        ),
        handle(client, padding, session_frame(Command::ServerSettings, server_settings())).state
            == (SessionView { peer_version: 2, ..client }),
{
    lemma_client_settings_read(padding);
    let known = SessionView { received_settings: true, ..server };
    let reply = session_frame(Command::ServerSettings, server_settings());
    assert(Seq::<ActionView>::empty().push(ActionView::Send(reply)) =~= seq![ActionView::Send(reply)]);
    let map = Map::empty().insert("v"@, "2"@);
    let entries = server_entries();
    lemma_server_settings();
    reveal_strlit("v");
    reveal_strlit("2");
    reveal_with_fuel(entries_map, 2);
    assert(entries.drop_last() =~= Seq::empty());
    assert(entries_map(entries) =~= map);
    assert forall|key: Seq<char>| #[trigger] map.contains_key(key) implies !key.contains('=') && !key.contains(
        '\n',
    ) && !map[key].contains('\n') by {
        assert(key == "v"@);
    }
    settings_round_trip(entries);
    lemma_two();
}

/// A client that names another padding scheme is sent the server's, puts it in force, and names
/// that one from then on.
pub proof fn padding_is_agreed(
    server: SessionView,
    client: SessionView,
    server_padding: Seq<u8>,
    client_padding: Seq<u8>,
)
    requires
        !server.is_client,
        !server.closed,
        client.is_client,
        server_padding.len() <= MAX_FRAME_DATA_LEN,
        scheme_stop(server_padding) is Some,
        scheme_md5(server_padding) != scheme_md5(client_padding),
    ensures
        handle(server, server_padding, client_settings(client_padding)).actions[0] == ActionView::Send(
            session_frame(Command::UpdatePaddingScheme, server_padding),
        ),
        handle(client, client_padding, session_frame(Command::UpdatePaddingScheme, server_padding)).actions == seq![
            ActionView::UpdatePadding(server_padding),
        ],
        names_scheme(text_map(bytes_text(client_settings(server_padding).data)), server_padding),
{
    lemma_client_settings_read(client_padding);
    lemma_client_settings_read(server_padding);
    lemma_client_settings(client_padding);
}

/// A stream that the other side opens is served, whichever other streams are open: it is opened
/// and nothing else is done, it joins the open streams, the others stay, and reading goes on.
pub proof fn every_new_stream_is_served(state: SessionView, padding: Seq<u8>, frame: FrameView)
    requires
        frame.command == Command::Syn,
        state.is_client || state.received_settings,
        !state.streams.contains(frame.stream_id),
    ensures
        ({
            let step = handle(state, padding, frame);
            &&& step.actions == seq![ActionView::Open(frame.stream_id)]
            &&& step.outcome == Ok::<bool, ErrorView>(true)
            &&& forall|id: u32| #[trigger]
                step.state.streams.contains(id) <==> id == frame.stream_id || state.streams.contains(id)
            &&& step.state == (SessionView { streams: step.state.streams, ..state })
        }),
{
}

/// A stream that is open is not opened again.
pub proof fn open_streams_are_not_opened_again(state: SessionView, padding: Seq<u8>, frame: FrameView)
    requires
        frame.command == Command::Syn,
        state.is_client || state.received_settings,
        state.streams.contains(frame.stream_id),
    ensures
        handle(state, padding, frame) == (StepView {
            state,
            actions: Seq::empty(),
            outcome: Ok::<bool, ErrorView>(true),
        }),
{
}

/// Data is handed to its stream if that is open, whole and once, and is dropped otherwise. It
/// changes nothing else.
pub proof fn data_goes_to_its_stream(state: SessionView, padding: Seq<u8>, frame: FrameView)
    requires
        frame.command == Command::Psh,
    ensures
        ({
            let step = handle(state, padding, frame);
            &&& step.state == state
            &&& step.outcome == Ok::<bool, ErrorView>(true)
            &&& state.streams.contains(frame.stream_id) && frame.data.len() > 0 ==> step.actions == seq![
                ActionView::Deliver(frame.stream_id, frame.data),
            ]
            &&& !state.streams.contains(frame.stream_id) || frame.data.len() == 0 ==> step.actions.len() == 0
        }),
{
}

/// The end of a stream closes that stream and no other one. The end of a stream that is not open
/// means nothing.
pub proof fn an_end_closes_its_stream(state: SessionView, padding: Seq<u8>, frame: FrameView)
    requires
        frame.command == Command::Fin,
    ensures
        ({
            let step = handle(state, padding, frame);
            &&& step.outcome == Ok::<bool, ErrorView>(true)
            &&& forall|id: u32| #[trigger]
                step.state.streams.contains(id) <==> id != frame.stream_id && state.streams.contains(id)
            &&& step.state == (SessionView { streams: step.state.streams, ..state })
            &&& state.streams.contains(frame.stream_id) ==> step.actions == seq![
                ActionView::CloseStream(frame.stream_id, CloseReasonView::Closed),
            ]
            &&& !state.streams.contains(frame.stream_id) ==> step.actions.len() == 0
        }),
{
    let step = handle(state, padding, frame);
    assert(Seq::<ActionView>::empty().push(ActionView::CloseStream(frame.stream_id, CloseReasonView::Closed)) =~= seq![
        ActionView::CloseStream(frame.stream_id, CloseReasonView::Closed),
    ]);
    assert(step.state =~= (SessionView { streams: step.state.streams, ..state }));
}

/// An acknowledgement ends the wait for one. One without data leaves every stream open; one with
/// data closes its stream, if that is open, and the data is the reason.
#[verifier::rlimit(40)]
pub proof fn an_acknowledgement_ends_the_wait(state: SessionView, padding: Seq<u8>, frame: FrameView)
    requires
        frame.command == Command::SynAck,
    ensures
        ({
            let step = handle(state, padding, frame);
            let refused = frame.data.len() > 0 && state.streams.contains(frame.stream_id);
            let close = ActionView::CloseStream(
                frame.stream_id,
                CloseReasonView::RemoteError("remote: "@ + bytes_text(frame.data)),
            );
            &&& step.outcome == Ok::<bool, ErrorView>(true)
            &&& step.state.pending_syn_ack is None
            &&& step.state == (SessionView {
                pending_syn_ack: None,
                streams: step.state.streams,
                ..state
            })
            &&& forall|id: u32| #[trigger]
                step.state.streams.contains(id) <==> state.streams.contains(id) && !(refused && id == frame.stream_id)
            &&& state.pending_syn_ack is Some && refused ==> step.actions == seq![
                ActionView::CancelSynAckTimeout,
                close,
            ]
            &&& state.pending_syn_ack is Some && !refused ==> step.actions == seq![ActionView::CancelSynAckTimeout]
            &&& state.pending_syn_ack is None && refused ==> step.actions == seq![close]
            &&& state.pending_syn_ack is None && !refused ==> step.actions.len() == 0
        }),
{
    let step = handle(state, padding, frame);
    let close = ActionView::CloseStream(
        frame.stream_id,
        CloseReasonView::RemoteError("remote: "@ + bytes_text(frame.data)),
    );
    assert(Seq::<ActionView>::empty().push(close) =~= seq![close]);
    assert(seq![ActionView::CancelSynAckTimeout].push(close) =~= seq![ActionView::CancelSynAckTimeout, close]);
    assert(step.state =~= (SessionView { pending_syn_ack: None, streams: step.state.streams, ..state }));
}

/// A request for a sign of life is answered with one for the same stream, and nothing changes. The
/// answer to one means nothing.
pub proof fn signs_of_life_are_answered(state: SessionView, padding: Seq<u8>, frame: FrameView)
    requires
        frame.command == Command::HeartRequest || frame.command == Command::HeartResponse,
    ensures
        ({
            let step = handle(state, padding, frame);
            &&& step.state == state
            &&& frame.command == Command::HeartRequest && !state.closed ==> step.actions == seq![
                ActionView::Send(
                    FrameView { command: Command::HeartResponse, stream_id: frame.stream_id, data: Seq::empty() },
                ),
            ] && step.outcome == Ok::<bool, ErrorView>(true)
            &&& frame.command == Command::HeartRequest && state.closed ==> step.actions.len() == 0 && step.outcome
                == Err::<bool, ErrorView>(ErrorView::SessionClosed)
            &&& frame.command == Command::HeartResponse ==> step.actions.len() == 0 && step.outcome == Ok::<
                bool,
                ErrorView,
            >(true)
        }),
{
    let reply = ActionView::Send(
        FrameView { command: Command::HeartResponse, stream_id: frame.stream_id, data: Seq::empty() },
    );
    assert(Seq::<ActionView>::empty().push(reply) =~= seq![reply]);
}

/// An alert ends the reading and does nothing else. Nothing but an alert, or a stream that a client
/// opens before it has sent its settings, ends the reading of a session that is open.
pub proof fn only_alerts_end_the_reading(state: SessionView, padding: Seq<u8>, frame: FrameView)
    ensures
        frame.command == Command::Alert ==> handle(state, padding, frame) == (StepView {
            state,
            actions: Seq::empty(),
            outcome: Ok::<bool, ErrorView>(false),
        }),
        !state.closed && padding.len() <= 65535 && frame.command != Command::Alert && !(frame.command == Command::Syn
            && !state.is_client && !state.received_settings) ==> handle(state, padding, frame).outcome == Ok::<
            bool,
            ErrorView,
        >(true),
{
}

/// A frame concerns its own stream: whether any other stream is open stays as it is, and nothing
/// that is done names another stream. Only the commands that open and close streams do so.
pub proof fn frames_concern_their_stream(state: SessionView, padding: Seq<u8>, frame: FrameView, other: u32, i: int)
    requires
        other != frame.stream_id,
    ensures
        ({
            let step = handle(state, padding, frame);
            &&& step.state.streams.contains(other) == state.streams.contains(other)
            &&& frame.command != Command::Syn && frame.command != Command::SynAck && frame.command != Command::Fin
                ==> step.state.streams == state.streams
            &&& 0 <= i < step.actions.len() ==> match step.actions[i] {
                ActionView::Deliver(id, _) => id == frame.stream_id,
                ActionView::Open(id) => id == frame.stream_id,
                ActionView::CloseStream(id, _) => id == frame.stream_id,
                ActionView::ArmSynAckTimeout(_) => false,
                ActionView::CloseAllStreams | ActionView::NotifyClosed | ActionView::CloseWriter => false,
                _ => true,
            }
        }),
{
}

/// The version of the other side, the wait for an acknowledgement and the note that settings have
/// come change with the frames that are about them and with no others. The session's number and
/// its own streams' numbers never do.
pub proof fn frames_change_what_they_are_about(state: SessionView, padding: Seq<u8>, frame: FrameView)
    ensures
        ({
            let after = handle(state, padding, frame).state;
            &&& after.seq == state.seq
            &&& after.last_stream_id == state.last_stream_id
            &&& after.peer_version != state.peer_version ==> if state.is_client {
                frame.command == Command::ServerSettings
            } else {
                frame.command == Command::Settings && after.peer_version == 2
            }
            &&& after.pending_syn_ack == if frame.command == Command::SynAck {
                None
            } else {
                state.pending_syn_ack
            }
            &&& after.received_settings == (state.received_settings || (!state.is_client && frame.command
                == Command::Settings))
        }),
{
}

/// A server answers a client's settings with its padding scheme if and only if they do not name
/// it, and with its own settings if and only if they state the second version of the protocol or a
/// later one. The scheme comes first, and nothing else is done.
#[verifier::rlimit(40)]
pub proof fn settings_are_answered(server: SessionView, padding: Seq<u8>, frame: FrameView, version: nat)
    requires
        frame.command == Command::Settings,
        !server.is_client,
        !server.closed,
        padding.len() <= 65535,
        text_map(bytes_text(frame.data)).contains_key("v"@),
        text_map(bytes_text(frame.data))["v"@] == dec(version),
        version <= 255,
    ensures
        ({
            let settings = text_map(bytes_text(frame.data));
            let step = handle(server, padding, frame);
            let scheme = ActionView::Send(
                FrameView { command: Command::UpdatePaddingScheme, stream_id: 0, data: padding },
            );
            let reply = ActionView::Send(
                FrameView { command: Command::ServerSettings, stream_id: 0, data: encode_utf8("v=2"@) },
            );
            let same = settings.contains_key("padding-md5"@) && settings["padding-md5"@] == hex_bytes(
                md5_digest(padding),
            );
            &&& step.outcome == Ok::<bool, ErrorView>(true)
            &&& same && version < 2 ==> step.actions.len() == 0
            &&& same && version >= 2 ==> step.actions == seq![reply]
            &&& !same && version < 2 ==> step.actions == seq![scheme]
            &&& !same && version >= 2 ==> step.actions == seq![scheme, reply]
            &&& step.state == (SessionView {
                received_settings: true,
                peer_version: if version >= 2 {
                    2
                } else {
                    server.peer_version
                },
                ..server
            })
        }),
{
    lemma_parse_dec(version);
    let scheme = ActionView::Send(session_frame(Command::UpdatePaddingScheme, padding));
    let reply = ActionView::Send(session_frame(Command::ServerSettings, server_settings()));
    assert(Seq::<ActionView>::empty().push(scheme) =~= seq![scheme]);
    assert(Seq::<ActionView>::empty().push(reply) =~= seq![reply]);
    assert(seq![scheme].push(reply) =~= seq![scheme, reply]);
}

/// Settings that state no version, or none that one byte holds, leave the other side at the version that it had, and a server
/// does not answer them with its own.
pub proof fn settings_without_a_version(
    state: SessionView,
    padding: Seq<u8>,
    frame: FrameView,
    version: nat,
    i: int,
)
    requires
        frame.command == Command::Settings || frame.command == Command::ServerSettings,
        !text_map(bytes_text(frame.data)).contains_key("v"@) || (version > 255 && text_map(
            bytes_text(frame.data),
        )["v"@] == dec(version)),
    ensures
        ({
            let step = handle(state, padding, frame);
            &&& step.state.peer_version == state.peer_version
            &&& 0 <= i < step.actions.len() ==> step.actions[i] == ActionView::Send(
                FrameView { command: Command::UpdatePaddingScheme, stream_id: 0, data: padding },
            )
        }),
{
    lemma_parse_dec(version);
}

/// A client takes the version that a server states for the server's, and does nothing else about
/// it. A server takes none from its client in this way.
pub proof fn a_server_states_its_version(state: SessionView, padding: Seq<u8>, frame: FrameView, version: u8)
    requires
        frame.command == Command::ServerSettings,
        text_map(bytes_text(frame.data)).contains_key("v"@),
        text_map(bytes_text(frame.data))["v"@] == dec(version as nat),
    ensures
        ({
            let step = handle(state, padding, frame);
            &&& step.actions.len() == 0
            &&& step.outcome == Ok::<bool, ErrorView>(true)
            &&& step.state == if state.is_client {
                SessionView { peer_version: version, ..state }
            } else {
                state
            }
        }),
{
    lemma_parse_dec(version as nat);
}

/// A client puts the padding scheme that a server sends in force if it is one, and otherwise keeps
/// its own. A server takes no scheme, and a client no settings, from the other side.
pub proof fn schemes_come_from_servers(state: SessionView, padding: Seq<u8>, frame: FrameView)
    ensures
        frame.command == Command::UpdatePaddingScheme ==> ({
            let step = handle(state, padding, frame);
            &&& step.state == state
            &&& step.outcome == Ok::<bool, ErrorView>(true)
            &&& state.is_client && scheme_stop(frame.data) is Some ==> step.actions == seq![
                ActionView::UpdatePadding(frame.data),
            ]
            &&& !state.is_client || scheme_stop(frame.data) is None ==> step.actions.len() == 0
        }),
        frame.command == Command::Settings && state.is_client ==> handle(state, padding, frame) == (StepView {
            state,
            actions: Seq::empty(),
            outcome: Ok::<bool, ErrorView>(true),
        }),
{
}

/// A stream that one side opens gets the number behind the last one, joins the open streams and is
/// announced; the other side then serves a stream of that number. A client waits for the
/// acknowledgement of every stream but the first, if the server speaks the second version.
pub proof fn opened_streams_are_announced(opener: SessionView, peer: SessionView, padding: Seq<u8>)
    requires
        opener.last_stream_id < u32::MAX,
        peer.is_client || peer.received_settings,
        !peer.streams.contains((opener.last_stream_id + 1) as u32),
    ensures
        ({
            let id = (opener.last_stream_id + 1) as u32;
            let after = opened_state(opener);
            let syn = FrameView { command: Command::Syn, stream_id: id, data: Seq::empty() };
            let waits = opener.is_client && opener.peer_version >= 2 && opener.last_stream_id >= 1;
            &&& after.last_stream_id == opener.last_stream_id + 1
            &&& forall|other: u32| #[trigger]
                after.streams.contains(other) <==> other == id || opener.streams.contains(other)
            &&& waits ==> open_actions(opener) == seq![ActionView::ArmSynAckTimeout(id), ActionView::Send(syn)]
                && after.pending_syn_ack == Some(id)
            &&& !waits ==> open_actions(opener) == seq![ActionView::Send(syn)] && after.pending_syn_ack
                == opener.pending_syn_ack
            &&& after == (SessionView {
                last_stream_id: after.last_stream_id,
                streams: after.streams,
                pending_syn_ack: after.pending_syn_ack,
                ..opener
            })
            &&& handle(peer, padding, syn).actions == seq![ActionView::Open(id)]
        }),
{
}

/// Closing a session leaves no stream open and no wait, and tells the streams, those who wait for
/// the session's end and the writing side, in this order; a wait is called off first. A session
/// that is closed stays as it is, and nothing is told again.
pub proof fn sessions_are_closed_once(state: SessionView)
    ensures
        closed_state(state).closed,
        !state.closed ==> closed_state(state) == (SessionView {
            closed: true,
            streams: Set::empty(),
            pending_syn_ack: None,
            ..state
        }),
        closed_state(closed_state(state)) == closed_state(state),
        close_actions(closed_state(state)).len() == 0,
        !state.closed && state.pending_syn_ack is None ==> close_actions(state) == seq![
            ActionView::CloseAllStreams,
            ActionView::NotifyClosed,
            ActionView::CloseWriter,
        ],
        !state.closed && state.pending_syn_ack is Some ==> close_actions(state) == seq![
            ActionView::CancelSynAckTimeout,
            ActionView::CloseAllStreams,
            ActionView::NotifyClosed,
            ActionView::CloseWriter,
        ],
{
    let told = seq![ActionView::CloseAllStreams, ActionView::NotifyClosed, ActionView::CloseWriter];
    assert(Seq::<ActionView>::empty() + told =~= told);
    assert(seq![ActionView::CancelSynAckTimeout] + told =~= seq![
        ActionView::CancelSynAckTimeout,
        ActionView::CloseAllStreams,
        ActionView::NotifyClosed,
        ActionView::CloseWriter,
    ]);
}

/// A session starts open, without streams, without a wait and at the first version.
pub proof fn sessions_start_empty(is_client: bool)
    ensures
        ({
            let start = initial_state(is_client);
            &&& start.is_client == is_client && !start.closed && !start.received_settings
            &&& start.peer_version == 1 && start.last_stream_id == 0 && start.pending_syn_ack is None
            &&& forall|id: u32| !(#[trigger] start.streams.contains(id))
        }),
{
}

/// Frames that open streams of different numbers open them all, in their order.
#[verifier::rlimit(40)]
pub proof fn many_streams_share_a_session(state: SessionView, padding: Seq<u8>, ids: Seq<u32>)
    requires
        state.is_client || state.received_settings,
        ids.no_duplicates(),
        forall|i: int| 0 <= i < ids.len() ==> !state.streams.contains(#[trigger] ids[i]),
    ensures
        ({
            let frames = ids.map_values(|id: u32| FrameView { command: Command::Syn, stream_id: id, data: Seq::empty() });
            let step = handle_all(state, padding, frames);
            &&& step.actions == ids.map_values(|id: u32| ActionView::Open(id))
            &&& step.outcome == Ok::<bool, ErrorView>(true)
            &&& forall|id: u32| #[trigger]
                step.state.streams.contains(id) <==> state.streams.contains(id) || ids.contains(id)
        }),
    decreases ids.len(),
{
    let syn = |id: u32| FrameView { command: Command::Syn, stream_id: id, data: Seq::empty() };
    let open = |id: u32| ActionView::Open(id);
    let frames = ids.map_values(syn);
    if ids.len() > 0 {
        let first = handle(state, padding, frames[0]);
        let rest = ids.drop_first();
        every_new_stream_is_served(state, padding, frames[0]);
        assert forall|i: int| 0 <= i < rest.len() implies !first.state.streams.contains(#[trigger] rest[i]) by {
            assert(rest[i] == ids[i + 1] && ids[0] != ids[i + 1]);
        }
        many_streams_share_a_session(first.state, padding, rest);
        assert(frames.drop_first() =~= rest.map_values(syn));
        assert(seq![ActionView::Open(ids[0])] + rest.map_values(open) =~= ids.map_values(open));
        let step = handle_all(state, padding, frames);
        assert forall|id: u32| #[trigger] step.state.streams.contains(id) <==> state.streams.contains(id)
            || ids.contains(id) by {
            if rest.contains(id) {
                let i = choose|i: int| 0 <= i < rest.len() && rest[i] == id;
                assert(ids[i + 1] == id);
            }
            if ids.contains(id) && id != ids[0] {
                let i = choose|i: int| 0 <= i < ids.len() && ids[i] == id;
                assert(rest[i - 1] == id);
            }
        }
    } else {
        assert(ids.map_values(open) =~= Seq::empty());
    }
}

/// A transport's own error is passed on as it is. Every other one is passed on with its text.
pub proof fn errors_keep_their_text(kind: IoErrorKind, message: Seq<char>)
    ensures
        as_io_error(ErrorView::Io(kind, message)) == (kind, message),
        as_io_error(ErrorView::Protocol(message)) == (IoErrorKind::Other, "protocol error: "@ + message),
        as_io_error(ErrorView::Tls(message)) == (IoErrorKind::Other, "tls error: "@ + message),
        as_io_error(ErrorView::Url(message)) == (IoErrorKind::Other, "url parse error: "@ + message),
        as_io_error(ErrorView::InvalidDnsName(message)) == (IoErrorKind::Other, "invalid DNS name: "@ + message),
        as_io_error(ErrorView::AuthenticationFailed) == (IoErrorKind::Other, "authentication failed"@),
        as_io_error(ErrorView::SessionClosed) == (IoErrorKind::Other, "session is closed"@),
{
}

/// Settings that both sides send are those that the other side reads: the program, the scheme and the
/// version.
pub proof fn client_settings_are_understood(padding: Seq<u8>)
    ensures
        ({
            let settings = text_map(bytes_text(client_settings(padding).data));
            &&& client_settings(padding).command == Command::Settings && client_settings(padding).stream_id == 0
            &&& settings.contains_key("v"@) && settings["v"@] == "2"@
            &&& settings.contains_key("client"@) && settings["client"@] == "anytls-rust/0.1.0"@
            &&& settings.contains_key("padding-md5"@) && settings["padding-md5"@] == hex_bytes(md5_digest(padding))
        }),
{
    lemma_client_settings_read(padding);
    lemma_client_settings(padding);
}

/// A client that opens a stream before it has sent its settings is told so, in an alert about the
/// session as a whole.
pub proof fn missing_settings_are_told(state: SessionView, padding: Seq<u8>, frame: FrameView)
    requires
        frame.command == Command::Syn,
        !state.is_client,
        !state.received_settings,
    ensures
        ({
            let step = handle(state, padding, frame);
            let alert = FrameView {
                command: Command::Alert,
                stream_id: 0,
                data: encode_utf8("client did not send its settings"@),
            };
            &&& step.state == state
            &&& !state.closed ==> step.actions == seq![ActionView::Send(alert)] && step.outcome == Ok::<bool, ErrorView>(
                false,
            )
            &&& state.closed ==> step.actions.len() == 0 && step.outcome == Err::<bool, ErrorView>(
                ErrorView::SessionClosed,
            )
        }),
{
    assert(Seq::<ActionView>::empty().push(ActionView::Send(no_settings_alert())) =~= seq![
        ActionView::Send(no_settings_alert()),
    ]);
}

/// A scheme that does not fit a frame cannot be sent, and a closed session answers nothing.
pub proof fn answers_that_cannot_be_sent(server: SessionView, padding: Seq<u8>, frame: FrameView)
    requires
        frame.command == Command::Settings,
        !server.is_client,
        !text_map(bytes_text(frame.data)).contains_key("padding-md5"@),
    ensures
        padding.len() > 65535 ==> handle(server, padding, frame).outcome == Err::<bool, ErrorView>(
            ErrorView::Protocol("frame data too large: "@ + dec(padding.len()) + " bytes"@),
        ),
        padding.len() <= 65535 && server.closed ==> handle(server, padding, frame).outcome == Err::<bool, ErrorView>(
            ErrorView::SessionClosed,
        ),
        padding.len() > 65535 || server.closed ==> handle(server, padding, frame).actions.len() == 0,
{
}

} // verus!
