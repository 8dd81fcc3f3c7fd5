//! The client: which of its sessions are used again, kept, and closed.
//!
//! Sessions go by the numbers that the client gave them. Times are in milliseconds from any fixed
//! start.

use vstd::prelude::*;

use crate::auth::{auth_bytes, auth_padding, build_auth_request};
use crate::padding::{items_allow, scheme_items, PaddingFactory};
use crate::session::SharedPadding;

verus! {

/// How long a session may be idle.
pub const IDLE_SESSION_TIMEOUT_MS: u64 = 30_000;

/// A session that nobody uses.
#[derive(Clone, Copy, Debug, PartialEq, Eq, Structural)]
pub struct IdleSession {
    pub seq: u64,
    pub idle_since: u64,
}

/// The sessions of a client.
pub struct Client {
    password_hash: [u8; 32],
    padding: SharedPadding,
    session_counter: u64,
    idle_sessions: Vec<IdleSession>,
    sessions: Vec<u64>,
    min_idle_session: usize,
    closed: bool,
}

/// The mathematical value of a [`Client`].
#[verifier::ext_equal]
pub struct ClientView {
    pub password_hash: Seq<u8>,
    pub padding: Seq<u8>,
    /// The last number that was given to a session.
    pub session_counter: u64,
    /// The sessions that nobody uses, in the order of their numbers.
    pub idle: Seq<IdleSession>,
    /// All sessions that are open, in the order in which they were made.
    pub sessions: Seq<u64>,
    pub min_idle_session: usize,
    pub closed: bool,
}

impl View for Client {
    type V = ClientView;

    closed spec fn view(&self) -> ClientView {
        ClientView {
            password_hash: self.password_hash@,
            padding: self.padding@,
            session_counter: self.session_counter,
            idle: self.idle_sessions@,
            sessions: self.sessions@,
            min_idle_session: self.min_idle_session,
            closed: self.closed,
        }
    }
}

/// The numbers come in strictly rising order.
pub open spec fn rising(idle: Seq<IdleSession>) -> bool {
    forall|i: int, j: int| 0 <= i < j < idle.len() ==> (#[trigger] idle[i]).seq < (#[trigger] idle[j]).seq
}

/// Sessions in the order of their numbers, of which `last` was given last.
pub open spec fn numbered(sessions: Seq<u64>, last: u64) -> bool {
    &&& forall|i: int, j: int| 0 <= i < j < sessions.len() ==> #[trigger] sessions[i] < #[trigger] sessions[j]
    &&& forall|i: int| 0 <= i < sessions.len() ==> #[trigger] sessions[i] <= last
}

pub open spec fn seqs(idle: Seq<IdleSession>) -> Seq<u64> {
    idle.map_values(|session: IdleSession| session.seq)
}

/// The session to use next and those that are idle then: the latest that has not been closed, and
/// those before it.
pub open spec fn take_latest(idle: Seq<IdleSession>, gone: Seq<u64>) -> (Option<u64>, Seq<IdleSession>)
    decreases idle.len(),
{
    if idle.len() == 0 {
        (None, Seq::empty())
    } else if gone.contains(idle.last().seq) {
        take_latest(idle.drop_last(), gone)
    } else {
        (Some(idle.last().seq), idle.drop_last())
    }
}

/// The idle sessions without one.
pub open spec fn without(idle: Seq<IdleSession>, seq: u64) -> Seq<IdleSession> {
    idle.filter(|session: IdleSession| session.seq != seq)
}

/// The idle sessions with one more, at its place.
pub open spec fn with(idle: Seq<IdleSession>, session: IdleSession) -> Seq<IdleSession>
    decreases idle.len(),
{
    if idle.len() == 0 || idle.last().seq < session.seq {
        idle.push(session)
    } else if idle.last().seq == session.seq {
        idle.drop_last().push(session)
    } else {
        with(idle.drop_last(), session).push(idle.last())
    }
}

/// What is left of the idle sessions, and those to close, when `retained` later ones have been
/// kept already. A session that has been idle too long is kept only to have the least number,
/// and is then taken as idle from now on.
pub open spec fn cleaned(
    idle: Seq<IdleSession>,
    gone: Seq<u64>,
    now: u64,
    min_idle: int,
    retained: int,
) -> (Seq<IdleSession>, Seq<u64>)
    decreases idle.len(),
{
    if idle.len() == 0 {
        (Seq::empty(), Seq::empty())
    } else {
        let last = idle.last();
        let front = idle.drop_last();
        if gone.contains(last.seq) {
            cleaned(front, gone, now, min_idle, retained)
        } else if last.idle_since + IDLE_SESSION_TIMEOUT_MS >= now {
            let (kept, expired) = cleaned(front, gone, now, min_idle, retained + 1);
            (kept.push(last), expired)
        } else if retained < min_idle {
            let (kept, expired) = cleaned(front, gone, now, min_idle, retained + 1);
            (kept.push(IdleSession { seq: last.seq, idle_since: now }), expired)
        } else {
            let (kept, expired) = cleaned(front, gone, now, min_idle, retained);
            (kept, seq![last.seq] + expired)
        }
    }
}

/// The sessions to close when the client is: the idle ones, then the others.
pub open spec fn all_to_close(idle: Seq<IdleSession>, sessions: Seq<u64>) -> Seq<u64> {
    seqs(idle) + sessions.filter(|seq: u64| !seqs(idle).contains(seq))
}

/// The sessions that have not been closed.
pub open spec fn live(idle: Seq<IdleSession>, gone: Seq<u64>) -> Seq<IdleSession> {
    idle.filter(|session: IdleSession| !gone.contains(session.seq))
}

/// The session that is used next is one that was idle and has not been closed, and no later one
/// was. With none to use, all had been closed.
pub proof fn latest_idle_session_is_used(idle: Seq<IdleSession>, gone: Seq<u64>)
    requires
        rising(idle),
    ensures
        match take_latest(idle, gone).0 {
            Some(seq) => seqs(idle).contains(seq) && !gone.contains(seq) && forall|i: int|
                0 <= i < idle.len() && (#[trigger] idle[i]).seq > seq ==> gone.contains(idle[i].seq),
            None => forall|i: int| 0 <= i < idle.len() ==> gone.contains((#[trigger] idle[i]).seq),
        },
        take_latest(idle, gone).1.is_prefix_of(idle),
    decreases idle.len(),
{
    if idle.len() > 0 {
        let front = idle.drop_last();
        let last = idle[idle.len() - 1];
        if gone.contains(last.seq) {
            assert forall|i: int, j: int| 0 <= i < j < front.len() implies (#[trigger] front[i]).seq < (
            #[trigger] front[j]).seq by {
                assert(front[i] == idle[i] && front[j] == idle[j]);
            }
            latest_idle_session_is_used(front, gone);
            match take_latest(front, gone).0 {
                Some(seq) => {
                    let k = choose|k: int| 0 <= k < seqs(front).len() && seqs(front)[k] == seq;
                    assert(seqs(idle)[k] == seq);
                    assert forall|i: int| 0 <= i < idle.len() && (#[trigger] idle[i]).seq > seq implies gone.contains(
                        idle[i].seq,
                    ) by {
                        if i < front.len() {
                            assert(front[i] == idle[i]);
                        }
                    }
                },
                None => {
                    assert forall|i: int| 0 <= i < idle.len() implies gone.contains((#[trigger] idle[i]).seq) by {
                        if i < front.len() {
                            assert(front[i] == idle[i]);
                        }
                    }
                },
            }
        } else {
            assert(seqs(idle)[idle.len() - 1] == last.seq);
        }
    }
}

/// Cleaning up keeps as many sessions as are wanted at least, where there are as many.
pub proof fn cleanup_keeps_enough(idle: Seq<IdleSession>, gone: Seq<u64>, now: u64, min_idle: int, retained: int)
    requires
        0 <= retained,
    ensures
        retained + cleaned(idle, gone, now, min_idle, retained).0.len() >= min_idle || cleaned(
            idle,
            gone,
            now,
            min_idle,
            retained,
        ).0.len() == live(idle, gone).len(),
        cleaned(idle, gone, now, min_idle, retained).0.len() + cleaned(idle, gone, now, min_idle, retained).1.len()
            == live(idle, gone).len(),
    decreases idle.len(),
{
    reveal(Seq::filter);
    if idle.len() > 0 {
        let front = idle.drop_last();
        let last = idle.last();
        cleanup_keeps_enough(front, gone, now, min_idle, retained);
        cleanup_keeps_enough(front, gone, now, min_idle, retained + 1);
    }
}

/// Cleaning up closes only sessions that were idle too long, and forgets those that were closed.
pub proof fn cleanup_closes_the_expired(
    idle: Seq<IdleSession>,
    gone: Seq<u64>,
    now: u64,
    min_idle: int,
    retained: int,
)
    ensures
        forall|i: int|
            0 <= i < cleaned(idle, gone, now, min_idle, retained).0.len() ==> !gone.contains(
                (#[trigger] cleaned(idle, gone, now, min_idle, retained).0[i]).seq,
            ),
        forall|k: int|
            0 <= k < cleaned(idle, gone, now, min_idle, retained).1.len() ==> exists|i: int|
                0 <= i < idle.len() && (#[trigger] idle[i]).seq == (#[trigger] cleaned(
                    idle,
                    gone,
                    now,
                    min_idle,
                    retained,
                ).1[k]) && idle[i].idle_since + IDLE_SESSION_TIMEOUT_MS < now && !gone.contains(idle[i].seq),
    decreases idle.len(),
{
    if idle.len() > 0 {
        let front = idle.drop_last();
        let last = idle[idle.len() - 1];
        let more = if gone.contains(last.seq) {
            retained
        } else if last.idle_since + IDLE_SESSION_TIMEOUT_MS >= now || retained < min_idle {
            retained + 1
        } else {
            retained
        };
        cleanup_closes_the_expired(front, gone, now, min_idle, more);
        let (kept, expired) = cleaned(idle, gone, now, min_idle, retained);
        let (front_kept, front_expired) = cleaned(front, gone, now, min_idle, more);
        assert forall|i: int| 0 <= i < kept.len() implies !gone.contains((#[trigger] kept[i]).seq) by {
            if i < front_kept.len() {
                assert(kept[i] == front_kept[i]);
            }
        }
        assert forall|k: int| 0 <= k < expired.len() implies exists|i: int|
            0 <= i < idle.len() && (#[trigger] idle[i]).seq == (#[trigger] expired[k]) && idle[i].idle_since
                + IDLE_SESSION_TIMEOUT_MS < now && !gone.contains(idle[i].seq) by {
            let skipped = expired.len() - front_expired.len();
            if k < skipped {
                assert(idle[idle.len() - 1].seq == expired[k]);
            } else {
                assert(expired[k] == front_expired[k - skipped]);
                let i = choose|i: int|
                    0 <= i < front.len() && (#[trigger] front[i]).seq == front_expired[k - skipped]
                        && front[i].idle_since + IDLE_SESSION_TIMEOUT_MS < now && !gone.contains(front[i].seq);
                assert(front[i] == idle[i]);
            }
        }
    }
}

/// Closing the client closes every session, and each once.
pub proof fn every_session_is_closed_once(idle: Seq<IdleSession>, sessions: Seq<u64>)
    requires
        rising(idle),
        sessions.no_duplicates(),
    ensures
        all_to_close(idle, sessions).no_duplicates(),
        forall|seq: u64| #[trigger]
            all_to_close(idle, sessions).contains(seq) <==> seqs(idle).contains(seq) || sessions.contains(seq),
{
    let first = seqs(idle);
    let outside = |seq: u64| !first.contains(seq);
    let others = sessions.filter(outside);
    let all = all_to_close(idle, sessions);
    lemma_filter(sessions, outside);
    assert(all =~= first + others);
    assert forall|i: int, j: int| 0 <= i < j < all.len() implies all[i] != all[j] by {
        if j < first.len() {
            assert(idle[i].seq < idle[j].seq);
        } else if i < first.len() {
            assert(first.contains(first[i]));
            assert(others.contains(others[j - first.len()]));
        } else {
            assert(others[i - first.len()] != others[j - first.len()]);
        }
    }
    assert forall|seq: u64| #[trigger] all.contains(seq) <==> first.contains(seq) || sessions.contains(seq) by {
        if first.contains(seq) {
            let i = choose|i: int| 0 <= i < first.len() && first[i] == seq;
            assert(all[i] == seq);
        } else if sessions.contains(seq) {
            assert(others.contains(seq));
            let i = choose|i: int| 0 <= i < others.len() && others[i] == seq;
            assert(all[i + first.len()] == seq);
        }
        if all.contains(seq) {
            let i = choose|i: int| 0 <= i < all.len() && all[i] == seq;
            if i < first.len() {
                assert(first[i] == seq);
            } else {
                assert(others[i - first.len()] == seq);
                assert(others.contains(seq));
            }
        }
    }
}

/// A filtered list holds exactly the elements that pass, and none twice that was there once.
proof fn lemma_filter(s: Seq<u64>, keep: spec_fn(u64) -> bool)
    ensures
        forall|x: u64| #[trigger] s.filter(keep).contains(x) <==> s.contains(x) && keep(x),
        s.no_duplicates() ==> s.filter(keep).no_duplicates(),
    decreases s.len(),
{
    reveal(Seq::filter);
    if s.len() > 0 {
        let front = s.drop_last();
        let kept = front.filter(keep);
        let last = s.last();
        lemma_filter(front, keep);
        assert forall|x: u64| #[trigger] s.filter(keep).contains(x) <==> s.contains(x) && keep(x) by {
            assert(s.contains(x) <==> front.contains(x) || x == last) by {
                if s.contains(x) {
                    let i = choose|i: int| 0 <= i < s.len() && s[i] == x;
                    if i < front.len() {
                        assert(front[i] == x);
                    }
                }
                if front.contains(x) {
                    let i = choose|i: int| 0 <= i < front.len() && front[i] == x;
                    assert(s[i] == x);
                }
                assert(s[s.len() - 1] == last);
            }
            if keep(last) {
                let all = kept.push(last);
                assert(s.filter(keep) == all);
                assert(all.contains(x) <==> kept.contains(x) || x == last) by {
                    if kept.contains(x) {
                        let i = choose|i: int| 0 <= i < kept.len() && kept[i] == x;
                        assert(all[i] == x);
                    }
                    assert(all[kept.len() as int] == last);
                    if all.contains(x) {
                        let i = choose|i: int| 0 <= i < all.len() && all[i] == x;
                        if i < kept.len() {
                            assert(kept[i] == x);
                        }
                    }
                }
            }
        }
        if s.no_duplicates() {
            assert forall|i: int, j: int| 0 <= i < front.len() && 0 <= j < front.len() && i != j implies front[i]
                != front[j] by {
                assert(s[i] != s[j]);
            }
            assert(front.no_duplicates());
            if keep(last) && kept.contains(last) {
                assert(front.contains(last));
                let i = choose|i: int| 0 <= i < front.len() && front[i] == last;
                assert(s[i] != s[s.len() - 1]);
            }
            let all = s.filter(keep);
            assert forall|i: int, j: int| 0 <= i < all.len() && 0 <= j < all.len() && i != j implies all[i] != all[j] by {
                if i < kept.len() && j < kept.len() {
                    assert(all[i] == kept[i] && all[j] == kept[j]);
                } else if i < kept.len() {
                    assert(kept.contains(kept[i]));
                } else {
                    assert(kept.contains(kept[j]));
                }
            }
        }
    }
}

proof fn lemma_rising_front(idle: Seq<IdleSession>)
    requires
        rising(idle),
        idle.len() > 0,
    ensures
        rising(idle.drop_last()),
        forall|i: int| 0 <= i < idle.len() - 1 ==> (#[trigger] idle[i]).seq < idle.last().seq,
{
    let front = idle.drop_last();
    assert forall|i: int, j: int| 0 <= i < j < front.len() implies (#[trigger] front[i]).seq < (
    #[trigger] front[j]).seq by {
        assert(front[i] == idle[i] && front[j] == idle[j]);
    }
}

/// An idle session goes where the numbers behind it are no smaller.
proof fn lemma_with(idle: Seq<IdleSession>, session: IdleSession, at: int)
    requires
        rising(idle),
        0 <= at <= idle.len(),
        forall|i: int| 0 <= i < at ==> (#[trigger] idle[i]).seq < session.seq,
        at < idle.len() ==> idle[at].seq >= session.seq,
    ensures
        with(idle, session) == if at < idle.len() && idle[at].seq == session.seq {
            idle.update(at, session)
        } else {
            idle.insert(at, session)
        },
        rising(with(idle, session)),
    decreases idle.len(),
{
    if at == idle.len() {
        assert(idle.insert(at, session) =~= idle.push(session));
    } else {
        let front = idle.drop_last();
        let last = idle[idle.len() - 1];
        lemma_rising_front(idle);
        if last.seq == session.seq {
            if at < idle.len() - 1 {
                assert(idle[at].seq < idle[idle.len() - 1].seq);
            }
            assert(idle.update(at, session) =~= front.push(session));
        } else {
            if at == idle.len() - 1 {
                assert(front.push(session).push(last) =~= idle.insert(at, session));
            } else {
                assert(idle[at].seq < idle[idle.len() - 1].seq);
            }
            assert forall|i: int| 0 <= i < at implies (#[trigger] front[i]).seq < session.seq by {
                assert(front[i] == idle[i]);
            }
            if at < front.len() {
                assert(front[at] == idle[at]);
            }
            lemma_with(front, session, at);
            if at < front.len() && front[at].seq == session.seq {
                assert(front.update(at, session).push(last) =~= idle.update(at, session));
            } else {
                assert(front.insert(at, session).push(last) =~= idle.insert(at, session));
            }
        }
    }
    let all = with(idle, session);
    assert forall|i: int, j: int| 0 <= i < j < all.len() implies (#[trigger] all[i]).seq < (#[trigger] all[j]).seq by {
        let replaced = at < idle.len() && idle[at].seq == session.seq;
        if replaced {
            let a = if i == at { idle[at] } else { idle[i] };
            let b = if j == at { idle[at] } else { idle[j] };
            assert(all[i].seq == idle[i].seq && all[j].seq == idle[j].seq);
        } else if j == at {
            assert(all[i] == idle[i]);
        } else if i == at {
            assert(all[j] == idle[j - 1]);
            if j - 1 > at {
                assert(idle[at].seq < idle[j - 1].seq);
            }
        } else {
            let k = if i < at { i } else { i - 1 };
            let l = if j < at { j } else { j - 1 };
            assert(all[i] == idle[k] && all[j] == idle[l]);
        }
    }
}

/// What is kept are sessions that were idle, in their order.
proof fn lemma_cleaned_rising(idle: Seq<IdleSession>, gone: Seq<u64>, now: u64, min_idle: int, retained: int)
    requires
        rising(idle),
    ensures
        rising(cleaned(idle, gone, now, min_idle, retained).0),
        forall|i: int|
            0 <= i < cleaned(idle, gone, now, min_idle, retained).0.len() && idle.len() > 0 ==> (#[trigger] cleaned(
                idle,
                gone,
                now,
                min_idle,
                retained,
            ).0[i]).seq <= idle.last().seq,
        idle.len() == 0 ==> cleaned(idle, gone, now, min_idle, retained).0.len() == 0,
    decreases idle.len(),
{
    if idle.len() > 0 {
        let front = idle.drop_last();
        let last = idle.last();
        lemma_rising_front(idle);
        let more = if gone.contains(last.seq) {
            retained
        } else if last.idle_since + IDLE_SESSION_TIMEOUT_MS >= now || retained < min_idle {
            retained + 1
        } else {
            retained
        };
        lemma_cleaned_rising(front, gone, now, min_idle, more);
        let kept = cleaned(idle, gone, now, min_idle, retained).0;
        let front_kept = cleaned(front, gone, now, min_idle, more).0;
        assert forall|i: int| 0 <= i < front_kept.len() implies (#[trigger] front_kept[i]).seq < last.seq by {
            assert(front[front.len() - 1] == idle[idle.len() - 2]);
        }
        assert forall|i: int, j: int| 0 <= i < j < kept.len() implies (#[trigger] kept[i]).seq < (
        #[trigger] kept[j]).seq by {
            assert(kept[i] == front_kept[i]);
            if j < front_kept.len() {
                assert(kept[j] == front_kept[j]);
            }
        }
        assert forall|i: int| 0 <= i < kept.len() implies (#[trigger] kept[i]).seq <= last.seq by {
            if i < front_kept.len() {
                assert(kept[i] == front_kept[i]);
            }
        }
    }
}

fn lists(list: &[u64], seq: u64) -> (found: bool)
    ensures
        found == list@.contains(seq),
{
    let mut i: usize = 0;
    while i < list.len()
        invariant
            i <= list@.len(),
            forall|j: int| 0 <= j < i ==> list@[j] != seq,
        decreases list@.len() - i,
    {
        if list[i] == seq {
            return true;
        }
        i = i + 1;
    }
    false
}

impl Client {
    #[verifier::type_invariant]
    spec fn well_formed(self) -> bool {
        &&& rising(self.idle_sessions@)
        &&& numbered(self.sessions@, self.session_counter)
    }

    /// A client without sessions.
    pub fn new(password_hash: [u8; 32], min_idle_session: usize) -> (client: Self)
        ensures
            client@.password_hash == password_hash@,
            client@.padding == vstd::utf8::encode_utf8(crate::padding::DEFAULT_PADDING_SCHEME@),
            client@.session_counter == 0,
            client@.idle == Seq::<IdleSession>::empty(),
            client@.sessions == Seq::<u64>::empty(),
            client@.min_idle_session == min_idle_session,
            !client@.closed,
    {
        Client {
            password_hash,
            padding: SharedPadding::new(PaddingFactory::default_scheme()),
            session_counter: 0,
            idle_sessions: Vec::new(),
            sessions: Vec::new(),
            min_idle_session,
            closed: false,
        }
    }

    /// Whether the client has been closed.
    pub fn is_closed(&self) -> (closed: bool)
        ensures
            closed == self@.closed,
    {
        self.closed
    }

    /// A copy of the padding scheme in force.
    pub fn padding(&self) -> (padding: PaddingFactory)
        ensures
            padding@ == self@.padding,
    {
        self.padding.get()
    }

    /// Puts another padding scheme in force.
    pub fn update_padding(&mut self, padding: PaddingFactory)
        ensures
            final(self)@ == (ClientView { padding: padding@, ..old(self)@ }),
    {
        proof {
            use_type_invariant(&*self);
        }
        self.padding = SharedPadding::new(padding);
    }

    /// What a new session sends before anything else.
    pub fn auth_request(&self) -> (request: Vec<u8>)
        ensures
            exists|sizes: Seq<i32>| #[trigger]
                items_allow(scheme_items(self@.padding, 0), sizes) && request@ == auth_bytes(
                    self@.password_hash,
                    auth_padding(sizes),
                ),
    {
        let padding = self.padding.get();
        let request = build_auth_request(&self.password_hash, &padding);
        proof {
            let sizes = choose|sizes: Seq<i32>| #[trigger]
                items_allow(scheme_items(padding@, 0), sizes) && request@ == auth_bytes(
                    self.password_hash@,
                    auth_padding(sizes),
                );
            assert(items_allow(scheme_items(self@.padding, 0), sizes));
        }
        request
    }

    /// The number of sessions that are open.
    pub fn session_count(&self) -> (n: usize)
        ensures
            n == self@.sessions.len(),
    {
        self.sessions.len()
    }

    /// The number of sessions that nobody uses.
    pub fn idle_count(&self) -> (n: usize)
        ensures
            n == self@.idle.len(),
    {
        self.idle_sessions.len()
    }

    /// Takes the session to use next, if there is one, given those that have been closed.
    pub fn take_idle_session(&mut self, gone: &[u64]) -> (session: Option<u64>)
        ensures
            session == take_latest(old(self)@.idle, gone@).0,
            final(self)@ == (ClientView { idle: take_latest(old(self)@.idle, gone@).1, ..old(self)@ }),
    {
        proof {
            use_type_invariant(&*self);
        }
        let mut idle: Vec<IdleSession> = Vec::new();
        std::mem::swap(&mut idle, &mut self.idle_sessions);
        let ghost all = idle@;
        while idle.len() > 0
            invariant
                rising(idle@),
                take_latest(idle@, gone@) == take_latest(all, gone@),
                self@ == (ClientView { idle: Seq::empty(), ..old(self)@ }),
                old(self)@.idle == all,
            decreases idle@.len(),
        {
            let last = idle[idle.len() - 1];
            proof {
                use_type_invariant(&*self);
                lemma_rising_front(idle@);
            }
            idle.pop();
            if !lists(gone, last.seq) {
                self.idle_sessions = idle;
                return Some(last.seq);
            }
        }
        assert(self@.idle =~= Seq::empty());
        None
    }

    /// Gives a new session its number.
    pub fn register_session(&mut self) -> (seq: u64)
        requires
            old(self)@.session_counter < u64::MAX,
        ensures
            seq == old(self)@.session_counter + 1,
            final(self)@ == (ClientView {
                session_counter: seq,
                sessions: old(self)@.sessions.push(seq),
                ..old(self)@
            }),
    {
        proof {
            use_type_invariant(&*self);
        }
        let seq: u64 = self.session_counter + 1;
        let mut sessions: Vec<u64> = Vec::new();
        std::mem::swap(&mut sessions, &mut self.sessions);
        self.session_counter = seq;
        sessions.push(seq);
        self.sessions = sessions;
        seq
    }

    /// The number that was given last.
    pub fn session_counter(&self) -> (counter: u64)
        ensures
            counter == self@.session_counter,
    {
        self.session_counter
    }

    /// Forgets a session that has been closed.
    pub fn session_ended(&mut self, seq: u64)
        ensures
            final(self)@ == (ClientView {
                idle: without(old(self)@.idle, seq),
                sessions: old(self)@.sessions.filter(|other: u64| other != seq),
                ..old(self)@
            }),
    {
        proof {
            use_type_invariant(&*self);
        }
        let mut idle: Vec<IdleSession> = Vec::new();
        std::mem::swap(&mut idle, &mut self.idle_sessions);
        let mut sessions: Vec<u64> = Vec::new();
        std::mem::swap(&mut sessions, &mut self.sessions);
        self.idle_sessions = idle_without(&idle, seq);
        self.sessions = seqs_without(&sessions, seq, self.session_counter);
    }

    /// Sorts out the idle sessions, given those that have been closed. Returns the sessions to
    /// close.
    pub fn cleanup_idle_sessions(&mut self, now: u64, gone: &[u64]) -> (expired: Vec<u64>)
        ensures
            expired@ == cleaned(old(self)@.idle, gone@, now, old(self)@.min_idle_session as int, 0).1,
            final(self)@ == (ClientView {
                idle: cleaned(old(self)@.idle, gone@, now, old(self)@.min_idle_session as int, 0).0,
                ..old(self)@
            }),
    {
        proof {
            use_type_invariant(&*self);
        }
        let mut idle: Vec<IdleSession> = Vec::new();
        std::mem::swap(&mut idle, &mut self.idle_sessions);
        let min_idle: usize = self.min_idle_session;
        let ghost all = cleaned(idle@, gone@, now, min_idle as int, 0);
        let mut later: Vec<IdleSession> = Vec::new();
        let mut expired: Vec<u64> = Vec::new();
        let mut retained: usize = 0;
        let total: usize = idle.len();
        let mut n: usize = total;
        assert(idle@.take(n as int) =~= idle@);
        assert(later@.reverse() =~= Seq::empty());
        assert(all.0 + later@.reverse() =~= all.0);
        assert(expired@ + all.1 =~= all.1);
        while n > 0
            invariant
                n <= total,
                total == idle@.len(),
                retained <= total - n,
                all == cleaned(idle@, gone@, now, min_idle as int, 0),
                cleaned(idle@.take(n as int), gone@, now, min_idle as int, retained as int).0 + later@.reverse() == all.0,
                expired@ + cleaned(idle@.take(n as int), gone@, now, min_idle as int, retained as int).1 == all.1,
            decreases n,
        {
            let last = idle[n - 1];
            let ghost here = idle@.take(n as int);
            let ghost front = idle@.take(n - 1);
            let ghost before_later = later@.reverse();
            let ghost before_expired = expired@;
            assert(here.drop_last() =~= front);
            assert(here.last() == last);
            n = n - 1;
            if lists(gone, last.seq) {
                continue;
            }
            let fresh: bool = last.idle_since as u128 + IDLE_SESSION_TIMEOUT_MS as u128 >= now as u128;
            if fresh || retained < min_idle {
                let kept = if fresh { last } else { IdleSession { seq: last.seq, idle_since: now } };
                retained = retained + 1;
                later.push(kept);
                proof {
                    let rest = cleaned(front, gone@, now, min_idle as int, retained as int).0;
                    assert(later@.reverse() =~= seq![kept] + before_later);
                    assert(rest + (seq![kept] + before_later) =~= rest.push(kept) + before_later);
                }
            } else {
                expired.push(last.seq);
                proof {
                    let rest = cleaned(front, gone@, now, min_idle as int, retained as int).1;
                    assert(before_expired.push(last.seq) + rest =~= before_expired + (seq![last.seq] + rest));
                }
            }
        }
        proof {
            lemma_cleaned_rising(idle@, gone@, now, min_idle as int, 0);
            assert(idle@.take(0) =~= Seq::empty());
            assert(Seq::<IdleSession>::empty() + later@.reverse() =~= later@.reverse());
            assert(expired@ + Seq::<u64>::empty() =~= expired@);
        }
        self.idle_sessions = reversed(&later);
        expired
    }

    /// Takes a session back, unless it has been closed. Returns the sessions to close.
    pub fn release_session(&mut self, seq: u64, session_closed: bool, now: u64, gone: &[u64]) -> (expired: Vec<u64>)
        ensures
            session_closed ==> expired@ == Seq::<u64>::empty() && final(self)@ == old(self)@,
            !session_closed ==> {
                let (kept, to_close) = cleaned(old(self)@.idle, gone@, now, old(self)@.min_idle_session as int, 0);
                expired@ == to_close && final(self)@ == (ClientView {
                    idle: with(kept, IdleSession { seq, idle_since: now }),
                    ..old(self)@
                })
            },
    {
        if session_closed {
            return Vec::new();
        }
        let expired = self.cleanup_idle_sessions(now, gone);
        proof {
            use_type_invariant(&*self);
        }
        let session = IdleSession { seq, idle_since: now };
        let mut idle: Vec<IdleSession> = Vec::new();
        std::mem::swap(&mut idle, &mut self.idle_sessions);
        let mut at: usize = 0;
        while at < idle.len() && idle[at].seq < seq
            invariant
                at <= idle@.len(),
                forall|i: int| 0 <= i < at ==> (#[trigger] idle@[i]).seq < seq,
            decreases idle@.len() - at,
        {
            at = at + 1;
        }
        proof {
            lemma_with(idle@, session, at as int);
        }
        if at < idle.len() && idle[at].seq == seq {
            idle[at] = session;
        } else {
            idle.insert(at, session);
        }
        self.idle_sessions = idle;
        expired
    }

    /// Closes the client. Returns the sessions to close, each once.
    pub fn close(&mut self) -> (sessions: Vec<u64>)
        ensures
            sessions@ == all_to_close(old(self)@.idle, old(self)@.sessions),
            sessions@.no_duplicates(),
            final(self)@ == (ClientView {
                closed: true,
                idle: Seq::empty(),
                sessions: Seq::empty(),
                ..old(self)@
            }),
    {
        proof {
            use_type_invariant(&*self);
        }
        self.closed = true;
        let mut idle: Vec<IdleSession> = Vec::new();
        std::mem::swap(&mut idle, &mut self.idle_sessions);
        let mut open_sessions: Vec<u64> = Vec::new();
        std::mem::swap(&mut open_sessions, &mut self.sessions);
        let first = seqs_of(&idle);
        let mut others = seqs_outside(&open_sessions, first.as_slice());
        let mut sessions = first;
        sessions.append(&mut others);
        proof {
            every_session_is_closed_once(idle@, open_sessions@);
        }
        sessions
    }
}

fn reversed(sessions: &Vec<IdleSession>) -> (reverse: Vec<IdleSession>)
    ensures
        reverse@ == sessions@.reverse(),
{
    let mut reverse: Vec<IdleSession> = Vec::new();
    let mut n: usize = sessions.len();
    assert(sessions@.reverse().take(0) =~= Seq::empty());
    while n > 0
        invariant
            n <= sessions@.len(),
            reverse@ == sessions@.reverse().take(sessions@.len() - n),
        decreases n,
    {
        n = n - 1;
        reverse.push(sessions[n]);
        assert(reverse@ =~= sessions@.reverse().take(sessions@.len() - n));
    }
    assert(sessions@.reverse().take(sessions@.len() as int) =~= sessions@.reverse());
    reverse
}

fn seqs_of(sessions: &Vec<IdleSession>) -> (numbers: Vec<u64>)
    ensures
        numbers@ == seqs(sessions@),
{
    let mut numbers: Vec<u64> = Vec::new();
    let mut i: usize = 0;
    while i < sessions.len()
        invariant
            i <= sessions@.len(),
            numbers@.len() == i,
            forall|j: int| 0 <= j < i ==> #[trigger] numbers@[j] == sessions@[j].seq,
        decreases sessions@.len() - i,
    {
        numbers.push(sessions[i].seq);
        i = i + 1;
    }
    assert(numbers@ =~= seqs(sessions@));
    numbers
}

/// The numbers that are not in the list.
fn seqs_outside(numbers: &Vec<u64>, list: &[u64]) -> (outside: Vec<u64>)
    ensures
        outside@ == numbers@.filter(|seq: u64| !list@.contains(seq)),
{
    let ghost keep = |seq: u64| !list@.contains(seq);
    let mut outside: Vec<u64> = Vec::new();
    let mut i: usize = 0;
    proof {
        reveal(Seq::filter);
        assert(numbers@.take(0) =~= Seq::empty());
    }
    while i < numbers.len()
        invariant
            i <= numbers@.len(),
            keep == (|seq: u64| !list@.contains(seq)),
            outside@ == numbers@.take(i as int).filter(keep),
        decreases numbers@.len() - i,
    {
        proof {
            reveal(Seq::filter);
            assert(numbers@.take(i + 1).drop_last() =~= numbers@.take(i as int));
        }
        if !lists(list, numbers[i]) {
            outside.push(numbers[i]);
        }
        i = i + 1;
    }
    assert(numbers@.take(i as int) =~= numbers@);
    outside
}

/// The numbers but for one.
fn seqs_without(numbers: &Vec<u64>, seq: u64, last: u64) -> (others: Vec<u64>)
    requires
        numbered(numbers@, last),
    ensures
        others@ == numbers@.filter(|other: u64| other != seq),
        numbered(others@, last),
{
    let ghost keep = |other: u64| other != seq;
    let mut others: Vec<u64> = Vec::new();
    let mut i: usize = 0;
    proof {
        reveal(Seq::filter);
        assert(numbers@.take(0) =~= Seq::empty());
    }
    while i < numbers.len()
        invariant
            i <= numbers@.len(),
            keep == (|other: u64| other != seq),
            others@ == numbers@.take(i as int).filter(keep),
            numbered(numbers@, last),
            numbered(others@, last),
            forall|j: int| 0 <= j < others@.len() ==> i > 0 && #[trigger] others@[j] <= numbers@[i - 1],
        decreases numbers@.len() - i,
    {
        proof {
            reveal(Seq::filter);
            assert(numbers@.take(i + 1).drop_last() =~= numbers@.take(i as int));
        }
        if numbers[i] != seq {
            others.push(numbers[i]);
        }
        i = i + 1;
    }
    assert(numbers@.take(i as int) =~= numbers@);
    others
}

/// The idle sessions but for one.
fn idle_without(idle: &Vec<IdleSession>, seq: u64) -> (others: Vec<IdleSession>)
    requires
        rising(idle@),
    ensures
        others@ == without(idle@, seq),
        rising(others@),
{
    let ghost keep = |session: IdleSession| session.seq != seq;
    let mut others: Vec<IdleSession> = Vec::new();
    let mut i: usize = 0;
    proof {
        reveal(Seq::filter);
        assert(idle@.take(0) =~= Seq::empty());
    }
    while i < idle.len()
        invariant
            i <= idle@.len(),
            rising(idle@),
            keep == (|session: IdleSession| session.seq != seq),
            others@ == idle@.take(i as int).filter(keep),
            rising(others@),
            forall|j: int| 0 <= j < others@.len() ==> i > 0 && (#[trigger] others@[j]).seq <= idle@[i - 1].seq,
        decreases idle@.len() - i,
    {
        proof {
            reveal(Seq::filter);
            assert(idle@.take(i + 1).drop_last() =~= idle@.take(i as int));
        }
        if idle[i].seq != seq {
            others.push(idle[i]);
        }
        i = i + 1;
    }
    assert(idle@.take(i as int) =~= idle@);
    others
}

// What holds of the sessions that nobody uses.

/// The session that is used next is the latest one that has not been closed. Those before it stay
/// idle, and those behind it are forgotten.
pub proof fn earlier_sessions_stay_idle(idle: Seq<IdleSession>, gone: Seq<u64>, k: int)
    requires
        0 <= k < idle.len(),
        !gone.contains(idle[k].seq),
        forall|i: int| k < i < idle.len() ==> gone.contains((#[trigger] idle[i]).seq),
    ensures
        take_latest(idle, gone) == (Some(idle[k].seq), idle.take(k)),
    decreases idle.len(),
{
    let front = idle.drop_last();
    if k < idle.len() - 1 {
        assert(gone.contains(idle[idle.len() - 1].seq));
        assert forall|i: int| k < i < front.len() implies gone.contains((#[trigger] front[i]).seq) by {
            assert(front[i] == idle[i]);
        }
        earlier_sessions_stay_idle(front, gone, k);
        assert(front.take(k) =~= idle.take(k));
    } else {
        assert(front =~= idle.take(k));
    }
}

/// A session that is taken back is idle from then on, once, and the others stay as they were and in
/// their order.
#[verifier::rlimit(40)]
pub proof fn released_sessions_are_idle(idle: Seq<IdleSession>, session: IdleSession, other: IdleSession)
    requires
        rising(idle),
    ensures
        rising(with(idle, session)),
        with(idle, session).contains(other) <==> other == session || (idle.contains(other) && other.seq != session.seq),
    decreases idle.len(),
{
    let all = with(idle, session);
    if idle.len() == 0 || idle.last().seq < session.seq {
        if idle.len() > 0 {
            lemma_rising_front(idle);
        }
        assert forall|i: int, j: int| 0 <= i < j < all.len() implies (#[trigger] all[i]).seq < (#[trigger] all[j]).seq by {
            if j < idle.len() {
                assert(all[i] == idle[i] && all[j] == idle[j]);
            } else {
                assert(all[i] == idle[i]);
                if i < idle.len() - 1 {
                    assert(idle[i].seq < idle[idle.len() - 1].seq);
                }
            }
        }
        assert(all[idle.len() as int] == session);
        if idle.contains(other) {
            let i = choose|i: int| 0 <= i < idle.len() && idle[i] == other;
            assert(all[i] == other);
            if i < idle.len() - 1 {
                assert(idle[i].seq < idle[idle.len() - 1].seq);
            }
        }
        if all.contains(other) && other != session {
            let i = choose|i: int| 0 <= i < all.len() && all[i] == other;
            assert(idle[i] == other);
        }
    } else {
        let at = choose_place(idle, session.seq, idle.len() as int);
        lemma_place(idle, session.seq, idle.len() as int);
        lemma_with(idle, session, at);
        let replaced = idle[at].seq == session.seq;
        if all.contains(other) {
            let i = choose|i: int| 0 <= i < all.len() && all[i] == other;
            if i != at {
                let k = if replaced || i < at { i } else { i - 1 };
                assert(idle[k] == other);
                if k < at {
                    assert(idle[k].seq < session.seq);
                } else if k > at {
                    assert(idle[at].seq < idle[k].seq);
                }
            }
        }
        assert(all[at] == session);
        if idle.contains(other) && other.seq != session.seq {
            let i = choose|i: int| 0 <= i < idle.len() && idle[i] == other;
            let k = if replaced || i < at { i } else { i + 1 };
            assert(all[k] == other);
        }
    }
}

/// Where a number belongs among the first `n` idle sessions.
spec fn choose_place(idle: Seq<IdleSession>, seq: u64, n: int) -> int
    decreases n,
{
    if n <= 0 || idle[n - 1].seq < seq {
        n
    } else {
        choose_place(idle, seq, n - 1)
    }
}

proof fn lemma_place(idle: Seq<IdleSession>, seq: u64, n: int)
    requires
        rising(idle),
        0 <= n <= idle.len(),
    ensures
        0 <= choose_place(idle, seq, n) <= n,
        forall|i: int| 0 <= i < choose_place(idle, seq, n) ==> (#[trigger] idle[i]).seq < seq,
        choose_place(idle, seq, n) < n ==> idle[choose_place(idle, seq, n)].seq >= seq,
    decreases n,
{
    if n > 0 && idle[n - 1].seq >= seq {
        lemma_place(idle, seq, n - 1);
    } else if n > 0 {
        assert forall|i: int| 0 <= i < n implies (#[trigger] idle[i]).seq < seq by {
            if i < n - 1 {
                assert(idle[i].seq < idle[n - 1].seq);
            }
        }
    }
}

/// A session that has ended is idle no more, and every other one that was idle still is.
pub proof fn ended_sessions_are_forgotten(idle: Seq<IdleSession>, seq: u64, other: IdleSession)
    ensures
        without(idle, seq).contains(other) <==> idle.contains(other) && other.seq != seq,
    decreases idle.len(),
{
    reveal(Seq::filter);
    let keep = |session: IdleSession| session.seq != seq;
    if idle.len() > 0 {
        let front = idle.drop_last();
        let last = idle[idle.len() - 1];
        ended_sessions_are_forgotten(front, seq, other);
        let kept = front.filter(keep);
        if idle.contains(other) {
            let i = choose|i: int| 0 <= i < idle.len() && idle[i] == other;
            if i < front.len() {
                assert(front[i] == other);
            }
        }
        if front.contains(other) {
            let i = choose|i: int| 0 <= i < front.len() && front[i] == other;
            assert(idle[i] == other);
        }
        if keep(last) {
            let all = kept.push(last);
            assert(idle.filter(keep) == all);
            assert(all[kept.len() as int] == last);
            if kept.contains(other) {
                let i = choose|i: int| 0 <= i < kept.len() && kept[i] == other;
                assert(all[i] == other);
            }
            if all.contains(other) && other != last {
                let i = choose|i: int| 0 <= i < all.len() && all[i] == other;
                assert(kept[i] == other);
            }
        }
    }
}

/// Cleaning up leaves a session that has been idle for thirty seconds or less as it is, unless it
/// has been closed. Every other one that stays is taken as idle from now on.
#[verifier::rlimit(40)]
pub proof fn fresh_sessions_stay(
    idle: Seq<IdleSession>,
    gone: Seq<u64>,
    now: u64,
    min_idle: int,
    retained: int,
    i: int,
)
    ensures
        ({
            let kept = cleaned(idle, gone, now, min_idle, retained).0;
            &&& 0 <= i < idle.len() && !gone.contains(idle[i].seq) && idle[i].idle_since + 30_000 >= now
                ==> kept.contains(idle[i])
            &&& 0 <= i < kept.len() ==> (exists|j: int|
                0 <= j < idle.len() && (#[trigger] idle[j]).seq == kept[i].seq && !gone.contains(idle[j].seq) && (if now
                    - idle[j].idle_since <= 30_000 {
                    kept[i] == idle[j]
                } else {
                    kept[i].idle_since == now
                }))
        }),
    decreases idle.len(),
{
    if idle.len() > 0 {
        let front = idle.drop_last();
        let last = idle[idle.len() - 1];
        let more = if !gone.contains(last.seq) && (last.idle_since + 30_000 >= now || retained < min_idle) {
            retained + 1
        } else {
            retained
        };
        fresh_sessions_stay(front, gone, now, min_idle, more, i);
        let kept = cleaned(idle, gone, now, min_idle, retained).0;
        let front_kept = cleaned(front, gone, now, min_idle, more).0;
        if 0 <= i < idle.len() && !gone.contains(idle[i].seq) && idle[i].idle_since + 30_000 >= now {
            if i < front.len() {
                assert(front[i] == idle[i]);
                let k = choose|k: int| 0 <= k < front_kept.len() && front_kept[k] == idle[i];
                assert(kept[k] == idle[i]);
            } else {
                assert(kept[kept.len() - 1] == last);
            }
        }
        if 0 <= i < kept.len() {
            if i < front_kept.len() {
                assert(kept[i] == front_kept[i]);
                let j = choose|j: int|
                    0 <= j < front.len() && (#[trigger] front[j]).seq == front_kept[i].seq && !gone.contains(
                        front[j].seq,
                    ) && (if now - front[j].idle_since <= 30_000 {
                        front_kept[i] == front[j]
                    } else {
                        front_kept[i].idle_since == now
                    });
                assert(front[j] == idle[j]);
            } else {
                assert(idle[idle.len() - 1].seq == kept[i].seq);
            }
        }
    }
}

/// Of sessions that have all been idle too long, as many of the latest stay as are wanted, and the
/// others are closed, the latest of them first.
#[verifier::rlimit(40)]
pub proof fn the_latest_of_the_stale_stay(idle: Seq<IdleSession>, now: u64, min_idle: int, retained: int)
    requires
        forall|i: int| 0 <= i < idle.len() ==> (#[trigger] idle[i]).idle_since + 30_000 < now,
    ensures
        ({
            let (kept, expired) = cleaned(idle, Seq::empty(), now, min_idle, retained);
            let wanted = if min_idle - retained <= 0 {
                0
            } else if min_idle - retained < idle.len() {
                min_idle - retained
            } else {
                idle.len() as int
            };
            let first = idle.len() - wanted;
            &&& kept == Seq::new(wanted as nat, |i: int| IdleSession { seq: idle[first + i].seq, idle_since: now })
            &&& expired == Seq::new(first as nat, |i: int| idle[first - 1 - i].seq)
        }),
    decreases idle.len(),
{
    let (kept, expired) = cleaned(idle, Seq::empty(), now, min_idle, retained);
    if idle.len() > 0 {
        let front = idle.drop_last();
        let last = idle[idle.len() - 1];
        assert forall|i: int| 0 <= i < front.len() implies (#[trigger] front[i]).idle_since + 30_000 < now by {
            assert(front[i] == idle[i]);
        }
        let more = if retained < min_idle {
            retained + 1
        } else {
            retained
        };
        the_latest_of_the_stale_stay(front, now, min_idle, more);
        let wanted = if min_idle - retained <= 0 {
            0
        } else if min_idle - retained < idle.len() {
            min_idle - retained
        } else {
            idle.len() as int
        };
        let first = idle.len() - wanted;
        assert(!Seq::<u64>::empty().contains(last.seq));
        assert(kept =~= Seq::new(
            wanted as nat,
            |i: int| IdleSession { seq: idle[first + i].seq, idle_since: now },
        ));
        assert(expired =~= Seq::new(first as nat, |i: int| idle[first - 1 - i].seq));
    } else {
        assert(kept =~= Seq::new(0, |i: int| IdleSession { seq: idle[i].seq, idle_since: now }));
        assert(expired =~= Seq::new(0, |i: int| idle[0 - 1 - i].seq));
    }
}

/// Without a number of sessions that are wanted at least, every session that has been idle too long
/// is closed.
pub proof fn stale_sessions_are_closed(
    idle: Seq<IdleSession>,
    gone: Seq<u64>,
    now: u64,
    min_idle: int,
    retained: int,
    i: int,
)
    requires
        0 <= i < idle.len(),
        min_idle <= retained,
        !gone.contains(idle[i].seq),
        idle[i].idle_since + 30_000 < now,
    ensures
        cleaned(idle, gone, now, min_idle, retained).1.contains(idle[i].seq),
    decreases idle.len(),
{
    let front = idle.drop_last();
    let last = idle[idle.len() - 1];
    let more = if !gone.contains(last.seq) && last.idle_since + 30_000 >= now {
        retained + 1
    } else {
        retained
    };
    let expired = cleaned(idle, gone, now, min_idle, retained).1;
    let before = cleaned(front, gone, now, min_idle, more).1;
    if i < front.len() {
        assert(front[i] == idle[i]);
        stale_sessions_are_closed(front, gone, now, min_idle, more, i);
        let k = choose|k: int| 0 <= k < before.len() && before[k] == idle[i].seq;
        assert(expired[k + expired.len() - before.len()] == idle[i].seq);
    } else {
        assert(expired[0] == last.seq);
    }
}

} // verus!
