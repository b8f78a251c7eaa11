//! The header synchronisation state machine: which peer is asked for which
//! range of headers, what happens when the answer comes, when it does not,
//! and when the client counts as synced.

use crate::header::Header;
use crate::rules::TreeError;
use crate::tree::{BlockTree, ImportReport};
use vstd::prelude::*;

verus! {

/// The most headers that one request asks for.
pub const MAX_BATCH: u64 = 2000;

/// Seconds after which a request without an answer counts as stalled.
pub const REQUEST_TIMEOUT: u64 = 30;

/// Number of stalled requests after which a peer is asked last.
pub const MAX_RETRIES: u32 = 3;

/// A range of heights, both ends included.
#[derive(Clone, Copy, Debug, PartialEq, Eq)]
pub struct Range {
    /// The first height.
    pub start: u64,
    /// The last height.
    pub end: u64,
}

/// A request for the headers of a range of heights, to be sent to a peer.
#[derive(Clone, Copy, Debug, PartialEq, Eq)]
pub struct Request {
    /// The peer to ask.
    pub peer: u64,
    /// The heights asked for.
    pub range: Range,
}

/// What the manager knows of one connected peer.
#[derive(Clone, Copy, Debug, PartialEq, Eq)]
pub struct Session {
    /// The peer's identity.
    pub peer: u64,
    /// The greatest height that the peer has announced.
    pub height: u64,
    /// The range that the peer was asked for and has not answered yet.
    pub request: Option<Range>,
    /// When that request was made.
    pub issued_at: u64,
    /// How many requests to the peer have stalled since its last answer.
    pub retries: u32,
    /// Whether the peer is asked only where no other can be.
    pub deprioritized: bool,
}

/// The state of the synchronisation.
#[derive(Clone, Copy, Debug, PartialEq, Eq, Structural)]
pub enum SyncState {
    /// No request is out and parity with the peers is not established.
    Idle,
    /// A request is out.
    AwaitingHeaders,
    /// No request is out and no connected peer is ahead.
    Synced,
}

/// What the manager asks of the layers around it after an event.
#[derive(Clone, Copy, Debug, PartialEq, Eq)]
pub struct Decision {
    /// A request to send.
    pub request: Option<Request>,
    /// A peer to disconnect for having sent headers that break the rules.
    pub disconnect: Option<u64>,
    /// The height at which the client has just become synced.
    pub synced: Option<u64>,
}

/// The manager's state as a mathematical value.
pub struct SyncView {
    /// The connected peers, in the order in which they connected.
    pub sessions: Seq<Session>,
    /// The state of the synchronisation.
    pub state: SyncState,
    /// The height of the local best chain.
    pub local: u64,
}

/// The decision to do nothing.
pub open spec fn spec_nothing() -> Decision {
    Decision { request: None, disconnect: None, synced: None }
}

/// Some session belongs to the peer.
pub open spec fn spec_connected(sessions: Seq<Session>, peer: u64) -> bool {
    exists|i: int| 0 <= i < sessions.len() && (#[trigger] sessions[i]).peer == peer
}

/// The index of the peer's session, where it has one.
pub open spec fn spec_session_of(sessions: Seq<Session>, peer: u64) -> int {
    choose|i: int| 0 <= i < sessions.len() && (#[trigger] sessions[i]).peer == peer
}

/// Some session has a request out.
pub open spec fn spec_waiting(sessions: Seq<Session>) -> bool {
    exists|i: int| 0 <= i < sessions.len() && (#[trigger] sessions[i]).request is Some
}

/// The index of the session that has a request out, where one has.
pub open spec fn spec_waiting_index(sessions: Seq<Session>) -> int {
    choose|i: int| 0 <= i < sessions.len() && (#[trigger] sessions[i]).request is Some
}

/// The session can be asked: its peer has announced a height above `above`,
/// where one is given, and is not the one to leave out.
pub open spec fn spec_eligible(s: Session, above: Option<u64>, exclude: Option<u64>) -> bool {
    (above matches Some(a) ==> s.height > a) && exclude != Some(s.peer)
}

/// Session `i` is to be asked before session `j`: a peer that is not
/// deprioritized before one that is; then the greater height; then the
/// peer that connected later.
pub open spec fn spec_preferred(sessions: Seq<Session>, i: int, j: int) -> bool {
    let a = sessions[i];
    let b = sessions[j];
    if a.deprioritized != b.deprioritized {
        !a.deprioritized
    } else if a.height != b.height {
        a.height > b.height
    } else {
        i >= j
    }
}

/// Some session can be asked.
pub open spec fn spec_has_choice(sessions: Seq<Session>, above: Option<u64>, exclude: Option<u64>) -> bool {
    exists|i: int| 0 <= i < sessions.len() && spec_eligible(#[trigger] sessions[i], above, exclude)
}

/// Session `i` can be asked, and is to be asked before every other that
/// can.
pub open spec fn spec_is_choice(
    sessions: Seq<Session>,
    above: Option<u64>,
    exclude: Option<u64>,
    i: int,
) -> bool {
    &&& 0 <= i < sessions.len()
    &&& spec_eligible(sessions[i], above, exclude)
    &&& forall|j: int|
        0 <= j < sessions.len() && spec_eligible(#[trigger] sessions[j], above, exclude)
            ==> spec_preferred(sessions, i, j)
}

/// The index of the session to ask.
pub open spec fn spec_choice(sessions: Seq<Session>, above: Option<u64>, exclude: Option<u64>) -> int {
    choose|i: int| spec_is_choice(sessions, above, exclude, i)
}

/// Only one session is the one to ask.
pub proof fn lemma_choice_unique(
    sessions: Seq<Session>,
    above: Option<u64>,
    exclude: Option<u64>,
    i: int,
    j: int,
)
    requires
        spec_is_choice(sessions, above, exclude, i),
        spec_is_choice(sessions, above, exclude, j),
    ensures
        i == j,
{
    assert(spec_preferred(sessions, i, j));
    assert(spec_preferred(sessions, j, i));
}

/// The range to ask a peer of the given height for: from the height above
/// the local one up to the peer's, but no more than a batch.
pub open spec fn spec_range(local: u64, height: u64) -> Range {
    Range {
        start: (local + 1) as u64,
        end: if height - local > MAX_BATCH {
            (local + MAX_BATCH) as u64
        } else {
            height
        },
    }
}

/// The session after the range was asked of it at the time `now`.
pub open spec fn spec_asked(s: Session, range: Range, now: u64) -> Session {
    Session { request: Some(range), issued_at: now, ..s }
}

/// What the manager does when no request is out: with no peer it is idle;
/// with no peer ahead it is synced, and says so where it was not; else it
/// asks a peer for the next range. The peer asked is session `prefer` where
/// that one can be asked, else the one that is to be asked first.
pub open spec fn spec_schedule(v: SyncView, prefer: Option<int>, now: u64) -> (SyncView, Decision) {
    if v.sessions.len() == 0 {
        (SyncView { state: SyncState::Idle, ..v }, spec_nothing())
    } else if !spec_has_choice(v.sessions, Some(v.local), None) {
        (
            SyncView { state: SyncState::Synced, ..v },
            Decision {
                synced: if v.state == SyncState::Synced {
                    None
                } else {
                    Some(v.local)
                },
                ..spec_nothing()
            },
        )
    } else {
        let i = match prefer {
            Some(k) => if 0 <= k < v.sessions.len() && spec_eligible(v.sessions[k], Some(v.local), None) {
                k
            } else {
                spec_choice(v.sessions, Some(v.local), None)
            },
            None => spec_choice(v.sessions, Some(v.local), None),
        };
        let range = spec_range(v.local, v.sessions[i].height);
        (
            SyncView {
                sessions: v.sessions.update(i, spec_asked(v.sessions[i], range, now)),
                state: SyncState::AwaitingHeaders,
                ..v
            },
            Decision {
                request: Some(Request { peer: v.sessions[i].peer, range }),
                ..spec_nothing()
            },
        )
    }
}

/// The sessions after a peer connected or announced a height: a peer that
/// is known keeps its session, with the greater of the two heights; a new
/// peer gets a session at the end.
pub open spec fn spec_announce(sessions: Seq<Session>, peer: u64, height: u64) -> Seq<Session> {
    if spec_connected(sessions, peer) {
        let k = spec_session_of(sessions, peer);
        if height > sessions[k].height {
            sessions.update(k, Session { height, ..sessions[k] })
        } else {
            sessions
        }
    } else {
        sessions.push(
            Session {
                peer,
                height,
                request: None,
                issued_at: 0,
                retries: 0,
                deprioritized: false,
            },
        )
    }
}

/// What a connection or an announcement of a height does: the height is
/// recorded, and where no request is out the manager schedules.
pub open spec fn spec_on_peer(v: SyncView, peer: u64, height: u64, now: u64) -> (
    SyncView,
    Decision,
) {
    let v1 = SyncView { sessions: spec_announce(v.sessions, peer, height), ..v };
    if spec_waiting(v1.sessions) {
        (v1, spec_nothing())
    } else {
        spec_schedule(v1, None, now)
    }
}

/// What a disconnection does: the peer's session is dropped, and with it
/// the request that was out to the peer. Nothing is asked anew before the
/// next tick.
pub open spec fn spec_on_disconnect(v: SyncView, peer: u64) -> SyncView {
    if !spec_connected(v.sessions, peer) {
        v
    } else {
        let rest = v.sessions.remove(spec_session_of(v.sessions, peer));
        SyncView {
            sessions: rest,
            state: if spec_waiting(rest) {
                SyncState::AwaitingHeaders
            } else if rest.len() > 0 && v.state == SyncState::Synced {
                SyncState::Synced
            } else {
                SyncState::Idle
            },
            ..v
        }
    }
}

/// The session after a request to it has stalled.
pub open spec fn spec_stalled(s: Session) -> Session {
    let retries = if s.retries < u32::MAX {
        (s.retries + 1) as u32
    } else {
        s.retries
    };
    Session {
        request: None,
        retries,
        deprioritized: s.deprioritized || retries >= MAX_RETRIES,
        ..s
    }
}

/// Whether a request made at `issued_at` has stalled at `now`.
pub open spec fn spec_timed_out(issued_at: u64, now: u64) -> bool {
    now >= issued_at && now - issued_at >= REQUEST_TIMEOUT
}

/// What a tick of the clock does. A request that has stalled is taken from
/// its peer, which counts one more stall, and the same range goes to the
/// peer that is to be asked first among the other connected peers; with no
/// other peer connected the manager is idle. A request that has not stalled
/// stays. With no request out the manager schedules.
pub open spec fn spec_on_tick(v: SyncView, now: u64) -> (SyncView, Decision) {
    if !spec_waiting(v.sessions) {
        spec_schedule(v, None, now)
    } else {
        let k = spec_waiting_index(v.sessions);
        let s = v.sessions[k];
        if !spec_timed_out(s.issued_at, now) {
            (v, spec_nothing())
        } else {
            let sessions = v.sessions.update(k, spec_stalled(s));
            if !spec_has_choice(sessions, None, Some(s.peer)) {
                (SyncView { sessions, state: SyncState::Idle, ..v }, spec_nothing())
            } else {
                let i = spec_choice(sessions, None, Some(s.peer));
                let range = s.request->Some_0;
                (
                    SyncView {
                        sessions: sessions.update(i, spec_asked(sessions[i], range, now)),
                        state: SyncState::AwaitingHeaders,
                        ..v
                    },
                    Decision {
                        request: Some(Request { peer: sessions[i].peer, range }),
                        ..spec_nothing()
                    },
                )
            }
        }
    }
}

/// How an import ended, as far as the manager cares.
pub enum Verdict {
    /// Every header was taken.
    Accepted,
    /// A header broke a rule.
    Invalid,
    /// The store failed.
    StoreFailed,
}

/// How an import ended.
pub open spec fn spec_verdict(error: Option<TreeError>) -> Verdict {
    match error {
        None => Verdict::Accepted,
        Some(TreeError::Store(_)) => Verdict::StoreFailed,
        Some(_) => Verdict::Invalid,
    }
}

/// What the answer of the peer of session `k` does, once its headers were
/// imported and the local chain is `height` high.
///
/// Where every header was taken, the peer's request is done and its stalls
/// are forgotten, and the manager schedules, asking the same peer first.
/// Where a header broke a rule, the peer is to be disconnected, its session
/// is dropped, and the manager schedules among the others. Where the store
/// failed, the request is dropped and the manager is idle.
pub open spec fn spec_after_import(v: SyncView, k: int, verdict: Verdict, height: u64, now: u64) -> (
    SyncView,
    Decision,
) {
    let s = v.sessions[k];
    match verdict {
        Verdict::Accepted => {
            let done = Session { request: None, retries: 0, ..s };
            spec_schedule(
                SyncView { sessions: v.sessions.update(k, done), local: height, ..v },
                Some(k),
                now,
            )
        },
        Verdict::Invalid => {
            let next = spec_schedule(
                SyncView { sessions: v.sessions.remove(k), local: height, ..v },
                None,
                now,
            );
            (next.0, Decision { disconnect: Some(s.peer), ..next.1 })
        },
        Verdict::StoreFailed => (
            SyncView {
                sessions: v.sessions.update(k, Session { request: None, ..s }),
                state: SyncState::Idle,
                local: height,
            },
            spec_nothing(),
        ),
    }
}

/// What a change of the local chain does that no answer of a peer brought
/// about: where the height is new, the request that is out no longer
/// starts above the local chain and is dropped, and the manager is idle
/// until the next tick.
pub open spec fn spec_on_chain(v: SyncView, height: u64) -> SyncView {
    if height == v.local {
        v
    } else {
        SyncView {
            sessions: if spec_waiting(v.sessions) {
                let k = spec_waiting_index(v.sessions);
                v.sessions.update(k, Session { request: None, ..v.sessions[k] })
            } else {
                v.sessions
            },
            state: SyncState::Idle,
            local: height,
        }
    }
}

/// The request that is out to a session starts above the local chain, is
/// not empty, and is no more than a batch.
pub open spec fn spec_request_ok(s: Session, local: u64) -> bool {
    s.request matches Some(r) ==> {
        &&& r.start == local + 1
        &&& r.start <= r.end
        &&& r.end - local <= MAX_BATCH
    }
}

/// The state is one that the manager can be in: no peer has two sessions,
/// at most one request is out, the manager awaits headers exactly while
/// one is, every request is in order, and a synced manager has a peer and
/// none that is ahead.
pub open spec fn view_wf(v: SyncView) -> bool {
    &&& forall|i: int, j: int|
        #![trigger v.sessions[i], v.sessions[j]]
        0 <= i < j < v.sessions.len() ==> v.sessions[i].peer != v.sessions[j].peer
    &&& forall|i: int, j: int|
        #![trigger v.sessions[i], v.sessions[j]]
        0 <= i < j < v.sessions.len() ==> !(v.sessions[i].request is Some
            && v.sessions[j].request is Some)
    &&& (v.state == SyncState::AwaitingHeaders) == spec_waiting(v.sessions)
    &&& forall|i: int| 0 <= i < v.sessions.len() ==> spec_request_ok(#[trigger] v.sessions[i], v.local)
    &&& v.state == SyncState::Synced ==> v.sessions.len() > 0 && !spec_has_choice(
        v.sessions,
        Some(v.local),
        None,
    )
}

/// What `view_wf` asks of the sessions alone, where no request is out.
pub open spec fn view_quiet(v: SyncView) -> bool {
    &&& forall|i: int, j: int|
        #![trigger v.sessions[i], v.sessions[j]]
        0 <= i < j < v.sessions.len() ==> v.sessions[i].peer != v.sessions[j].peer
    &&& forall|i: int| 0 <= i < v.sessions.len() ==> (#[trigger] v.sessions[i]).request is None
    &&& v.state == SyncState::Synced ==> v.sessions.len() > 0
}

/// Scheduling leaves the manager in a state that it can be in.
pub proof fn lemma_schedule_wf(v: SyncView, prefer: Option<int>, now: u64)
    requires
        view_quiet(v),
    ensures
        view_wf(spec_schedule(v, prefer, now).0),
{
    let next = spec_schedule(v, prefer, now).0;
    if v.sessions.len() > 0 && spec_has_choice(v.sessions, Some(v.local), None) {
        let c = spec_choice(v.sessions, Some(v.local), None);
        let w = choose|i: int|
            0 <= i < v.sessions.len() && spec_eligible(#[trigger] v.sessions[i], Some(v.local), None);
        lemma_choice_exists(v.sessions, Some(v.local), None);
        let i = match prefer {
            Some(k) => if 0 <= k < v.sessions.len() && spec_eligible(v.sessions[k], Some(v.local), None) {
                k
            } else {
                c
            },
            None => c,
        };
        assert(next.sessions[i].request is Some);
        assert(spec_waiting(next.sessions));
        assert forall|a: int| 0 <= a < next.sessions.len() implies spec_request_ok(
            #[trigger] next.sessions[a],
            next.local,
        ) by {
            if a != i {
                assert(v.sessions[a].request is None);
            }
        }
        assert forall|a: int, b: int|
            #![trigger next.sessions[a], next.sessions[b]]
            0 <= a < b < next.sessions.len() implies !(next.sessions[a].request is Some
            && next.sessions[b].request is Some) by {
            if a != i {
                assert(v.sessions[a].request is None);
            }
            if b != i {
                assert(v.sessions[b].request is None);
            }
        }
        assert forall|a: int, b: int|
            #![trigger next.sessions[a], next.sessions[b]]
            0 <= a < b < next.sessions.len() implies next.sessions[a].peer
            != next.sessions[b].peer by {
            assert(v.sessions[a].peer != v.sessions[b].peer);
        }
    } else {
        assert(next.sessions == v.sessions);
        if spec_waiting(next.sessions) {
            let i = spec_waiting_index(next.sessions);
            assert(v.sessions[i].request is None);
        }
    }
}

/// Where some session can be asked, one of them is to be asked first.
pub proof fn lemma_choice_exists(sessions: Seq<Session>, above: Option<u64>, exclude: Option<u64>)
    requires
        spec_has_choice(sessions, above, exclude),
    ensures
        spec_is_choice(sessions, above, exclude, spec_choice(sessions, above, exclude)),
{
    lemma_choice_upto(sessions, above, exclude, sessions.len() as int);
    let i = choose|i: int| #[trigger] spec_is_choice_upto(sessions, above, exclude, sessions.len() as int, i);
    let w = choose|w: int|
        0 <= w < sessions.len() && spec_eligible(#[trigger] sessions[w], above, exclude);
    assert(spec_eligible(sessions[w], above, exclude));
    assert(spec_is_choice(sessions, above, exclude, i));
}

/// Session `i` is among the first `n`, can be asked, and is to be asked
/// before every other of the first `n` that can.
pub open spec fn spec_is_choice_upto(
    sessions: Seq<Session>,
    above: Option<u64>,
    exclude: Option<u64>,
    n: int,
    i: int,
) -> bool {
    &&& 0 <= i < n
    &&& spec_eligible(sessions[i], above, exclude)
    &&& forall|j: int|
        0 <= j < n && spec_eligible(#[trigger] sessions[j], above, exclude) ==> spec_preferred(
            sessions,
            i,
            j,
        )
}

/// Among the first `n` sessions, where one can be asked, one is to be
/// asked first.
pub proof fn lemma_choice_upto(sessions: Seq<Session>, above: Option<u64>, exclude: Option<u64>, n: int)
    requires
        0 <= n <= sessions.len(),
    ensures
        (exists|j: int| 0 <= j < n && spec_eligible(#[trigger] sessions[j], above, exclude))
            ==> exists|i: int| #[trigger] spec_is_choice_upto(sessions, above, exclude, n, i),
    decreases n,
{
    if n > 0 {
        lemma_choice_upto(sessions, above, exclude, n - 1);
        let last = n - 1;
        if exists|j: int| 0 <= j < n - 1 && spec_eligible(#[trigger] sessions[j], above, exclude) {
            let b = choose|i: int| #[trigger] spec_is_choice_upto(sessions, above, exclude, n - 1, i);
            if spec_eligible(sessions[last], above, exclude) && spec_preferred(sessions, last, b) {
                assert forall|j: int|
                    0 <= j < n && spec_eligible(
                        #[trigger] sessions[j],
                        above,
                        exclude,
                    ) implies spec_preferred(sessions, last, j) by {
                    if j < last {
                        assert(spec_preferred(sessions, b, j));
                    }
                }
                assert(spec_is_choice_upto(sessions, above, exclude, n, last));
            } else {
                assert(spec_is_choice_upto(sessions, above, exclude, n, b));
            }
        } else if spec_eligible(sessions[last], above, exclude) {
            assert(spec_is_choice_upto(sessions, above, exclude, n, last));
        }
    }
}

/// Whether session `a`, at index `i`, is to be asked before session `b`,
/// at index `j`.
fn prefers(a: &Session, i: usize, b: &Session, j: usize) -> (r: bool)
    ensures
        r == (if a.deprioritized != b.deprioritized {
            !a.deprioritized
        } else if a.height != b.height {
            a.height > b.height
        } else {
            i >= j
        }),
{
    if a.deprioritized != b.deprioritized {
        !a.deprioritized
    } else if a.height != b.height {
        a.height > b.height
    } else {
        i >= j
    }
}

/// Whether the session can be asked.
fn eligible(s: &Session, above: Option<u64>, exclude: Option<u64>) -> (r: bool)
    ensures
        r == spec_eligible(*s, above, exclude),
{
    let excluded: bool = match exclude {
        Some(p) => p == s.peer,
        None => false,
    };
    let high: bool = match above {
        Some(a) => s.height > a,
        None => true,
    };
    high && !excluded
}

/// The index that an optional position stands for.
pub open spec fn spec_index(prefer: Option<usize>) -> Option<int> {
    match prefer {
        Some(k) => Some(k as int),
        None => None,
    }
}

/// A batch of `count` headers from the peer answers a request: the peer is
/// connected, a request is out to it, and the batch is no larger than a
/// batch may be.
pub open spec fn spec_answers(v: SyncView, peer: u64, count: nat) -> bool {
    &&& spec_connected(v.sessions, peer)
    &&& v.sessions[spec_session_of(v.sessions, peer)].request is Some
    &&& count <= MAX_BATCH
}

/// The range to ask a peer of the given height for.
fn next_range(local: u64, height: u64) -> (r: Range)
    requires
        height > local,
    ensures
        r == spec_range(local, height),
{
    Range {
        start: local + 1,
        end: if height - local > MAX_BATCH {
            local + MAX_BATCH
        } else {
            height
        },
    }
}

/// A manager that can be in its state and has no request out is quiet.
pub proof fn lemma_quiet(v: SyncView)
    requires
        view_wf(v),
        !spec_waiting(v.sessions),
    ensures
        view_quiet(v),
{
}

/// A manager whose sessions are quiet and that is idle can be in its
/// state.
pub proof fn lemma_quiet_idle(v: SyncView)
    requires
        view_quiet(v),
        v.state == SyncState::Idle,
    ensures
        view_wf(v),
{
    if spec_waiting(v.sessions) {
        let i = spec_waiting_index(v.sessions);
        assert(v.sessions[i].request is None);
    }
}

/// Recording a height keeps the manager in a state that it can be in, or
/// quiet where no request is out.
pub proof fn lemma_announce(v: SyncView, peer: u64, height: u64)
    requires
        view_wf(v),
    ensures
        ({
            let v1 = SyncView { sessions: spec_announce(v.sessions, peer, height), ..v };
            &&& spec_waiting(v1.sessions) == spec_waiting(v.sessions)
            &&& spec_waiting(v.sessions) ==> view_wf(v1)
            &&& !spec_waiting(v.sessions) ==> view_quiet(v1)
        }),
{
    let next = spec_announce(v.sessions, peer, height);
    let v1 = SyncView { sessions: next, ..v };
    assert forall|i: int| 0 <= i < v.sessions.len() implies (#[trigger] next[i]).request
        == v.sessions[i].request && next[i].peer == v.sessions[i].peer && next[i].height
        >= v.sessions[i].height by {}
    if spec_waiting(v.sessions) {
        let i = spec_waiting_index(v.sessions);
        assert(next[i].request is Some);
    }
    if spec_waiting(next) {
        let i = spec_waiting_index(next);
        if i < v.sessions.len() {
            assert(v.sessions[i].request is Some);
        }
    }
    assert forall|i: int, j: int|
        #![trigger next[i], next[j]]
        0 <= i < j < next.len() implies next[i].peer != next[j].peer by {
        if j < v.sessions.len() {
            assert(v.sessions[i].peer != v.sessions[j].peer);
        } else {
            assert(v.sessions[i].peer != peer);
        }
    }
    assert forall|i: int, j: int|
        #![trigger next[i], next[j]]
        0 <= i < j < next.len() implies !(next[i].request is Some && next[j].request is Some) by {
        if j < v.sessions.len() {
            assert(!(v.sessions[i].request is Some && v.sessions[j].request is Some));
        }
    }
    assert forall|i: int| 0 <= i < next.len() implies spec_request_ok(#[trigger] next[i], v.local) by {
        if i < v.sessions.len() {
            assert(spec_request_ok(v.sessions[i], v.local));
        }
    }
    if !spec_waiting(v.sessions) {
        assert forall|i: int| 0 <= i < next.len() implies (#[trigger] next[i]).request is None by {
            if i < v.sessions.len() {
                assert(v.sessions[i].request is None);
            }
        }
        if v.state == SyncState::Synced {
            assert(next.len() > 0);
        }
    }
}

/// Dropping a session leaves the manager in a state that it can be in.
pub proof fn lemma_disconnect(v: SyncView, k: int)
    requires
        view_wf(v),
        0 <= k < v.sessions.len(),
    ensures
        ({
            let rest = v.sessions.remove(k);
            let next = SyncView {
                sessions: rest,
                state: if spec_waiting(rest) {
                    SyncState::AwaitingHeaders
                } else if rest.len() > 0 && v.state == SyncState::Synced {
                    SyncState::Synced
                } else {
                    SyncState::Idle
                },
                ..v
            };
            &&& view_wf(next)
            &&& spec_waiting(rest) == (spec_waiting(v.sessions) && spec_waiting_index(v.sessions)
                != k)
        }),
{
    let rest = v.sessions.remove(k);
    assert forall|i: int| 0 <= i < rest.len() implies #[trigger] rest[i] == v.sessions[if i < k {
        i
    } else {
        i + 1
    }] by {}
    if spec_waiting(v.sessions) {
        let w = spec_waiting_index(v.sessions);
        if w != k {
            let i = if w < k {
                w
            } else {
                w - 1
            };
            assert(rest[i].request is Some);
        }
    }
    if spec_waiting(rest) {
        let i = spec_waiting_index(rest);
        let j = if i < k {
            i
        } else {
            i + 1
        };
        assert(v.sessions[j].request is Some);
        let w = spec_waiting_index(v.sessions);
        if w < j {
            assert(!(v.sessions[w].request is Some && v.sessions[j].request is Some));
        }
        if j < w {
            assert(!(v.sessions[j].request is Some && v.sessions[w].request is Some));
        }
    }
    assert forall|i: int, j: int|
        #![trigger rest[i], rest[j]]
        0 <= i < j < rest.len() implies rest[i].peer != rest[j].peer && !(rest[i].request is Some
        && rest[j].request is Some) by {
        let a = if i < k {
            i
        } else {
            i + 1
        };
        let b = if j < k {
            j
        } else {
            j + 1
        };
        assert(v.sessions[a].peer != v.sessions[b].peer);
        assert(!(v.sessions[a].request is Some && v.sessions[b].request is Some));
    }
    assert forall|i: int| 0 <= i < rest.len() implies spec_request_ok(#[trigger] rest[i], v.local) by {
        let a = if i < k {
            i
        } else {
            i + 1
        };
        assert(spec_request_ok(v.sessions[a], v.local));
    }
    if v.state == SyncState::Synced && spec_has_choice(rest, Some(v.local), None) {
        let i = choose|i: int|
            0 <= i < rest.len() && spec_eligible(#[trigger] rest[i], Some(v.local), None);
        let a = if i < k {
            i
        } else {
            i + 1
        };
        assert(spec_eligible(v.sessions[a], Some(v.local), None));
    }
}

/// A tick that finds a stalled request leaves the manager in a state that
/// it can be in.
pub proof fn lemma_tick(v: SyncView, now: u64)
    requires
        view_wf(v),
        spec_waiting(v.sessions),
        spec_timed_out(v.sessions[spec_waiting_index(v.sessions)].issued_at, now),
    ensures
        view_wf(spec_on_tick(v, now).0),
{
    let k = spec_waiting_index(v.sessions);
    let s = v.sessions[k];
    let sessions = v.sessions.update(k, spec_stalled(s));
    assert(spec_request_ok(s, v.local));
    assert forall|i: int| 0 <= i < sessions.len() implies (#[trigger] sessions[i]).request is None by {
        if i != k {
            if i < k {
                assert(!(v.sessions[i].request is Some && v.sessions[k].request is Some));
            } else {
                assert(!(v.sessions[k].request is Some && v.sessions[i].request is Some));
            }
        }
    }
    assert forall|i: int, j: int|
        #![trigger sessions[i], sessions[j]]
        0 <= i < j < sessions.len() implies sessions[i].peer != sessions[j].peer by {
        assert(v.sessions[i].peer != v.sessions[j].peer);
    }
    let next = spec_on_tick(v, now).0;
    if !spec_has_choice(sessions, None, Some(s.peer)) {
        lemma_quiet_idle(SyncView { sessions, state: SyncState::Idle, ..v });
    } else {
        lemma_choice_exists(sessions, None, Some(s.peer));
        let i = spec_choice(sessions, None, Some(s.peer));
        assert(next.sessions[i].request is Some);
        assert(spec_waiting(next.sessions));
        assert forall|a: int| 0 <= a < next.sessions.len() implies spec_request_ok(
            #[trigger] next.sessions[a],
            next.local,
        ) by {
            if a != i {
                assert(sessions[a].request is None);
            }
        }
        assert forall|a: int, b: int|
            #![trigger next.sessions[a], next.sessions[b]]
            0 <= a < b < next.sessions.len() implies !(next.sessions[a].request is Some
            && next.sessions[b].request is Some) && next.sessions[a].peer
            != next.sessions[b].peer by {
            assert(sessions[a].peer != sessions[b].peer);
            if a != i {
                assert(sessions[a].request is None);
            }
            if b != i {
                assert(sessions[b].request is None);
            }
        }
    }
}

/// After the one request that was out is answered, the sessions are quiet
/// whether the peer's session stays, without its request, or goes.
pub proof fn lemma_answered(v: SyncView, k: int, height: u64)
    requires
        view_wf(v),
        0 <= k < v.sessions.len(),
        v.sessions[k].request is Some,
    ensures
        forall|s: Session|
            s.peer == v.sessions[k].peer && s.request is None ==> #[trigger] view_quiet(
                SyncView { sessions: v.sessions.update(k, s), local: height, ..v },
            ),
        view_quiet(
            SyncView {
                sessions: v.sessions.remove(k),
                state: SyncState::AwaitingHeaders,
                local: height,
            },
        ),
        v.state == SyncState::AwaitingHeaders,
        spec_waiting_index(v.sessions) == k,
{
    assert(spec_waiting(v.sessions));
    let w = spec_waiting_index(v.sessions);
    if w < k {
        assert(!(v.sessions[w].request is Some && v.sessions[k].request is Some));
    }
    if k < w {
        assert(!(v.sessions[k].request is Some && v.sessions[w].request is Some));
    }
    assert forall|i: int| 0 <= i < v.sessions.len() && i != k implies (
    #[trigger] v.sessions[i]).request is None by {
        if i < k {
            assert(!(v.sessions[i].request is Some && v.sessions[k].request is Some));
        } else {
            assert(!(v.sessions[k].request is Some && v.sessions[i].request is Some));
        }
    }
    assert forall|s: Session|
        s.peer == v.sessions[k].peer && s.request is None implies #[trigger] view_quiet(
        SyncView { sessions: v.sessions.update(k, s), local: height, ..v },
    ) by {
        let next = v.sessions.update(k, s);
        assert forall|i: int, j: int|
            #![trigger next[i], next[j]]
            0 <= i < j < next.len() implies next[i].peer != next[j].peer by {
            assert(v.sessions[i].peer != v.sessions[j].peer);
        }
        assert forall|i: int| 0 <= i < next.len() implies (#[trigger] next[i]).request is None by {
            if i != k {
                assert(v.sessions[i].request is None);
            }
        }
    }
    let rest = v.sessions.remove(k);
    assert forall|i: int, j: int|
        #![trigger rest[i], rest[j]]
        0 <= i < j < rest.len() implies rest[i].peer != rest[j].peer by {
        let a = if i < k {
            i
        } else {
            i + 1
        };
        let b = if j < k {
            j
        } else {
            j + 1
        };
        assert(v.sessions[a].peer != v.sessions[b].peer);
    }
    assert forall|i: int| 0 <= i < rest.len() implies (#[trigger] rest[i]).request is None by {
        let a = if i < k {
            i
        } else {
            i + 1
        };
        assert(v.sessions[a].request is None);
    }
}

/// The header synchronisation manager.
pub struct SyncManager {
    sessions: Vec<Session>,
    state: SyncState,
    local: u64,
}

impl View for SyncManager {
    type V = SyncView;

    closed spec fn view(&self) -> SyncView {
        SyncView { sessions: self.sessions@, state: self.state, local: self.local }
    }
}

impl SyncManager {
    /// The manager is in a state that it can be in.
    pub open spec fn wf(&self) -> bool {
        view_wf(self@)
    }

    /// A manager without peers, for a local chain of the given height.
    pub fn new(local_height: u64) -> (r: SyncManager)
        ensures
            r.wf(),
            r@ == (SyncView {
                sessions: Seq::<Session>::empty(),
                state: SyncState::Idle,
                local: local_height,
            }),
    {
        let r = SyncManager { sessions: Vec::new(), state: SyncState::Idle, local: local_height };
        proof {
            if spec_waiting(r@.sessions) {
                let i = spec_waiting_index(r@.sessions);
            }
        }
        r
    }

    /// The state of the synchronisation.
    pub fn state(&self) -> (r: SyncState)
        ensures
            r == self@.state,
    {
        self.state
    }

    /// The height of the local best chain, as the manager knows it.
    pub fn local_height(&self) -> (r: u64)
        ensures
            r == self@.local,
    {
        self.local
    }

    /// The number of connected peers.
    pub fn peer_count(&self) -> (r: usize)
        ensures
            r == self@.sessions.len(),
    {
        self.sessions.len()
    }

    /// The greatest height that a connected peer has announced; zero
    /// without peers.
    pub fn best_height(&self) -> (r: u64)
        ensures
            forall|i: int| 0 <= i < self@.sessions.len() ==> (#[trigger] self@.sessions[i]).height <= r,
            self@.sessions.len() == 0 ==> r == 0,
            self@.sessions.len() > 0 ==> exists|i: int|
                0 <= i < self@.sessions.len() && (#[trigger] self@.sessions[i]).height == r,
    {
        let mut best: u64 = 0;
        let mut i: usize = 0;
        while i < self.sessions.len()
            invariant
                i <= self.sessions@.len(),
                forall|k: int| 0 <= k < i ==> (#[trigger] self.sessions@[k]).height <= best,
                i == 0 ==> best == 0,
                i > 0 ==> exists|k: int| 0 <= k < i && (#[trigger] self.sessions@[k]).height == best,
            decreases self.sessions@.len() - i,
        {
            if i == 0 || self.sessions[i].height > best {
                best = self.sessions[i].height;
            } else {
                let ghost w = choose|k: int|
                    0 <= k < i && (#[trigger] self.sessions@[k]).height == best;
                assert(self.sessions@[w].height == best);
            }
            i = i + 1;
        }
        best
    }

    /// The session of the peer, if it is connected.
    pub fn session(&self, peer: u64) -> (r: Option<Session>)
        requires
            self.wf(),
        ensures
            r is Some <==> spec_connected(self@.sessions, peer),
            r matches Some(s) ==> s == self@.sessions[spec_session_of(self@.sessions, peer)],
    {
        match self.find(peer) {
            Some(i) => Some(self.sessions[i]),
            None => None,
        }
    }

    /// The request that is out, if one is.
    pub fn pending(&self) -> (r: Option<Request>)
        requires
            self.wf(),
        ensures
            r is Some <==> spec_waiting(self@.sessions),
            r matches Some(q) ==> {
                let s = self@.sessions[spec_waiting_index(self@.sessions)];
                q.peer == s.peer && s.request == Some(q.range)
            },
    {
        match self.waiting_index() {
            Some(i) => {
                let s: Session = self.sessions[i];
                match s.request {
                    Some(range) => Some(Request { peer: s.peer, range }),
                    None => None,
                }
            },
            None => None,
        }
    }

    /// Asks a peer for the next range, or finds that there is none to ask.
    fn schedule(&mut self, prefer: Option<usize>, now: u64) -> (d: Decision)
        requires
            view_quiet(old(self)@),
        ensures
            (final(self)@, d) == spec_schedule(old(self)@, spec_index(prefer), now),
            final(self).wf(),
    {
        proof {
            lemma_schedule_wf(self@, spec_index(prefer), now);
        }
        if self.sessions.len() == 0 {
            self.state = SyncState::Idle;
            return Decision { request: None, disconnect: None, synced: None };
        }
        match self.select(Some(self.local), None) {
            None => {
                let synced: Option<u64> = match self.state {
                    SyncState::Synced => None,
                    _ => Some(self.local),
                };
                self.state = SyncState::Synced;
                Decision { request: None, disconnect: None, synced }
            },
            Some(c) => {
                let i: usize = match prefer {
                    Some(k) => if k < self.sessions.len() && eligible(
                        &self.sessions[k],
                        Some(self.local),
                        None,
                    ) {
                        k
                    } else {
                        c
                    },
                    None => c,
                };
                let s: Session = self.sessions[i];
                let range: Range = next_range(self.local, s.height);
                self.sessions.set(
                    i,
                    Session {
                        peer: s.peer,
                        height: s.height,
                        request: Some(range),
                        issued_at: now,
                        retries: s.retries,
                        deprioritized: s.deprioritized,
                    },
                );
                self.state = SyncState::AwaitingHeaders;
                Decision {
                    request: Some(Request { peer: s.peer, range }),
                    disconnect: None,
                    synced: None,
                }
            },
        }
    }

    /// Takes note that a peer has connected, or that a connected peer has
    /// announced a height, at the time `now`; what it does is
    /// `spec_on_peer`.
    pub fn peer_connected(&mut self, peer: u64, height: u64, now: u64) -> (d: Decision)
        requires
            old(self).wf(),
        ensures
            final(self).wf(),
            (final(self)@, d) == spec_on_peer(old(self)@, peer, height, now),
    {
        let waiting: bool = self.waiting_index().is_some();
        let ghost before = self@;
        match self.find(peer) {
            Some(k) => {
                let s: Session = self.sessions[k];
                if height > s.height {
                    self.sessions.set(
                        k,
                        Session {
                            peer: s.peer,
                            height,
                            request: s.request,
                            issued_at: s.issued_at,
                            retries: s.retries,
                            deprioritized: s.deprioritized,
                        },
                    );
                }
            },
            None => {
                self.sessions.push(
                    Session {
                        peer,
                        height,
                        request: None,
                        issued_at: 0,
                        retries: 0,
                        deprioritized: false,
                    },
                );
            },
        }
        proof {
            lemma_announce(before, peer, height);
        }
        if waiting {
            Decision { request: None, disconnect: None, synced: None }
        } else {
            self.schedule(None, now)
        }
    }

    /// Takes note that a peer has disconnected; what it does is
    /// `spec_on_disconnect`.
    pub fn peer_disconnected(&mut self, peer: u64)
        requires
            old(self).wf(),
        ensures
            final(self).wf(),
            final(self)@ == spec_on_disconnect(old(self)@, peer),
    {
        let waiting: Option<usize> = self.waiting_index();
        match self.find(peer) {
            None => {},
            Some(k) => {
                let ghost before = self@;
                self.sessions.remove(k);
                let still: bool = match waiting {
                    Some(j) => j != k,
                    None => false,
                };
                proof {
                    lemma_disconnect(before, k as int);
                }
                if still {
                    self.state = SyncState::AwaitingHeaders;
                } else if self.sessions.len() > 0 && self.state == SyncState::Synced {
                    self.state = SyncState::Synced;
                } else {
                    self.state = SyncState::Idle;
                }
            },
        }
    }

    /// Takes note of the time; what it does is `spec_on_tick`. A request
    /// that has been out for `REQUEST_TIMEOUT` seconds is taken from its
    /// peer and goes, with its range unchanged, to the peer that is to be
    /// asked first among the other connected peers.
    pub fn tick(&mut self, now: u64) -> (d: Decision)
        requires
            old(self).wf(),
        ensures
            final(self).wf(),
            (final(self)@, d) == spec_on_tick(old(self)@, now),
    {
        match self.waiting_index() {
            None => {
                proof {
                    lemma_quiet(self@);
                }
                self.schedule(None, now)
            },
            Some(k) => {
                let s: Session = self.sessions[k];
                if !(now >= s.issued_at && now - s.issued_at >= REQUEST_TIMEOUT) {
                    return Decision { request: None, disconnect: None, synced: None };
                }
                let retries: u32 = if s.retries < u32::MAX {
                    s.retries + 1
                } else {
                    s.retries
                };
                let ghost before = self@;
                self.sessions.set(
                    k,
                    Session {
                        peer: s.peer,
                        height: s.height,
                        request: None,
                        issued_at: s.issued_at,
                        retries,
                        deprioritized: s.deprioritized || retries >= MAX_RETRIES,
                    },
                );
                let old_range: Range = s.request.unwrap();
                proof {
                    lemma_tick(before, now);
                }
                match self.select(None, Some(s.peer)) {
                    None => {
                        self.state = SyncState::Idle;
                        Decision { request: None, disconnect: None, synced: None }
                    },
                    Some(i) => {
                        let t: Session = self.sessions[i];
                        let range: Range = old_range;
                        self.sessions.set(
                            i,
                            Session {
                                peer: t.peer,
                                height: t.height,
                                request: Some(range),
                                issued_at: now,
                                retries: t.retries,
                                deprioritized: t.deprioritized,
                            },
                        );
                        self.state = SyncState::AwaitingHeaders;
                        Decision {
                            request: Some(Request { peer: t.peer, range }),
                            disconnect: None,
                            synced: None,
                        }
                    },
                }
            },
        }
    }

    /// Takes the headers that a peer sent at the time `now`.
    ///
    /// Headers from a peer that was not asked, and more headers than a
    /// batch may hold, are left alone: nothing is imported and nothing
    /// changes.
    /// Else the headers are imported into the tree, the report of the
    /// import is handed back, and the manager does
    /// what `spec_after_import` says for the way the import ended and the
    /// height that the tree then has.
    pub fn received_headers(
        &mut self,
        tree: &mut BlockTree,
        peer: u64,
        headers: &Vec<Header>,
        now: u64,
    ) -> (r: (Option<ImportReport>, Decision))
        requires
            old(self).wf(),
            old(tree).wf(),
        ensures
            final(self).wf(),
            final(tree).wf(),
            final(tree).spec_params() == old(tree).spec_params(),
            final(tree).spec_checkpoints() == old(tree).spec_checkpoints(),
            final(tree).spec_limit() == old(tree).spec_limit(),
            spec_answers(old(self)@, peer, headers@.len()) ==> ({
                let fin = crate::tree::spec_import(
                    old(tree).state(),
                    old(tree).spec_params(),
                    old(tree).spec_checkpoints(),
                    old(tree).spec_limit(),
                    headers@,
                    now,
                );
                &&& final(tree).state() == fin.0
                &&& match r.0 {
                    Some(report) => report.error == fin.1 && report.outcome@
                        == crate::tree::spec_change(
                        old(tree).spec_best_chain(),
                        final(tree).spec_best_chain(),
                    ),
                    None => false,
                }
                &&& (final(self)@, r.1) == spec_after_import(
                    old(self)@,
                    spec_session_of(old(self)@.sessions, peer),
                    spec_verdict(fin.1),
                    final(tree).spec_height() as u64,
                    now,
                )
            }),
            !spec_answers(old(self)@, peer, headers@.len()) ==> {
                &&& r.0 is None
                &&& r.1 == spec_nothing()
                &&& final(self)@ == old(self)@
                &&& final(tree).state() == old(tree).state()
                &&& final(tree).spec_store() == old(tree).spec_store()
            },
    {
        let k: usize = match self.find(peer) {
            None => {
                return (None, Decision { request: None, disconnect: None, synced: None });
            },
            Some(k) => k,
        };
        let s: Session = self.sessions[k];
        if s.request.is_none() || headers.len() as u64 > MAX_BATCH {
            return (None, Decision { request: None, disconnect: None, synced: None });
        }
        let report: ImportReport = tree.import_report(headers, now);
        let height: u64 = tree.height();
        let ghost before = self@;
        self.local = height;
        let d: Decision = match report.error {
            None => {
                self.sessions.set(
                    k,
                    Session {
                        peer: s.peer,
                        height: s.height,
                        request: None,
                        issued_at: s.issued_at,
                        retries: 0,
                        deprioritized: s.deprioritized,
                    },
                );
                proof {
                    lemma_answered(before, k as int, height);
                }
                self.schedule(Some(k), now)
            },
            Some(TreeError::Store(_)) => {
                self.sessions.set(
                    k,
                    Session {
                        peer: s.peer,
                        height: s.height,
                        request: None,
                        issued_at: s.issued_at,
                        retries: s.retries,
                        deprioritized: s.deprioritized,
                    },
                );
                self.state = SyncState::Idle;
                proof {
                    lemma_answered(before, k as int, height);
                    lemma_quiet_idle(self@);
                }
                Decision { request: None, disconnect: None, synced: None }
            },
            Some(_) => {
                self.sessions.remove(k);
                proof {
                    lemma_answered(before, k as int, height);
                }
                let next: Decision = self.schedule(None, now);
                Decision { request: next.request, disconnect: Some(s.peer), synced: next.synced }
            },
        };
        (Some(report), d)
    }

    /// Takes note that the local best chain has a new height that no answer
    /// of a peer brought about; what it does is `spec_on_chain`.
    pub fn chain_changed(&mut self, height: u64)
        requires
            old(self).wf(),
        ensures
            final(self).wf(),
            final(self)@ == spec_on_chain(old(self)@, height),
    {
        if height == self.local {
            return ;
        }
        let ghost before = self@;
        match self.waiting_index() {
            Some(k) => {
                let s: Session = self.sessions[k];
                self.sessions.set(
                    k,
                    Session {
                        peer: s.peer,
                        height: s.height,
                        request: None,
                        issued_at: s.issued_at,
                        retries: s.retries,
                        deprioritized: s.deprioritized,
                    },
                );
                proof {
                    lemma_answered(before, k as int, height);
                }
            },
            None => {
                proof {
                    lemma_quiet(before);
                }
            },
        }
        self.local = height;
        self.state = SyncState::Idle;
        proof {
            lemma_quiet_idle(self@);
        }
    }

    /// The index of the peer's session.
    fn find(&self, peer: u64) -> (r: Option<usize>)
        requires
            self.wf(),
        ensures
            r is Some <==> spec_connected(self.sessions@, peer),
            r matches Some(i) ==> i == spec_session_of(self.sessions@, peer) && i < self.sessions@.len()
                && self.sessions@[i as int].peer == peer,
    {
        let mut i: usize = 0;
        while i < self.sessions.len()
            invariant
                self.wf(),
                i <= self.sessions@.len(),
                forall|k: int| 0 <= k < i ==> (#[trigger] self.sessions@[k]).peer != peer,
            decreases self.sessions@.len() - i,
        {
            if self.sessions[i].peer == peer {
                proof {
                    let j = spec_session_of(self.sessions@, peer);
                    assert(self.sessions@[i as int].peer == peer);
                    if j < i {
                        assert(self.sessions@[j].peer != self.sessions@[i as int].peer);
                    }
                    if i < j {
                        assert(self.sessions@[i as int].peer != self.sessions@[j].peer);
                    }
                }
                return Some(i);
            }
            i = i + 1;
        }
        None
    }

    /// The index of the session that has a request out.
    fn waiting_index(&self) -> (r: Option<usize>)
        requires
            self.wf(),
        ensures
            r is Some <==> spec_waiting(self.sessions@),
            r matches Some(i) ==> i == spec_waiting_index(self.sessions@) && i < self.sessions@.len()
                && self.sessions@[i as int].request is Some,
    {
        let mut i: usize = 0;
        while i < self.sessions.len()
            invariant
                self.wf(),
                i <= self.sessions@.len(),
                forall|k: int| 0 <= k < i ==> (#[trigger] self.sessions@[k]).request is None,
            decreases self.sessions@.len() - i,
        {
            if self.sessions[i].request.is_some() {
                proof {
                    let j = spec_waiting_index(self.sessions@);
                    assert(self.sessions@[i as int].request is Some);
                    if j < i {
                        assert(self.sessions@[j].request is Some);
                    }
                    if i < j {
                        assert(!(self.sessions@[i as int].request is Some
                            && self.sessions@[j].request is Some));
                    }
                }
                return Some(i);
            }
            i = i + 1;
        }
        None
    }

    /// The peer that is to be asked first among those that have announced a
    /// height above `above`.
    pub fn peer_above(&self, above: u64) -> (r: Option<u64>)
        ensures
            r is Some <==> spec_has_choice(self@.sessions, Some(above), None),
            r matches Some(peer) ==> peer == self@.sessions[spec_choice(
                self@.sessions,
                Some(above),
                None,
            )].peer,
    {
        match self.select(Some(above), None) {
            Some(i) => Some(self.sessions[i].peer),
            None => None,
        }
    }

    /// The index of the session to ask among those that have announced a
    /// height above `above`, or among all where none is given.
    fn select(&self, above: Option<u64>, exclude: Option<u64>) -> (r: Option<usize>)
        ensures
            r is Some <==> spec_has_choice(self.sessions@, above, exclude),
            r matches Some(i) ==> i == spec_choice(self.sessions@, above, exclude)
                && spec_is_choice(self.sessions@, above, exclude, i as int),
    {
        let mut best: Option<usize> = None;
        let mut i: usize = 0;
        while i < self.sessions.len()
            invariant
                i <= self.sessions@.len(),
                best is None ==> forall|k: int|
                    0 <= k < i ==> !spec_eligible(#[trigger] self.sessions@[k], above, exclude),
                best matches Some(b) ==> spec_is_choice_upto(
                    self.sessions@,
                    above,
                    exclude,
                    i as int,
                    b as int,
                ),
            decreases self.sessions@.len() - i,
        {
            if eligible(&self.sessions[i], above, exclude) {
                let better: bool = match best {
                    Some(b) => prefers(&self.sessions[i], i, &self.sessions[b], b),
                    None => true,
                };
                if better {
                    proof {
                        assert forall|j: int|
                            0 <= j < i + 1 && spec_eligible(
                                #[trigger] self.sessions@[j],
                                above,
                                exclude,
                            ) implies spec_preferred(self.sessions@, i as int, j) by {
                            if j < i {
                                let b = best->Some_0 as int;
                                assert(spec_preferred(self.sessions@, b, j));
                            }
                        }
                    }
                    best = Some(i);
                }
            }
            i = i + 1;
        }
        proof {
            match best {
                Some(b) => {
                    assert(spec_eligible(self.sessions@[b as int], above, exclude));
                    assert(spec_is_choice(self.sessions@, above, exclude, b as int));
                    lemma_choice_exists(self.sessions@, above, exclude);
                    lemma_choice_unique(
                        self.sessions@,
                        above,
                        exclude,
                        b as int,
                        spec_choice(self.sessions@, above, exclude),
                    );
                },
                None => {},
            }
        }
        best
    }
}

} // verus!
