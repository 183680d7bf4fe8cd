//! Delivery tracking: the state of every fragment of every session that
//! this node has sent, as the acknowledgements report it.

use vstd::prelude::*;
use crate::packet::NackType;

verus! {

/// Where a sent fragment stands.
#[derive(Clone, Copy, Debug, PartialEq, Eq, Structural)]
pub enum FragmentState {
    /// Handed to the transport; nothing heard since.
    Sent,
    /// Delivered. Nothing changes this any more.
    Acked,
    /// Lost on the way; the caller may send it again.
    NackedRetryable,
    /// Refused for a route that is wrong in structure. Nothing changes this
    /// any more; a new attempt needs a new discovery or route.
    NackedTerminal,
}

/// The state is one that no acknowledgement changes.
pub open spec fn is_terminal(state: FragmentState) -> bool {
    state == FragmentState::Acked || state == FragmentState::NackedTerminal
}

/// The failure is one of loss on the way, not of a wrong route.
pub open spec fn is_retryable(kind: NackType) -> bool {
    kind is Dropped || kind is ErrorInRouting
}

/// The state of a fragment after an ack for it.
pub open spec fn after_ack(state: FragmentState) -> FragmentState {
    if is_terminal(state) {
        state
    } else {
        FragmentState::Acked
    }
}

/// The state of a fragment after a nack of the given kind for it.
pub open spec fn after_nack(state: FragmentState, kind: NackType) -> FragmentState {
    if is_terminal(state) {
        state
    } else if is_retryable(kind) {
        FragmentState::NackedRetryable
    } else {
        FragmentState::NackedTerminal
    }
}

/// Moves a state on an ack.
pub fn apply_ack(state: FragmentState) -> (next: FragmentState)
    ensures
        next == after_ack(state),
{
    match state {
        FragmentState::Acked => FragmentState::Acked,
        FragmentState::NackedTerminal => FragmentState::NackedTerminal,
        FragmentState::Sent => FragmentState::Acked,
        FragmentState::NackedRetryable => FragmentState::Acked,
    }
}

/// Moves a state on a nack.
pub fn apply_nack(state: FragmentState, kind: NackType) -> (next: FragmentState)
    ensures
        next == after_nack(state, kind),
{
    match state {
        FragmentState::Acked => FragmentState::Acked,
        FragmentState::NackedTerminal => FragmentState::NackedTerminal,
        _ => match kind {
            NackType::Dropped => FragmentState::NackedRetryable,
            NackType::ErrorInRouting(_) => FragmentState::NackedRetryable,
            NackType::DestinationIsDrone => FragmentState::NackedTerminal,
            NackType::UnexpectedRecipient(_) => FragmentState::NackedTerminal,
        },
    }
}

/// Mathematical model of the tracker: for every session, in the order in
/// which the sessions were opened, the states of its fragments by index. A
/// session's identifier is its position.
pub type DeliveryView = Seq<Seq<FragmentState>>;

/// The tracker has sent the fragment.
pub open spec fn is_tracked(sessions: DeliveryView, session_id: u64, fragment_index: u64) -> bool {
    session_id < sessions.len() && fragment_index < sessions[session_id as int].len()
}

/// The tracker with one fragment set to a state.
pub open spec fn with_state(
    sessions: DeliveryView,
    session_id: u64,
    fragment_index: u64,
    state: FragmentState,
) -> DeliveryView {
    sessions.update(
        session_id as int,
        sessions[session_id as int].update(fragment_index as int, state),
    )
}

/// The tracker after an ack: the fragment moves as `after_ack` says, the
/// others stay; an ack for a fragment never sent changes nothing.
pub open spec fn acked(
    sessions: DeliveryView,
    session_id: u64,
    fragment_index: u64,
) -> DeliveryView {
    if is_tracked(sessions, session_id, fragment_index) {
        with_state(
            sessions,
            session_id,
            fragment_index,
            after_ack(sessions[session_id as int][fragment_index as int]),
        )
    } else {
        sessions
    }
}

/// The tracker after a nack: the fragment moves as `after_nack` says, the
/// others stay; a nack for a fragment never sent changes nothing.
pub open spec fn nacked(
    sessions: DeliveryView,
    session_id: u64,
    fragment_index: u64,
    kind: NackType,
) -> DeliveryView {
    if is_tracked(sessions, session_id, fragment_index) {
        with_state(
            sessions,
            session_id,
            fragment_index,
            after_nack(sessions[session_id as int][fragment_index as int], kind),
        )
    } else {
        sessions
    }
}

/// The state of a fragment, if the tracker has sent it.
pub open spec fn state_of(sessions: DeliveryView, session_id: u64, fragment_index: u64) -> Option<
    FragmentState,
> {
    if is_tracked(sessions, session_id, fragment_index) {
        Some(sessions[session_id as int][fragment_index as int])
    } else {
        None
    }
}

/// The session exists and every fragment of it is acknowledged.
pub open spec fn is_complete(sessions: DeliveryView, session_id: u64) -> bool {
    &&& session_id < sessions.len()
    &&& forall|i: int|
        0 <= i < sessions[session_id as int].len() ==> #[trigger] sessions[session_id as int][i]
            == FragmentState::Acked
}

/// A session of `count` fragments, all just sent.
pub open spec fn fresh_session(count: nat) -> Seq<FragmentState> {
    Seq::new(count, |i: int| FragmentState::Sent)
}

/// The delivery state of all sessions of one node.
pub struct DeliveryTracker {
    sessions: Vec<Vec<FragmentState>>,
}

impl View for DeliveryTracker {
    type V = DeliveryView;

    closed spec fn view(&self) -> DeliveryView {
        Seq::new(self.sessions@.len(), |s: int| self.sessions@[s]@)
    }
}

impl DeliveryTracker {
    /// A tracker without sessions.
    pub fn new() -> (tracker: DeliveryTracker)
        ensures
            tracker@ == Seq::<Seq<FragmentState>>::empty(),
    {
        let tracker = DeliveryTracker { sessions: Vec::new() };
        assert(tracker@ =~= Seq::<Seq<FragmentState>>::empty());
        tracker
    }

    /// Number of sessions opened so far, which is the identifier that the
    /// next session gets.
    pub fn session_count(&self) -> (count: u64)
        ensures
            count == self@.len(),
    {
        self.sessions.len() as u64
    }

    /// Opens a session of `fragment_count` fragments and registers each of
    /// them as sent. Returns the identifier of the session.
    pub fn register(&mut self, fragment_count: usize) -> (session_id: u64)
        ensures
            session_id == old(self)@.len(),
            final(self)@ == old(self)@.push(fresh_session(fragment_count as nat)),
    {
        let session_id: u64 = self.sessions.len() as u64;
        let mut states: Vec<FragmentState> = Vec::new();
        let mut i: usize = 0;
        while i < fragment_count
            invariant
                i <= fragment_count,
                states@.len() == i,
                forall|j: int| 0 <= j < i ==> states@[j] == FragmentState::Sent,
            decreases fragment_count - i,
        {
            states.push(FragmentState::Sent);
            i = i + 1;
        }
        assert(states@ =~= fresh_session(fragment_count as nat));
        self.sessions.push(states);
        assert(self@ =~= old(self)@.push(fresh_session(fragment_count as nat)));
        session_id
    }

    /// Where the tracker holds a fragment, if it has sent it.
    fn locate(&self, session_id: u64, fragment_index: u64) -> (place: Option<(usize, usize)>)
        ensures
            place is Some <==> is_tracked(self@, session_id, fragment_index),
            place matches Some((s, i)) ==> s == session_id && i == fragment_index && s
                < self.sessions@.len() && i < self.sessions@[s as int]@.len(),
    {
        if session_id >= self.sessions.len() as u64 {
            return None;
        }
        let s: usize = session_id as usize;
        assert(self@[s as int] == self.sessions@[s as int]@);
        if fragment_index >= self.sessions[s].len() as u64 {
            return None;
        }
        Some((s, fragment_index as usize))
    }

    /// The state of a fragment, if the tracker has sent it.
    pub fn fragment_state(&self, session_id: u64, fragment_index: u64) -> (state: Option<
        FragmentState,
    >)
        ensures
            state == state_of(self@, session_id, fragment_index),
    {
        match self.locate(session_id, fragment_index) {
            None => None,
            Some((s, i)) => {
                assert(self@[s as int] == self.sessions@[s as int]@);
                Some(self.sessions[s][i])
            },
        }
    }

    /// Number of fragments of a session, if the session exists.
    pub fn fragment_count(&self, session_id: u64) -> (count: Option<usize>)
        ensures
            session_id < self@.len() ==> count == Some(self@[session_id as int].len() as usize),
            session_id >= self@.len() ==> count is None,
    {
        if session_id >= self.sessions.len() as u64 {
            return None;
        }
        Some(self.sessions[session_id as usize].len())
    }

    /// Sets the state of a fragment that the tracker holds.
    fn set_state(&mut self, s: usize, i: usize, state: FragmentState)
        requires
            s < old(self).sessions@.len(),
            i < old(self).sessions@[s as int]@.len(),
        ensures
            final(self)@ == with_state(old(self)@, s as u64, i as u64, state),
    {
        assert(self@[s as int] == self.sessions@[s as int]@);
        self.sessions[s][i] = state;
        assert(self@ =~= with_state(old(self)@, s as u64, i as u64, state));
    }

    /// Takes in an ack for a fragment. Returns the state that the fragment
    /// is in afterwards, or nothing for a fragment that was never sent.
    pub fn on_ack(&mut self, session_id: u64, fragment_index: u64) -> (state: Option<FragmentState>)
        ensures
            final(self)@ == acked(old(self)@, session_id, fragment_index),
            state == state_of(final(self)@, session_id, fragment_index),
    {
        match self.locate(session_id, fragment_index) {
            None => None,
            Some((s, i)) => {
                assert(self@[s as int] == self.sessions@[s as int]@);
                let next = apply_ack(self.sessions[s][i]);
                self.set_state(s, i, next);
                Some(next)
            },
        }
    }

    /// Takes in a nack for a fragment. Returns the state that the fragment
    /// is in afterwards, or nothing for a fragment that was never sent.
    pub fn on_nack(&mut self, session_id: u64, fragment_index: u64, kind: NackType) -> (state:
        Option<FragmentState>)
        ensures
            final(self)@ == nacked(old(self)@, session_id, fragment_index, kind),
            state == state_of(final(self)@, session_id, fragment_index),
    {
        match self.locate(session_id, fragment_index) {
            None => None,
            Some((s, i)) => {
                assert(self@[s as int] == self.sessions@[s as int]@);
                let next = apply_nack(self.sessions[s][i], kind);
                self.set_state(s, i, next);
                Some(next)
            },
        }
    }

    /// Whether the session exists and every fragment of it is acknowledged.
    pub fn is_session_complete(&self, session_id: u64) -> (complete: bool)
        ensures
            complete == is_complete(self@, session_id),
    {
        if session_id >= self.sessions.len() as u64 {
            return false;
        }
        let states = &self.sessions[session_id as usize];
        let mut i: usize = 0;
        while i < states.len()
            invariant
                i <= states@.len(),
                session_id < self@.len(),
                states@ == self@[session_id as int],
                forall|j: int| 0 <= j < i ==> states@[j] == FragmentState::Acked,
            decreases states@.len() - i,
        {
            match states[i] {
                FragmentState::Acked => {},
                _ => {
                    return false;
                },
            }
            i = i + 1;
        }
        true
    }
}

/// The terminal states are final: no ack and no nack moves a fragment out
/// of them.
pub proof fn lemma_terminal_is_final(state: FragmentState, kind: NackType)
    requires
        is_terminal(state),
    ensures
        after_ack(state) == state,
        after_nack(state, kind) == state,
{
}

/// A fragment that is not in a terminal state is acknowledged by an ack,
/// retryable after a loss, and terminal after a refusal.
pub proof fn lemma_open_state_moves(state: FragmentState, kind: NackType)
    requires
        !is_terminal(state),
    ensures
        after_ack(state) == FragmentState::Acked,
        is_retryable(kind) ==> after_nack(state, kind) == FragmentState::NackedRetryable,
        !is_retryable(kind) ==> after_nack(state, kind) == FragmentState::NackedTerminal,
{
}

/// Fragments are tracked one by one: an ack or nack for one fragment leaves
/// the state of every other fragment, and the set of tracked fragments, as
/// they were.
pub proof fn lemma_fragments_independent(
    sessions: DeliveryView,
    session_id: u64,
    fragment_index: u64,
    kind: NackType,
    other_session: u64,
    other_index: u64,
)
    requires
        other_session != session_id || other_index != fragment_index,
    ensures
        state_of(acked(sessions, session_id, fragment_index), other_session, other_index)
            == state_of(sessions, other_session, other_index),
        state_of(nacked(sessions, session_id, fragment_index, kind), other_session, other_index)
            == state_of(sessions, other_session, other_index),
{
}

/// The tracker after acks for the fragments of one session with an index
/// below `upto`, by ascending index.
pub open spec fn acked_below(sessions: DeliveryView, session_id: u64, upto: nat) -> DeliveryView
    decreases upto,
{
    if upto == 0 {
        sessions
    } else {
        acked(acked_below(sessions, session_id, (upto - 1) as nat), session_id, (upto - 1) as u64)
    }
}

/// Acks for every fragment of a session that was just sent complete the
/// session, and leave every other session as it was. Before the last ack the
/// session is not complete.
pub proof fn lemma_acks_complete_session(sessions: DeliveryView, session_id: u64, upto: nat)
    requires
        session_id < sessions.len(),
        sessions[session_id as int] == fresh_session(sessions[session_id as int].len()),
        upto <= sessions[session_id as int].len() <= u64::MAX,
    ensures
        acked_below(sessions, session_id, upto).len() == sessions.len(),
        forall|other: int|
            0 <= other < sessions.len() && other != session_id ==> #[trigger] acked_below(
                sessions,
                session_id,
                upto,
            )[other] == sessions[other],
        acked_below(sessions, session_id, upto)[session_id as int].len()
            == sessions[session_id as int].len(),
        forall|i: int|
            0 <= i < upto ==> #[trigger] acked_below(
                sessions,
                session_id,
                upto,
            )[session_id as int][i] == FragmentState::Acked,
        forall|i: int|
            upto <= i < sessions[session_id as int].len() ==> #[trigger] acked_below(
                sessions,
                session_id,
                upto,
            )[session_id as int][i] == FragmentState::Sent,
        is_complete(acked_below(sessions, session_id, upto), session_id) <==> upto
            == sessions[session_id as int].len(),
    decreases upto,
{
    if upto > 0 {
        lemma_acks_complete_session(sessions, session_id, (upto - 1) as nat);
        let before = acked_below(sessions, session_id, (upto - 1) as nat);
        assert(is_tracked(before, session_id, (upto - 1) as u64));
        assert(before[session_id as int][upto - 1] == FragmentState::Sent);
    }
    let after = acked_below(sessions, session_id, upto);
    if upto < sessions[session_id as int].len() {
        assert(after[session_id as int][upto as int] == FragmentState::Sent);
    }
}

} // verus!
