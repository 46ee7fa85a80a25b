//! Detection of a model that announces the same action plan over and over in
//! different messages of one session.

use std::collections::VecDeque;

use vstd::hash_map::StringHashMap;
use vstd::prelude::*;

use crate::fingerprint::texts;
use crate::similarity::{highly_similar, is_highly_similar, law_similar_reflexive};

verus! {

/// Whether a new store detects loops.
pub const CROSS_TURN_ENABLED: bool = true;

/// The number of messages that a session keeps.
pub const WINDOW_SIZE: usize = 20;

/// The number of different messages with a similar action plan at which a
/// loop is reported.
pub const REPEAT_MESSAGE_THRESHOLD: usize = 3;

/// The fingerprints of one message.
pub type Message = Seq<Seq<char>>;

/// A message holds a fingerprint that is highly similar to `fp`.
pub open spec fn holds_similar(message: Message, fp: Seq<char>) -> bool {
    exists|i: int| 0 <= i < message.len() && highly_similar(#[trigger] message[i], fp)
}

/// The messages that hold a fingerprint highly similar to `fp`.
pub open spec fn matching(messages: Seq<Message>, fp: Seq<char>) -> Seq<Message> {
    messages.filter(|m: Message| holds_similar(m, fp))
}

/// One of the fingerprints has a similar one in enough messages.
pub open spec fn is_loop(messages: Seq<Message>, fps: Message) -> bool {
    exists|i: int|
        0 <= i < fps.len() && matching(messages, #[trigger] fps[i]).len()
            >= REPEAT_MESSAGE_THRESHOLD
}

/// The messages with `fps` as the newest; the oldest goes where there are
/// more than the window holds. A message without fingerprints is not kept.
pub open spec fn with_message(messages: Seq<Message>, fps: Message) -> Seq<Message> {
    if fps.len() == 0 {
        messages
    } else {
        let all = messages.push(fps);
        if all.len() > WINDOW_SIZE {
            all.skip(all.len() - WINDOW_SIZE)
        } else {
            all
        }
    }
}

/// The state of one session: the fingerprints of its latest messages, the
/// oldest first.
pub struct SessionTurnState {
    pub messages: VecDeque<Vec<String>>,
}

impl View for SessionTurnState {
    type V = Seq<Message>;

    open spec fn view(&self) -> Seq<Message> {
        Seq::new(self.messages@.len(), |i: int| texts(self.messages@[i]@))
    }
}

impl Default for SessionTurnState {
    fn default() -> (r: Self)
        ensures
            r@ == Seq::<Message>::empty(),
    {
        SessionTurnState { messages: VecDeque::new() }
    }
}

/// Tells whether a message holds a fingerprint highly similar to `fp`.
fn message_holds_similar(message: &Vec<String>, fp: &str) -> (r: bool)
    ensures
        r == holds_similar(texts(message@), fp@),
{
    for i in 0..message.len()
        invariant
            forall|j: int| 0 <= j < i ==> !highly_similar(#[trigger] texts(message@)[j], fp@),
    {
        if is_highly_similar(message[i].as_str(), fp) {
            assert(highly_similar(texts(message@)[i as int], fp@));
            return true;
        }
    }
    false
}

impl SessionTurnState {
    /// Tells whether the fingerprints of a message make up a loop with the
    /// messages of the session.
    pub fn check(&self, fingerprints: &[String]) -> (r: bool)
        ensures
            r == is_loop(self@, texts(fingerprints@)),
    {
        let ghost fps = texts(fingerprints@);
        for i in 0..fingerprints.len()
            invariant
                fps == texts(fingerprints@),
                forall|j: int|
                    0 <= j < i ==> matching(self@, #[trigger] fps[j]).len()
                        < REPEAT_MESSAGE_THRESHOLD,
        {
            if self.has_enough_matching(fingerprints[i].as_str()) {
                assert(matching(self@, fps[i as int]).len() >= REPEAT_MESSAGE_THRESHOLD);
                return true;
            }
        }
        false
    }

    /// Tells whether enough messages hold a fingerprint highly similar to
    /// `fp`.
    fn has_enough_matching(&self, fp: &str) -> (r: bool)
        ensures
            r == (matching(self@, fp@).len() >= REPEAT_MESSAGE_THRESHOLD),
    {
        let mut hit_count: usize = 0;
        proof {
            reveal(Seq::filter);
        }
        for i in 0..self.messages.len()
            invariant
                hit_count < REPEAT_MESSAGE_THRESHOLD,
                hit_count == matching(self@.take(i as int), fp@).len(),
        {
            proof {
                reveal(Seq::filter);
                assert(self@.take(i + 1).drop_last() =~= self@.take(i as int));
            }
            if message_holds_similar(&self.messages[i], fp) {
                hit_count = hit_count + 1;
                if hit_count >= REPEAT_MESSAGE_THRESHOLD {
                    proof {
                        lemma_matching_take(self@, fp@, i + 1);
                    }
                    return true;
                }
            }
        }
        assert(self@.take(self@.len() as int) =~= self@);
        false
    }

    /// Records the fingerprints of a message as the newest, and drops the
    /// oldest where there are more than the window holds.
    pub fn push(&mut self, fingerprints: Vec<String>)
        ensures
            final(self)@ == with_message(old(self)@, texts(fingerprints@)),
    {
        if fingerprints.is_empty() {
            return;
        }
        let ghost all = old(self)@.push(texts(fingerprints@));
        self.messages.push_back(fingerprints);
        assert(self@ =~= all);
        assert(all.skip(0) =~= all);
        while self.messages.len() > WINDOW_SIZE
            invariant
                self@.len() <= all.len(),
                self@ == all.skip(all.len() - self@.len()),
                all.len() > WINDOW_SIZE ==> self@.len() >= WINDOW_SIZE,
                all.len() <= WINDOW_SIZE ==> self@.len() == all.len(),
            decreases self.messages.len(),
        {
            let ghost before = self@;
            self.messages.pop_front();
            assert(self@ =~= before.skip(1));
            assert(self@ =~= all.skip(all.len() - self@.len()));
        }
    }
}

proof fn lemma_matching_take(messages: Seq<Message>, fp: Seq<char>, n: int)
    requires
        0 <= n <= messages.len(),
    ensures
        matching(messages.take(n), fp).len() <= matching(messages, fp).len(),
{
    let pred = |m: Message| holds_similar(m, fp);
    assert(messages =~= messages.take(n) + messages.skip(n));
    Seq::filter_distributes_over_add(messages.take(n), messages.skip(n), pred);
}

/// What a store holds: the messages of each session, and whether it is on.
#[verifier::ext_equal]
pub struct Record {
    pub sessions: Map<Seq<char>, Seq<Message>>,
    pub enabled: bool,
}

/// The messages of a session; none where the session is unknown.
pub open spec fn history(record: Record, session: Seq<char>) -> Seq<Message> {
    if record.sessions.contains_key(session) {
        record.sessions[session]
    } else {
        Seq::empty()
    }
}

/// What becomes of a record when a message of a session arrives, and whether
/// it makes up a loop. The message counts itself; it is kept unless it makes
/// up a loop. While the store is off, and for a message without fingerprints,
/// nothing happens.
pub open spec fn recorded(record: Record, session: Seq<char>, fps: Message) -> (Record, bool) {
    if !record.enabled || fps.len() == 0 {
        (record, false)
    } else {
        let messages = with_message(history(record, session), fps);
        let hit = is_loop(messages, fps);
        let kept = if hit {
            messages.drop_last()
        } else {
            messages
        };
        (Record { sessions: record.sessions.insert(session, kept), ..record }, hit)
    }
}

/// Copies a slice of strings.
fn copy_texts(v: &[String]) -> (r: Vec<String>)
    ensures
        r@ == v@,
{
    let mut r: Vec<String> = Vec::new();
    for i in 0..v.len()
        invariant
            r@ == v@.take(i as int),
    {
        r.push(v[i].clone());
    }
    r
}

/// The states of all sessions, kept from request to request.
pub struct CrossTurnStore {
    slots: StringHashMap<usize>,
    states: Vec<SessionTurnState>,
    enabled: bool,
}

/// Every session has a slot of its own, and no state exceeds the window.
spec fn slots_fit(slots: Map<Seq<char>, usize>, states: Seq<SessionTurnState>) -> bool {
    &&& forall|k: Seq<char>| #[trigger]
        slots.contains_key(k) ==> slots[k] < states.len()
    &&& forall|k: Seq<char>, l: Seq<char>| #[trigger]
        slots.contains_key(k) && #[trigger] slots.contains_key(l) && slots[k] == slots[l] ==> k == l
    &&& forall|i: int| 0 <= i < states.len() ==> (#[trigger] states[i])@.len() <= WINDOW_SIZE
}

/// The messages of each session that has a slot.
spec fn session_map(slots: Map<Seq<char>, usize>, states: Seq<SessionTurnState>) -> Map<
    Seq<char>,
    Seq<Message>,
> {
    Map::new(|k: Seq<char>| slots.contains_key(k), |k: Seq<char>| states[slots[k] as int]@)
}

impl View for CrossTurnStore {
    type V = Record;

    closed spec fn view(&self) -> Record {
        Record { sessions: session_map(self.slots@, self.states@), enabled: self.enabled }
    }
}

impl Default for CrossTurnStore {
    /// An empty store that is off.
    fn default() -> (r: Self)
        ensures
            r@ == (Record { sessions: Map::empty(), enabled: false }),
    {
        let r = CrossTurnStore { slots: StringHashMap::new(), states: Vec::new(), enabled: false };
        assert(r@.sessions =~= Map::empty());
        r
    }
}

impl CrossTurnStore {
    #[verifier::type_invariant]
    spec fn type_inv(&self) -> bool {
        slots_fit(self.slots@, self.states@)
    }

    /// An empty store.
    pub fn new() -> (r: Self)
        ensures
            r@ == (Record { sessions: Map::empty(), enabled: CROSS_TURN_ENABLED }),
    {
        let r = CrossTurnStore {
            slots: StringHashMap::new(),
            states: Vec::new(),
            enabled: CROSS_TURN_ENABLED,
        };
        assert(r@.sessions =~= Map::empty());
        r
    }

    /// Switches detection on or off.
    pub fn set_enabled(&mut self, enabled: bool)
        ensures
            final(self)@ == (Record { enabled, ..old(self)@ }),
    {
        proof {
            use_type_invariant(&*self);
        }
        self.enabled = enabled;
    }

    /// Tells whether detection is on.
    pub fn enabled(&self) -> (r: bool)
        ensures
            r == self@.enabled,
    {
        self.enabled
    }

    /// Records the fingerprints of a message of a session, and tells whether
    /// they make up a loop across messages.
    pub fn check_and_record(&mut self, session: &str, fingerprints: &[String]) -> (r: bool)
        ensures
            (final(self)@, r) == recorded(old(self)@, session@, texts(fingerprints@)),
            forall|k: Seq<char>| #[trigger]
                final(self)@.sessions.contains_key(k) ==> final(self)@.sessions[k].len()
                    <= WINDOW_SIZE,
    {
        proof {
            use_type_invariant(&*self);
        }
        if !self.enabled() {
            return false;
        }
        if fingerprints.len() == 0 {
            return false;
        }
        let mut slots: StringHashMap<usize> = StringHashMap::new();
        let mut states: Vec<SessionTurnState> = Vec::new();
        std::mem::swap(&mut self.slots, &mut slots);
        std::mem::swap(&mut self.states, &mut states);
        let found: Option<usize> = match slots.get(session) {
            Some(slot) => Some(*slot),
            None => None,
        };
        let slot: usize = match found {
            Some(slot) => slot,
            None => {
                let slot: usize = states.len();
                states.push(SessionTurnState::default());
                slots.insert(session.to_owned(), slot);
                slot
            },
        };
        assert(slots_fit(slots@, states@));
        assert(slots@.contains_key(session@) && slots@[session@] == slot);
        let ghost before = states@;
        assert(before[slot as int]@ =~= history(old(self)@, session@));
        let state: &mut SessionTurnState = &mut states[slot];
        state.push(copy_texts(fingerprints));
        let hit: bool = state.check(fingerprints);
        if hit {
            state.messages.pop_back();
        }
        proof {
            let fps = texts(fingerprints@);
            let messages = with_message(history(old(self)@, session@), fps);
            let kept = if hit {
                messages.drop_last()
            } else {
                messages
            };
            assert(states@[slot as int]@ =~= kept);
            assert(session_map(slots@, states@) =~= old(self)@.sessions.insert(session@, kept));
        }
        self.states = states;
        self.slots = slots;
        hit
    }
}

/// `at` lists positions of different messages, in order, that all hold a
/// fingerprint highly similar to `fp`.
pub open spec fn hold_similar_at(messages: Seq<Message>, fp: Seq<char>, at: Seq<int>) -> bool {
    &&& forall|i: int|
        0 <= i < at.len() ==> 0 <= #[trigger] at[i] < messages.len() && holds_similar(
            messages[at[i]],
            fp,
        )
    &&& forall|i: int, j: int| 0 <= i < j < at.len() ==> #[trigger] at[i] < #[trigger] at[j]
}

proof fn lemma_matching_at(messages: Seq<Message>, fp: Seq<char>, n: nat) -> (at: Seq<int>)
    requires
        matching(messages, fp).len() >= n,
    ensures
        at.len() == n,
        hold_similar_at(messages, fp, at),
    decreases messages.len(),
{
    reveal(Seq::filter);
    if n == 0 {
        Seq::empty()
    } else {
        let init = messages.drop_last();
        if holds_similar(messages.last(), fp) {
            let fewer = lemma_matching_at(init, fp, (n - 1) as nat);
            fewer.push(messages.len() - 1)
        } else {
            lemma_matching_at(init, fp, n)
        }
    }
}

proof fn lemma_at_matching(messages: Seq<Message>, fp: Seq<char>, at: Seq<int>)
    requires
        hold_similar_at(messages, fp, at),
    ensures
        matching(messages, fp).len() >= at.len(),
    decreases messages.len(),
{
    reveal(Seq::filter);
    if at.len() > 0 {
        let last = at[at.len() - 1];
        let init = messages.drop_last();
        if last == messages.len() - 1 {
            let fewer = at.drop_last();
            assert(hold_similar_at(init, fp, fewer)) by {
                assert forall|i: int| 0 <= i < fewer.len() implies 0 <= #[trigger] fewer[i]
                    < init.len() && holds_similar(init[fewer[i]], fp) by {
                    assert(fewer[i] == at[i]);
                    assert(at[i] < at[at.len() - 1]);
                }
                assert forall|i: int, j: int| 0 <= i < j < fewer.len() implies #[trigger] fewer[i]
                    < #[trigger] fewer[j] by {
                    assert(at[i] < at[j]);
                }
            }
            lemma_at_matching(init, fp, fewer);
        } else {
            assert(hold_similar_at(init, fp, at)) by {
                assert forall|i: int| 0 <= i < at.len() implies 0 <= #[trigger] at[i] < init.len()
                    && holds_similar(init[at[i]], fp) by {
                    if i < at.len() - 1 {
                        assert(at[i] < at[at.len() - 1]);
                    }
                    assert(init[at[i]] == messages[at[i]]);
                }
            }
            lemma_at_matching(init, fp, at);
        }
    }
}

/// A loop is there exactly where a highly similar fingerprint stands in
/// `REPEAT_MESSAGE_THRESHOLD` different messages.
pub proof fn law_loop_is_repetition_across_messages(messages: Seq<Message>, fps: Message)
    ensures
        is_loop(messages, fps) <==> exists|i: int, at: Seq<int>|
            0 <= i < fps.len() && at.len() == REPEAT_MESSAGE_THRESHOLD && #[trigger]
                hold_similar_at(messages, fps[i], at),
{
    if is_loop(messages, fps) {
        let i = choose|i: int|
            0 <= i < fps.len() && matching(messages, #[trigger] fps[i]).len()
                >= REPEAT_MESSAGE_THRESHOLD;
        let at = lemma_matching_at(messages, fps[i], REPEAT_MESSAGE_THRESHOLD as nat);
        assert(hold_similar_at(messages, fps[i], at));
    }
    if exists|i: int, at: Seq<int>|
        0 <= i < fps.len() && at.len() == REPEAT_MESSAGE_THRESHOLD && #[trigger] hold_similar_at(
            messages,
            fps[i],
            at,
        ) {
        let (i, at) = choose|i: int, at: Seq<int>|
            0 <= i < fps.len() && at.len() == REPEAT_MESSAGE_THRESHOLD
                && #[trigger] hold_similar_at(messages, fps[i], at);
        lemma_at_matching(messages, fps[i], at);
        assert(matching(messages, fps[i]).len() >= REPEAT_MESSAGE_THRESHOLD);
    }
}

/// While the store is off, and for a message without fingerprints, nothing is
/// reported and nothing changes.
pub proof fn law_nothing_to_do(record: Record, session: Seq<char>, fps: Message)
    requires
        !record.enabled || fps.len() == 0,
    ensures
        recorded(record, session, fps) == (record, false),
{
}

/// A message changes nothing for other sessions.
pub proof fn law_other_sessions_are_left_alone(
    record: Record,
    session: Seq<char>,
    fps: Message,
    k: Seq<char>,
)
    requires
        k != session,
    ensures
        ({
            let after = recorded(record, session, fps).0;
            &&& after.sessions.contains_key(k) == record.sessions.contains_key(k)
            &&& history(after, k) == history(record, k)
        }),
{
}

/// What is reported of a message, and what its session keeps, depends on the
/// messages of that session alone.
pub proof fn law_sessions_are_independent(
    record: Record,
    other: Record,
    session: Seq<char>,
    fps: Message,
)
    requires
        record.enabled == other.enabled,
        history(record, session) == history(other, session),
    ensures
        recorded(record, session, fps).1 == recorded(other, session, fps).1,
        history(recorded(record, session, fps).0, session) == history(
            recorded(other, session, fps).0,
            session,
        ),
{
}

/// A session never keeps more messages than the window holds.
pub proof fn law_window_is_kept(record: Record, session: Seq<char>, fps: Message, k: Seq<char>)
    requires
        history(record, k).len() <= WINDOW_SIZE,
    ensures
        history(recorded(record, session, fps).0, k).len() <= WINDOW_SIZE,
{
}

/// A message that is not reported is kept as the newest of its session.
pub proof fn law_unreported_message_is_kept(record: Record, session: Seq<char>, fps: Message)
    requires
        record.enabled,
        fps.len() > 0,
        !recorded(record, session, fps).1,
    ensures
        history(recorded(record, session, fps).0, session).len() > 0,
        history(recorded(record, session, fps).0, session).last() == fps,
{
}

/// A message that is reported is taken back: as long as the window was not
/// full, the record is as it was before.
pub proof fn law_reported_message_is_taken_back(record: Record, session: Seq<char>, fps: Message)
    requires
        recorded(record, session, fps).1,
        history(record, session).len() < WINDOW_SIZE,
    ensures
        recorded(record, session, fps).0 == record,
{
    let before = history(record, session);
    let messages = with_message(before, fps);
    assert(messages == before.push(fps));
    assert(messages.drop_last() =~= before);
    if before.len() == 0 {
        lemma_short_history(messages, fps);
    }
    assert(record.sessions.insert(session, before) =~= record.sessions);
}

/// Where the window was full, the oldest message has gone as well.
pub proof fn law_reported_message_at_full_window(record: Record, session: Seq<char>, fps: Message)
    requires
        recorded(record, session, fps).1,
        history(record, session).len() == WINDOW_SIZE,
    ensures
        recorded(record, session, fps).0 == (Record {
            sessions: record.sessions.insert(session, history(record, session).drop_first()),
            ..record
        }),
{
    let before = history(record, session);
    let messages = with_message(before, fps);
    assert(messages.drop_last() =~= before.drop_first());
}

proof fn lemma_matching_bound(messages: Seq<Message>, fp: Seq<char>)
    ensures
        matching(messages, fp).len() <= messages.len(),
    decreases messages.len(),
{
    reveal(Seq::filter);
    if messages.len() > 0 {
        lemma_matching_bound(messages.drop_last(), fp);
    }
}

proof fn lemma_short_history(messages: Seq<Message>, fps: Message)
    requires
        messages.len() < REPEAT_MESSAGE_THRESHOLD,
    ensures
        !is_loop(messages, fps),
{
    assert forall|i: int| 0 <= i < fps.len() implies matching(messages, #[trigger] fps[i]).len()
        < REPEAT_MESSAGE_THRESHOLD by {
        lemma_matching_bound(messages, fps[i]);
    }
}

/// The messages of a session before the one that reaches
/// `REPEAT_MESSAGE_THRESHOLD` are never reported.
pub proof fn law_first_messages_pass(record: Record, session: Seq<char>, fps: Message)
    requires
        history(record, session).len() + 1 < REPEAT_MESSAGE_THRESHOLD,
    ensures
        !recorded(record, session, fps).1,
{
    lemma_short_history(with_message(history(record, session), fps), fps);
}

/// Of three messages in a row with the same fingerprints, at most two pass:
/// where neither the first nor the second is reported, the third is.
pub proof fn law_third_repetition_is_reported(record: Record, session: Seq<char>, fps: Message)
    requires
        record.enabled,
        fps.len() > 0,
        !recorded(record, session, fps).1,
        !recorded(recorded(record, session, fps).0, session, fps).1,
    ensures
        recorded(recorded(recorded(record, session, fps).0, session, fps).0, session, fps).1,
{
    let once = recorded(record, session, fps).0;
    let twice = recorded(once, session, fps).0;
    let before = history(twice, session);
    let messages = with_message(before, fps);
    let n = messages.len() as int;
    law_similar_reflexive(fps[0]);
    assert(holds_similar(fps, fps[0]));
    assert(before.last() == fps && before[before.len() - 2] == fps);
    let at = seq![n - 3, n - 2, n - 1];
    assert(hold_similar_at(messages, fps[0], at));
    law_loop_is_repetition_across_messages(messages, fps);
}


/// The view of a session shows every message and every fingerprint in it,
/// whole and in order.
pub proof fn law_session_view(state: SessionTurnState)
    ensures
        state@.len() == state.messages@.len(),
        forall|i: int|
            0 <= i < state@.len() ==> (#[trigger] state@[i]).len() == state.messages@[i]@.len(),
        forall|i: int, j: int|
            0 <= i < state@.len() && 0 <= j < state@[i].len() ==> #[trigger] state@[i][j]
                == state.messages@[i]@[j]@,
{
}

/// A message without fingerprints holds nothing similar; one fingerprint more
/// holds what was held before and what it is similar to itself.
pub proof fn law_one_more_fingerprint(message: Message, f: Seq<char>, fp: Seq<char>)
    ensures
        !holds_similar(Seq::empty(), fp),
        holds_similar(message.push(f), fp) <==> holds_similar(message, fp) || highly_similar(f, fp),
{
    let more = message.push(f);
    assert(more[message.len() as int] == f);
    if holds_similar(message, fp) {
        let i = choose|i: int| 0 <= i < message.len() && highly_similar(#[trigger] message[i], fp);
        assert(highly_similar(more[i], fp));
    }
    if holds_similar(more, fp) {
        let i = choose|i: int| 0 <= i < more.len() && highly_similar(#[trigger] more[i], fp);
        if i < message.len() {
            assert(highly_similar(message[i], fp));
        }
    }
}

/// Three messages, one behind the other, hold a fingerprint highly similar to
/// `fp`.
pub open spec fn similar_in_three(
    messages: Seq<Message>,
    fp: Seq<char>,
    a: int,
    b: int,
    c: int,
) -> bool {
    &&& 0 <= a < b < c < messages.len()
    &&& exists|k: int| 0 <= k < messages[a].len() && highly_similar(#[trigger] messages[a][k], fp)
    &&& exists|k: int| 0 <= k < messages[b].len() && highly_similar(#[trigger] messages[b][k], fp)
    &&& exists|k: int| 0 <= k < messages[c].len() && highly_similar(#[trigger] messages[c][k], fp)
}

/// A loop is there exactly where three different messages hold a fingerprint
/// highly similar to one and the same of those checked, wherever they stand
/// and however many fingerprints there are.
pub proof fn law_loop_needs_three_messages(messages: Seq<Message>, fps: Message)
    ensures
        is_loop(messages, fps) <==> exists|i: int, a: int, b: int, c: int|
            0 <= i < fps.len() && #[trigger] similar_in_three(messages, fps[i], a, b, c),
{
    law_loop_is_repetition_across_messages(messages, fps);
    if is_loop(messages, fps) {
        let (i, at) = choose|i: int, at: Seq<int>|
            0 <= i < fps.len() && at.len() == REPEAT_MESSAGE_THRESHOLD
                && #[trigger] hold_similar_at(messages, fps[i], at);
        assert(at[0] < at[1] && at[1] < at[2]);
        assert(holds_similar(messages[at[0]], fps[i]));
        assert(holds_similar(messages[at[1]], fps[i]));
        assert(holds_similar(messages[at[2]], fps[i]));
        assert(similar_in_three(messages, fps[i], at[0], at[1], at[2]));
    }
    if exists|i: int, a: int, b: int, c: int|
        0 <= i < fps.len() && #[trigger] similar_in_three(messages, fps[i], a, b, c) {
        let (i, a, b, c) = choose|i: int, a: int, b: int, c: int|
            0 <= i < fps.len() && #[trigger] similar_in_three(messages, fps[i], a, b, c);
        let at = seq![a, b, c];
        assert(hold_similar_at(messages, fps[i], at)) by {
            assert(holds_similar(messages[a], fps[i]));
            assert(holds_similar(messages[b], fps[i]));
            assert(holds_similar(messages[c], fps[i]));
        }
    }
}

/// A message with fingerprints is added behind those that are there, and of
/// all of them the latest 20 are kept, as they were; one without fingerprints
/// changes nothing.
pub proof fn law_latest_twenty_are_kept(messages: Seq<Message>, fps: Message)
    ensures
        fps.len() == 0 ==> with_message(messages, fps) == messages,
        fps.len() > 0 ==> {
            let kept = with_message(messages, fps);
            let dropped = messages.len() + 1 - kept.len();
            &&& kept.len() == if messages.len() < 20 {
                messages.len() + 1
            } else {
                20
            }
            &&& kept[kept.len() - 1] == fps
            &&& forall|i: int|
                0 <= i < kept.len() - 1 ==> #[trigger] kept[i] == messages[i + dropped]
        },
{
}

/// What a message does to its session, and when it is reported. The messages
/// that were there and the new one, of which the latest 20 count, are a loop
/// exactly where three of them hold a fingerprint highly similar to one of the
/// new message. If so, it is reported and all of these but itself are kept; if
/// not, all of them are kept, each as it was. The other sessions and the
/// switch are left alone.
pub proof fn law_message_is_added_and_the_rest_stays(
    record: Record,
    session: Seq<char>,
    fps: Message,
    before: Seq<Message>,
    latest: Seq<Message>,
)
    requires
        record.enabled,
        fps.len() > 0,
        record.sessions.contains_key(session) ==> before == record.sessions[session],
        !record.sessions.contains_key(session) ==> before.len() == 0,
        before.len() < 20 ==> latest == before.push(fps),
        before.len() >= 20 ==> latest == before.push(fps).skip(before.len() - 19),
    ensures
        recorded(record, session, fps).1 <==> exists|i: int, a: int, b: int, c: int|
            0 <= i < fps.len() && #[trigger] similar_in_three(latest, fps[i], a, b, c),
        recorded(record, session, fps).0.sessions.contains_key(session),
        !recorded(record, session, fps).1 ==> recorded(record, session, fps).0.sessions[session]
            == latest,
        recorded(record, session, fps).1 ==> recorded(record, session, fps).0.sessions[session]
            == latest.drop_last(),
        forall|k: Seq<char>|
            k != session ==> (#[trigger] recorded(record, session, fps).0.sessions.contains_key(k)
                <==> record.sessions.contains_key(k)),
        forall|k: Seq<char>|
            k != session && #[trigger] record.sessions.contains_key(k) ==> recorded(
                record,
                session,
                fps,
            ).0.sessions[k] == record.sessions[k],
        recorded(record, session, fps).0.enabled,
{
    assert(before =~= history(record, session));
    assert(latest =~= with_message(before, fps));
    law_loop_needs_three_messages(latest, fps);
}

/// While the store is off every message is passed over, and so is one without
/// fingerprints while it is on: no session changes, nothing is reported.
pub proof fn law_passed_over_messages_leave_no_trace(
    record: Record,
    session: Seq<char>,
    fps: Message,
    k: Seq<char>,
)
    requires
        !record.enabled || fps.len() == 0,
    ensures
        !recorded(record, session, fps).1,
        recorded(record, session, fps).0.enabled == record.enabled,
        recorded(record, session, fps).0.sessions == record.sessions,
        history(record, k) == if record.sessions.contains_key(k) {
            record.sessions[k]
        } else {
            Seq::empty()
        },
{
}

} // verus!
