//! Labelling a user's sent messages with the hidden states found for their
//! histograms, and reading off the timings of the simulation's distributions.
use vstd::prelude::*;

use crate::alias::field_i32;
use crate::sam::extract::{
    dates_ok, minute_index, whole_minutes, whole_minutes_of, Conversation, DataRun, Message, UserId, UserStats, DATE_LIMIT_NS,
    MINUTE_NS,
};
use crate::sam::extract::{run_convos, run_counters, run_firsts, run_lens, stats_text};
use crate::text::{
    ascii, decimals, join_commas, lemma_five_lines, line_end, lemma_parse_decimal, lemma_parse_signed_decimal, lemma_split_join,
    lines, lines_of, list_chars, parse_bounded, parse_i32, parse_u16, parse_usize, split, split_bytes, views,
};

verus! {

/// Whether the message before a sent message was sent or received by the user.
#[derive(Debug, Clone, Copy, PartialEq, Eq, Structural)]
pub enum Direction {
    Sent,
    Received,
}

/// The hidden state of a minute of a user's histogram.
#[derive(Debug, Clone, Copy, PartialEq, Eq, Structural)]
pub enum State {
    Idle,
    Active,
}

/// Whether some minute in `idx1..idx2` is idle.
pub open spec fn idle_between(states: Seq<State>, idx1: int, idx2: int) -> bool {
    exists|k: int| idx1 <= k < idx2 && #[trigger] states[k] == State::Idle
}

/// Whether the messages at minutes `idx1` and `idx2` are NOT part of the same
/// Active stretch: some minute from `idx1` up to `idx2` is idle.
pub fn different_run(states: &[State], idx1: usize, idx2: usize) -> (res: bool)
    requires
        idx1 <= idx2 <= states@.len(),
    ensures
        res == idle_between(states@, idx1 as int, idx2 as int),
{
    let mut k: usize = idx1;
    while k < idx2
        invariant
            idx1 <= k <= idx2 <= states@.len(),
            !idle_between(states@, idx1 as int, k as int),
        decreases idx2 - k,
    {
        if states[k] == State::Idle {
            return true;
        }
        k = k + 1;
    }
    false
}

/// Whether scanning back from minute `i - 1` meets a minute with messages
/// before an idle minute or the start.
pub open spec fn sent_before(counters: Seq<u16>, states: Seq<State>, i: int) -> bool
    decreases i,
{
    if i <= 0 {
        false
    } else if states[i - 1] == State::Idle {
        false
    } else if counters[i - 1] > 0 {
        true
    } else {
        sent_before(counters, states, i - 1)
    }
}

/// What scanning forward from minute `i` meets first: an idle minute (Idle),
/// a minute with messages (Active), or the end (Idle).
pub open spec fn state_after(counters: Seq<u16>, states: Seq<State>, i: int) -> State
    decreases states.len() - i,
{
    if i >= states.len() || i < 0 {
        State::Idle
    } else if states[i] == State::Idle {
        State::Idle
    } else if counters[i] > 0 {
        State::Active
    } else {
        state_after(counters, states, i + 1)
    }
}

/// The state of the message at minute `idx`: Idle if the minute is idle;
/// Active if the minute has more than one message, or if another minute with
/// messages is reached from it, scanning back or forward, before an idle
/// minute; Idle where the user's other messages are all cut off from it by
/// idle minutes.
pub open spec fn message_state(counters: Seq<u16>, states: Seq<State>, idx: int) -> State {
    if states[idx] == State::Idle {
        State::Idle
    } else if counters[idx] > 1 {
        State::Active
    } else if sent_before(counters, states, idx) {
        State::Active
    } else {
        state_after(counters, states, idx + 1)
    }
}

/// Scanning back from minute `i` meets a minute with messages before an idle
/// minute exactly when some earlier minute has messages and no minute from it
/// up to `i` is idle.
proof fn lemma_sent_before(counters: Seq<u16>, states: Seq<State>, i: int)
    requires
        0 <= i <= states.len() <= counters.len(),
    ensures
        sent_before(counters, states, i) <==> exists|j: int|
            0 <= j < i && counters[j] > 0 && forall|k: int|
                j <= k < i ==> #[trigger] states[k] == State::Active,
    decreases i,
{
    if i > 0 {
        lemma_sent_before(counters, states, i - 1);
        if states[i - 1] == State::Idle {
            assert forall|j: int| 0 <= j < i && counters[j] > 0 implies !(forall|k: int|
                j <= k < i ==> #[trigger] states[k] == State::Active) by {
                assert(states[i - 1] != State::Active);
            }
        } else if counters[i - 1] > 0 {
            assert(forall|k: int| i - 1 <= k < i ==> #[trigger] states[k] == State::Active);
        } else {
            if sent_before(counters, states, i) {
                let j = choose|j: int|
                    0 <= j < i - 1 && counters[j] > 0 && forall|k: int|
                        j <= k < i - 1 ==> #[trigger] states[k] == State::Active;
                assert(forall|k: int| j <= k < i ==> #[trigger] states[k] == State::Active);
            }
            if exists|j: int|
                0 <= j < i && counters[j] > 0 && forall|k: int|
                    j <= k < i ==> #[trigger] states[k] == State::Active {
                let j = choose|j: int|
                    0 <= j < i && counters[j] > 0 && forall|k: int|
                        j <= k < i ==> #[trigger] states[k] == State::Active;
                assert(j != i - 1);
                assert(forall|k: int| j <= k < i - 1 ==> #[trigger] states[k] == State::Active);
            }
        }
    }
}

/// Scanning forward from minute `i` meets a minute with messages before an
/// idle minute exactly when some minute from `i` on has messages and no
/// minute from `i` up to it is idle.
proof fn lemma_state_after(counters: Seq<u16>, states: Seq<State>, i: int)
    requires
        0 <= i <= states.len() <= counters.len(),
    ensures
        state_after(counters, states, i) == State::Active <==> exists|j: int|
            i <= j < states.len() && counters[j] > 0 && forall|k: int|
                i <= k <= j ==> #[trigger] states[k] == State::Active,
    decreases states.len() - i,
{
    if i < states.len() {
        lemma_state_after(counters, states, i + 1);
        if states[i] == State::Idle {
            assert forall|j: int| i <= j < states.len() && counters[j] > 0 implies !(forall|k: int|
                i <= k <= j ==> #[trigger] states[k] == State::Active) by {
                assert(states[i] != State::Active);
            }
        } else if counters[i] > 0 {
            assert(forall|k: int| i <= k <= i ==> #[trigger] states[k] == State::Active);
        } else {
            if state_after(counters, states, i) == State::Active {
                let j = choose|j: int|
                    i + 1 <= j < states.len() && counters[j] > 0 && forall|k: int|
                        i + 1 <= k <= j ==> #[trigger] states[k] == State::Active;
                assert(forall|k: int| i <= k <= j ==> #[trigger] states[k] == State::Active);
            }
            if exists|j: int|
                i <= j < states.len() && counters[j] > 0 && forall|k: int|
                    i <= k <= j ==> #[trigger] states[k] == State::Active {
                let j = choose|j: int|
                    i <= j < states.len() && counters[j] > 0 && forall|k: int|
                        i <= k <= j ==> #[trigger] states[k] == State::Active;
                assert(j != i);
                assert(forall|k: int| i + 1 <= k <= j ==> #[trigger] states[k] == State::Active);
            }
        }
    }
}

/// A message is labelled Active exactly when its minute is Active and the
/// user sent another message in the same stretch of Active minutes: a second
/// one in that minute, or one in an earlier or a later minute with no idle
/// minute between.
pub proof fn lemma_message_state(counters: Seq<u16>, states: Seq<State>, idx: int)
    requires
        0 <= idx < states.len() <= counters.len(),
    ensures
        message_state(counters, states, idx) == State::Active <==> states[idx] == State::Active
            && (counters[idx] > 1 || (exists|j: int|
            0 <= j < idx && counters[j] > 0 && forall|k: int|
                j <= k <= idx ==> #[trigger] states[k] == State::Active) || (exists|j: int|
            idx < j < states.len() && counters[j] > 0 && forall|k: int|
                idx <= k <= j ==> #[trigger] states[k] == State::Active)),
{
    lemma_sent_before(counters, states, idx);
    lemma_state_after(counters, states, idx + 1);
    if states[idx] == State::Active {
        if exists|j: int|
            0 <= j < idx && counters[j] > 0 && forall|k: int|
                j <= k < idx ==> #[trigger] states[k] == State::Active {
            let j = choose|j: int|
                0 <= j < idx && counters[j] > 0 && forall|k: int|
                    j <= k < idx ==> #[trigger] states[k] == State::Active;
            assert(forall|k: int| j <= k <= idx ==> #[trigger] states[k] == State::Active);
        }
        if exists|j: int|
            0 <= j < idx && counters[j] > 0 && forall|k: int|
                j <= k <= idx ==> #[trigger] states[k] == State::Active {
            let j = choose|j: int|
                0 <= j < idx && counters[j] > 0 && forall|k: int|
                    j <= k <= idx ==> #[trigger] states[k] == State::Active;
            assert(forall|k: int| j <= k < idx ==> #[trigger] states[k] == State::Active);
        }
        if exists|j: int|
            idx + 1 <= j < states.len() && counters[j] > 0 && forall|k: int|
                idx + 1 <= k <= j ==> #[trigger] states[k] == State::Active {
            let j = choose|j: int|
                idx + 1 <= j < states.len() && counters[j] > 0 && forall|k: int|
                    idx + 1 <= k <= j ==> #[trigger] states[k] == State::Active;
            assert(forall|k: int| idx <= k <= j ==> #[trigger] states[k] == State::Active);
        }
        if exists|j: int|
            idx < j < states.len() && counters[j] > 0 && forall|k: int|
                idx <= k <= j ==> #[trigger] states[k] == State::Active {
            let j = choose|j: int|
                idx < j < states.len() && counters[j] > 0 && forall|k: int|
                    idx <= k <= j ==> #[trigger] states[k] == State::Active;
            assert(forall|k: int| idx + 1 <= k <= j ==> #[trigger] states[k] == State::Active);
        }
    }
}

/// `sent_before`, computed.
fn scan_back(counters: &[u16], states: &[State], idx: usize) -> (res: bool)
    requires
        idx < states@.len() <= counters@.len(),
    ensures
        res == sent_before(counters@, states@, idx as int),
{
    let mut i: usize = idx;
    while i > 0
        invariant
            i <= idx < states@.len() <= counters@.len(),
            sent_before(counters@, states@, idx as int) == sent_before(counters@, states@, i as int),
        decreases i,
    {
        if states[i - 1] == State::Idle {
            return false;
        }
        if counters[i - 1] > 0 {
            return true;
        }
        i = i - 1;
    }
    false
}

/// Returns Idle iff the message at the index is labeled by the HMM data as Idle,
/// or if all other sent messages are separated by at least one idle period.
pub fn determine_state(counters: &[u16], states: &[State], idx: usize) -> (res: State)
    requires
        idx < states@.len(),
        states@.len() <= counters@.len(),
    ensures
        res == message_state(counters@, states@, idx as int),
        res == State::Active <==> states@[idx as int] == State::Active && (counters@[idx as int] > 1
            || (exists|j: int|
            0 <= j < idx && counters@[j] > 0 && forall|k: int|
                j <= k <= idx ==> #[trigger] states@[k] == State::Active) || (exists|j: int|
            idx < j < states@.len() && counters@[j] > 0 && forall|k: int|
                idx <= k <= j ==> #[trigger] states@[k] == State::Active)),
{
    proof {
        lemma_message_state(counters@, states@, idx as int);
    }
    if states[idx] == State::Idle {
        return State::Idle;
    }
    if counters[idx] > 1 {
        return State::Active;
    }
    if scan_back(counters, states, idx) {
        return State::Active;
    }
    let n = states.len();
    let mut j: usize = idx + 1;
    while j < n
        invariant
            idx < j <= n,
            n == states@.len() <= counters@.len(),
            states@[idx as int] == State::Active,
            counters@[idx as int] <= 1,
            !sent_before(counters@, states@, idx as int),
            state_after(counters@, states@, idx + 1) == state_after(counters@, states@, j as int),
        decreases n - j,
    {
        proof {
            lemma_message_state(counters@, states@, idx as int);
        }
        if states[j] == State::Idle {
            return State::Idle;
        }
        if counters[j] > 0 {
            return State::Active;
        }
        j = j + 1;
    }
    State::Idle
}

/// Whether a sent message at minute `idx` is not part of an ongoing Active
/// stretch, the message before it being at minute `last` (negative: before the run).
pub open spec fn transition(states: Seq<State>, idx: int, last: int) -> bool {
    states[idx] == State::Idle || last < 0 || idle_between(states, last, idx)
}

/// A sent message is a transition exactly when its minute is idle, the
/// message before it came before the run, or some minute from that message's
/// minute up to (not including) its own is idle.
pub proof fn lemma_transition(states: Seq<State>, idx: int, last: int)
    ensures
        transition(states, idx, last) <==> states[idx] == State::Idle || last < 0 || exists|k: int|
            last <= k < idx && #[trigger] states[k] == State::Idle,
{
}

/// Returns True iff the last message is not part of an ongoing Active state.
pub fn is_transition(states: &[State], idx: usize, last_msg_minute: i64) -> (res: bool)
    requires
        idx < states@.len(),
        states@[idx as int] == State::Active && last_msg_minute >= 0 ==> last_msg_minute <= idx,
    ensures
        res == transition(states@, idx as int, last_msg_minute as int),
{
    if states[idx] == State::Idle || last_msg_minute < 0 {
        return true;
    }
    let prev_idx = last_msg_minute as usize;
    different_run(states, prev_idx, idx)
}

} // verus!

verus! {

/// Nanoseconds in a second.
pub const SECOND_NS: i128 = 1_000_000_000;

/// The largest span, in nanoseconds, that a labelled message's times may have.
pub const SPAN_LIMIT_NS: i128 = 0x4_0000_0000_0000_0000_0000;

/// The whole seconds in a span of `d` nanoseconds, rounded toward zero.
pub open spec fn whole_seconds(d: int) -> int {
    if d >= 0 {
        d / (SECOND_NS as int)
    } else {
        -((-d) / (SECOND_NS as int))
    }
}

/// The whole seconds of a span are the seconds it holds, rounded toward
/// zero: at most the span, less than a second short of it.
pub proof fn lemma_whole_seconds(d: int)
    ensures
        d >= 0 ==> 0 <= whole_seconds(d) * 1_000_000_000 <= d < (whole_seconds(d) + 1)
            * 1_000_000_000,
        d < 0 ==> (whole_seconds(d) - 1) * 1_000_000_000 < d <= whole_seconds(d) * 1_000_000_000
            <= 0,
{
    if d >= 0 {
        assert(0 <= (d / 1_000_000_000) * 1_000_000_000 <= d < (d / 1_000_000_000 + 1)
            * 1_000_000_000) by (nonlinear_arith)
            requires
                d >= 0,
        ;
    } else {
        let e = -d;
        assert(0 <= (e / 1_000_000_000) * 1_000_000_000 <= e < (e / 1_000_000_000 + 1)
            * 1_000_000_000) by (nonlinear_arith)
            requires
                e > 0,
        ;
    }
}

/// `whole_seconds`, computed.
fn whole_seconds_of(d: i128) -> (res: i64)
    requires
        -SPAN_LIMIT_NS <= d <= SPAN_LIMIT_NS,
    ensures
        res == whole_seconds(d as int),
{
    if d >= 0 {
        (d / SECOND_NS) as i64
    } else {
        (-((-d) / SECOND_NS)) as i64
    }
}

/// A sent message with what is known of its context.
#[derive(Debug, Clone, Copy, PartialEq, Eq, Structural)]
pub struct LabeledMessage {
    pub state: State,
    /// True iff last sent message is from an ongoing Active state
    pub continuing: bool,
    pub last_message: Direction,
    /// True iff last message is not from an ongoing Active state
    pub idle_sent: bool,
    /// The time since the message before it, in nanoseconds.
    pub iit: i128,
    /// The time since the user's previous sent message of the run, in nanoseconds.
    pub sent_iit: Option<i128>,
}

/// Whether a labelled message's times are within `SPAN_LIMIT_NS`.
pub open spec fn spans_ok(m: LabeledMessage) -> bool {
    &&& -SPAN_LIMIT_NS <= m.iit <= SPAN_LIMIT_NS
    &&& (m.sent_iit matches Some(t) ==> -SPAN_LIMIT_NS <= t <= SPAN_LIMIT_NS)
}

/// Whether all labelled messages' times are within `SPAN_LIMIT_NS`.
pub open spec fn all_spans_ok(ms: Seq<LabeledMessage>) -> bool {
    forall|i: int| 0 <= i < ms.len() ==> spans_ok(#[trigger] ms[i])
}

/// The seconds between each transition message and the previous sent message.
pub open spec fn idle_iit_list(ms: Seq<LabeledMessage>) -> Seq<i64>
    decreases ms.len(),
{
    if ms.len() == 0 {
        Seq::empty()
    } else {
        let r = idle_iit_list(ms.drop_last());
        let m = ms.last();
        if m.idle_sent && m.sent_iit is Some {
            r.push(whole_seconds(m.sent_iit->0 as int) as i64)
        } else {
            r
        }
    }
}

/// The seconds since the message before, for each message that is not a
/// transition and whose previous message went the way `dir` says.
pub open spec fn active_iit_list(ms: Seq<LabeledMessage>, dir: Direction) -> Seq<i64>
    decreases ms.len(),
{
    if ms.len() == 0 {
        Seq::empty()
    } else {
        let r = active_iit_list(ms.drop_last(), dir);
        let m = ms.last();
        if !m.idle_sent && m.last_message == dir {
            r.push(whole_seconds(m.iit as int) as i64)
        } else {
            r
        }
    }
}

/// Scanning the messages for stretches of continuing messages: the maxima
/// found so far (in whole seconds, zeros left out), the running maximum
/// (at least zero), and whether a stretch is open.
pub open spec fn stretch_scan(ms: Seq<LabeledMessage>) -> (Seq<i64>, int, bool)
    decreases ms.len(),
{
    if ms.len() == 0 {
        (Seq::empty(), 0, false)
    } else {
        let (r, mx, open) = stretch_scan(ms.drop_last());
        let m = ms.last();
        if m.continuing {
            (r, if m.iit > mx { m.iit as int } else { mx }, true)
        } else if open {
            (if mx != 0 { r.push(whole_seconds(mx) as i64) } else { r }, 0, false)
        } else {
            (r, mx, open)
        }
    }
}

/// The maxima of the stretches of continuing messages, in whole seconds, a
/// stretch still open after the last message included; maxima of zero are
/// left out.
pub open spec fn stretch_maxima(ms: Seq<LabeledMessage>) -> Seq<i64> {
    let (r, mx, open) = stretch_scan(ms);
    if open && mx != 0 {
        r.push(whole_seconds(mx) as i64)
    } else {
        r
    }
}

/// With no stretch open, the running maximum is zero; it is never negative.
proof fn lemma_scan_closed(ms: Seq<LabeledMessage>)
    ensures
        stretch_scan(ms).1 >= 0,
        !stretch_scan(ms).2 ==> stretch_scan(ms).1 == 0,
    decreases ms.len(),
{
    if ms.len() > 0 {
        lemma_scan_closed(ms.drop_last());
    }
}

/// Scanning on from a point where no stretch is open is scanning afresh.
proof fn lemma_scan_append(a: Seq<LabeledMessage>, q: Seq<LabeledMessage>)
    requires
        !stretch_scan(a).2,
        stretch_scan(a).1 == 0,
    ensures
        stretch_scan(a + q) == (stretch_scan(a).0 + stretch_scan(q).0, stretch_scan(q).1, stretch_scan(
            q,
        ).2),
    decreases q.len(),
{
    if q.len() == 0 {
        assert(a + q =~= a);
        assert(stretch_scan(a).0 + Seq::<i64>::empty() =~= stretch_scan(a).0);
    } else {
        lemma_scan_append(a, q.drop_last());
        assert((a + q).drop_last() =~= a + q.drop_last());
        assert((a + q).last() == q.last());
        let (r, mx, open) = stretch_scan(q.drop_last());
        let v = whole_seconds(mx) as i64;
        assert((stretch_scan(a).0 + r).push(v) =~= stretch_scan(a).0 + r.push(v));
    }
}

/// A message that does not continue a stretch splits the maxima: those of
/// the messages before it, then those of the messages after it.
pub proof fn lemma_stretch_split(p: Seq<LabeledMessage>, x: LabeledMessage, q: Seq<LabeledMessage>)
    requires
        !x.continuing,
    ensures
        stretch_maxima(p + seq![x] + q) == stretch_maxima(p) + stretch_maxima(q),
{
    let a = p + seq![x];
    assert(a.drop_last() =~= p);
    lemma_scan_closed(p);
    assert(stretch_scan(a) == (stretch_maxima(p), 0int, false));
    lemma_scan_append(a, q);
    let (r, mx, open) = stretch_scan(q);
    let v = whole_seconds(mx) as i64;
    assert((stretch_maxima(p) + r).push(v) =~= stretch_maxima(p) + r.push(v));
}

/// Scanning a stretch of continuing messages: nothing recorded yet, open once
/// a message was seen, and the running maximum is the largest IIT (or zero).
proof fn lemma_scan_stretch(ms: Seq<LabeledMessage>)
    requires
        forall|i: int| 0 <= i < ms.len() ==> (#[trigger] ms[i]).continuing,
    ensures
        stretch_scan(ms).0 == Seq::<i64>::empty(),
        stretch_scan(ms).2 == (ms.len() > 0),
        stretch_scan(ms).1 >= 0,
        forall|i: int| 0 <= i < ms.len() ==> (#[trigger] ms[i]).iit <= stretch_scan(ms).1,
        stretch_scan(ms).1 == 0 || exists|j: int|
            0 <= j < ms.len() && (#[trigger] ms[j]).iit == stretch_scan(ms).1,
    decreases ms.len(),
{
    if ms.len() > 0 {
        let init = ms.drop_last();
        assert forall|i: int| 0 <= i < init.len() implies (#[trigger] init[i]).continuing by {
            assert(init[i] == ms[i]);
        }
        lemma_scan_stretch(init);
        let mx = stretch_scan(init).1;
        assert forall|i: int| 0 <= i < ms.len() implies (#[trigger] ms[i]).iit <= stretch_scan(
            ms,
        ).1 by {
            if i < ms.len() - 1 {
                assert(init[i] == ms[i]);
            }
        }
        if ms.last().iit <= mx && mx != 0 {
            let j = choose|j: int| 0 <= j < init.len() && (#[trigger] init[j]).iit == mx;
            assert(ms[j] == init[j]);
        }
    }
}

/// A stretch of continuing messages gives one maximum, the largest IIT in it
/// in whole seconds, unless no IIT in it is above zero: then none.
pub proof fn lemma_stretch_single(ms: Seq<LabeledMessage>)
    requires
        forall|i: int| 0 <= i < ms.len() ==> (#[trigger] ms[i]).continuing,
    ensures
        (forall|i: int| 0 <= i < ms.len() ==> (#[trigger] ms[i]).iit <= 0) ==> stretch_maxima(ms)
            == Seq::<i64>::empty(),
        (exists|i: int| 0 <= i < ms.len() && (#[trigger] ms[i]).iit > 0) ==> exists|j: int|
            0 <= j < ms.len() && (forall|i: int| 0 <= i < ms.len() ==> (#[trigger] ms[i]).iit
                <= ms[j].iit) && stretch_maxima(ms) == seq![whole_seconds(ms[j].iit as int) as i64],
{
    lemma_scan_stretch(ms);
    let (r, mx, open) = stretch_scan(ms);
    if mx != 0 {
        let j = choose|j: int| 0 <= j < ms.len() && (#[trigger] ms[j]).iit == mx;
        assert(ms[j].iit > 0);
        assert(r.push(whole_seconds(mx) as i64) =~= seq![whole_seconds(ms[j].iit as int) as i64]);
    }
}

/// The transition times of two runs of messages one after the other are
/// those of the first, then those of the second.
pub proof fn lemma_idle_iit_list_append(a: Seq<LabeledMessage>, b: Seq<LabeledMessage>)
    ensures
        idle_iit_list(a + b) == idle_iit_list(a) + idle_iit_list(b),
    decreases b.len(),
{
    if b.len() == 0 {
        assert(a + b =~= a);
        assert(idle_iit_list(a) + Seq::<i64>::empty() =~= idle_iit_list(a));
    } else {
        lemma_idle_iit_list_append(a, b.drop_last());
        assert((a + b).drop_last() =~= a + b.drop_last());
        assert((a + b).last() == b.last());
        let m = b.last();
        let v = whole_seconds(m.sent_iit->0 as int) as i64;
        assert((idle_iit_list(a) + idle_iit_list(b.drop_last())).push(v) =~= idle_iit_list(a)
            + idle_iit_list(b.drop_last()).push(v));
    }
}

/// One message gives a transition time exactly when it is a transition with
/// a previous sent message: the whole seconds since that message.
pub proof fn lemma_idle_iit_list_one(m: LabeledMessage)
    ensures
        idle_iit_list(seq![m]) == (if m.idle_sent && m.sent_iit is Some {
            seq![whole_seconds(m.sent_iit->0 as int) as i64]
        } else {
            Seq::<i64>::empty()
        }),
{
    assert(seq![m].drop_last() =~= Seq::<LabeledMessage>::empty());
    assert(seq![m].last() == m);
    assert(idle_iit_list(Seq::<LabeledMessage>::empty()) == Seq::<i64>::empty());
    assert(Seq::<i64>::empty().push(whole_seconds(m.sent_iit->0 as int) as i64) =~= seq![whole_seconds(m.sent_iit->0 as int) as i64]);
}

/// The times after messages going one way, over two runs of messages one
/// after the other, are those of the first, then those of the second.
pub proof fn lemma_active_iit_list_append(a: Seq<LabeledMessage>, b: Seq<LabeledMessage>, dir: Direction)
    ensures
        active_iit_list(a + b, dir) == active_iit_list(a, dir) + active_iit_list(b, dir),
    decreases b.len(),
{
    if b.len() == 0 {
        assert(a + b =~= a);
        assert(active_iit_list(a, dir) + Seq::<i64>::empty() =~= active_iit_list(a, dir));
    } else {
        lemma_active_iit_list_append(a, b.drop_last(), dir);
        assert((a + b).drop_last() =~= a + b.drop_last());
        assert((a + b).last() == b.last());
        let m = b.last();
        let v = whole_seconds(m.iit as int) as i64;
        assert((active_iit_list(a, dir) + active_iit_list(b.drop_last(), dir)).push(v) =~= active_iit_list(a, dir)
            + active_iit_list(b.drop_last(), dir).push(v));
    }
}

/// One message gives a time exactly when it is not a transition and the
/// message before it went the way `dir` says: the whole seconds since that message.
pub proof fn lemma_active_iit_list_one(m: LabeledMessage, dir: Direction)
    ensures
        active_iit_list(seq![m], dir) == (if !m.idle_sent && m.last_message == dir {
            seq![whole_seconds(m.iit as int) as i64]
        } else {
            Seq::<i64>::empty()
        }),
{
    assert(seq![m].drop_last() =~= Seq::<LabeledMessage>::empty());
    assert(seq![m].last() == m);
    assert(active_iit_list(Seq::<LabeledMessage>::empty(), dir) == Seq::<i64>::empty());
    assert(Seq::<i64>::empty().push(whole_seconds(m.iit as int) as i64) =~= seq![whole_seconds(m.iit as int) as i64]);
}

/// How many messages satisfy `f`.
pub open spec fn count_where(ms: Seq<LabeledMessage>, f: spec_fn(LabeledMessage) -> bool) -> nat
    decreases ms.len(),
{
    if ms.len() == 0 {
        0
    } else {
        count_where(ms.drop_last(), f) + if f(ms.last()) { 1nat } else { 0nat }
    }
}

/// Counting over two runs of messages one after the other adds the counts.
pub proof fn lemma_count_where_append(
    a: Seq<LabeledMessage>,
    b: Seq<LabeledMessage>,
    f: spec_fn(LabeledMessage) -> bool,
)
    ensures
        count_where(a + b, f) == count_where(a, f) + count_where(b, f),
    decreases b.len(),
{
    if b.len() == 0 {
        assert(a + b =~= a);
    } else {
        lemma_count_where_append(a, b.drop_last(), f);
        assert((a + b).drop_last() =~= a + b.drop_last());
        assert((a + b).last() == b.last());
    }
}

/// One message is counted exactly when it satisfies `f`.
pub proof fn lemma_count_where_one(m: LabeledMessage, f: spec_fn(LabeledMessage) -> bool)
    ensures
        count_where(seq![m], f) == (if f(m) { 1nat } else { 0nat }),
{
    assert(seq![m].drop_last() =~= Seq::<LabeledMessage>::empty());
    assert(seq![m].last() == m);
    assert(count_where(Seq::<LabeledMessage>::empty(), f) == 0);
}

/// Returns a list of IITs between a transition message and the previous sent message.
pub fn idle_iits(messages: &[LabeledMessage]) -> (res: Vec<i64>)
    requires
        all_spans_ok(messages@),
    ensures
        res@ == idle_iit_list(messages@),
{
    let mut out: Vec<i64> = Vec::new();
    let n = messages.len();
    let mut i: usize = 0;
    while i < n
        invariant
            n == messages@.len(),
            i <= n,
            all_spans_ok(messages@),
            out@ == idle_iit_list(messages@.take(i as int)),
        decreases n - i,
    {
        let m = messages[i];
        assert(spans_ok(messages@[i as int]));
        if m.idle_sent {
            match m.sent_iit {
                Some(t) => out.push(whole_seconds_of(t)),
                None => {},
            }
        }
        assert(messages@.take(i + 1).drop_last() =~= messages@.take(i as int));
        i = i + 1;
    }
    assert(messages@.take(n as int) =~= messages@);
    out
}

/// The IITs of the non-transition messages whose previous message went the way `dir` says.
fn iits_after(messages: &[LabeledMessage], dir: Direction) -> (res: Vec<i64>)
    requires
        all_spans_ok(messages@),
    ensures
        res@ == active_iit_list(messages@, dir),
{
    let mut out: Vec<i64> = Vec::new();
    let n = messages.len();
    let mut i: usize = 0;
    while i < n
        invariant
            n == messages@.len(),
            i <= n,
            all_spans_ok(messages@),
            out@ == active_iit_list(messages@.take(i as int), dir),
        decreases n - i,
    {
        let m = messages[i];
        assert(spans_ok(messages@[i as int]));
        if !m.idle_sent && m.last_message == dir {
            out.push(whole_seconds_of(m.iit));
        }
        assert(messages@.take(i + 1).drop_last() =~= messages@.take(i as int));
        i = i + 1;
    }
    assert(messages@.take(n as int) =~= messages@);
    out
}

/// Returns a list of IITs between any active sent message and the given active message.
pub fn sent_sent_iits(messages: &[LabeledMessage]) -> (res: Vec<i64>)
    requires
        all_spans_ok(messages@),
    ensures
        res@ == active_iit_list(messages@, Direction::Sent),
{
    iits_after(messages, Direction::Sent)
}

/// Returns a list of IITs between any active received message and the given active message.
pub fn received_sent_iits(messages: &[LabeledMessage]) -> (res: Vec<i64>)
    requires
        all_spans_ok(messages@),
    ensures
        res@ == active_iit_list(messages@, Direction::Received),
{
    iits_after(messages, Direction::Received)
}

/// For each stretch of sent Active messages, returns the max IIT in that
/// Active stretch (maxima of zero are left out).
pub fn active_iits(messages: &[LabeledMessage]) -> (res: Vec<i64>)
    requires
        all_spans_ok(messages@),
    ensures
        res@ == stretch_maxima(messages@),
{
    let mut max_iit: i128 = 0;
    let mut active = false;
    let mut ret: Vec<i64> = Vec::new();
    let n = messages.len();
    let mut i: usize = 0;
    while i < n
        invariant
            n == messages@.len(),
            i <= n,
            all_spans_ok(messages@),
            stretch_scan(messages@.take(i as int)) == (ret@, max_iit as int, active),
            0 <= max_iit <= SPAN_LIMIT_NS,
        decreases n - i,
    {
        let m = messages[i];
        assert(spans_ok(messages@[i as int]));
        if m.continuing {
            if m.iit > max_iit {
                max_iit = m.iit;
            }
            active = true;
        } else if active {
            active = false;
            if max_iit != 0 {
                ret.push(whole_seconds_of(max_iit));
            }
            max_iit = 0;
        }
        assert(messages@.take(i + 1).drop_last() =~= messages@.take(i as int));
        i = i + 1;
    }
    assert(messages@.take(n as int) =~= messages@);
    if active && max_iit != 0 {
        ret.push(whole_seconds_of(max_iit));
    }
    ret
}

/// Whether a message is a transition.
pub open spec fn is_idle_sent(m: LabeledMessage) -> bool {
    m.idle_sent
}

/// Whether a message is a transition into Active.
pub open spec fn is_send_transition(m: LabeledMessage) -> bool {
    m.idle_sent && m.state == State::Active
}

/// Whether a message is Active, not a transition and not continuing a stretch.
pub open spec fn is_receive_transition(m: LabeledMessage) -> bool {
    !m.idle_sent && !m.continuing && m.state == State::Active
}

/// The numbers whose quotient is the fraction of idle sent messages with
/// active transitions: the transitions into Active, and the transitions.
pub fn send_transition_counts(messages: &[LabeledMessage]) -> (res: (usize, usize))
    ensures
        res.0 == count_where(messages@, |m: LabeledMessage| is_send_transition(m)),
        res.1 == count_where(messages@, |m: LabeledMessage| is_idle_sent(m)),
{
    let mut transition: usize = 0;
    let mut idle_sent: usize = 0;
    let n = messages.len();
    let mut i: usize = 0;
    while i < n
        invariant
            n == messages@.len(),
            i <= n,
            transition <= idle_sent <= i,
            transition == count_where(messages@.take(i as int), |m: LabeledMessage| is_send_transition(m)),
            idle_sent == count_where(messages@.take(i as int), |m: LabeledMessage| is_idle_sent(m)),
        decreases n - i,
    {
        let m = messages[i];
        if m.idle_sent {
            idle_sent = idle_sent + 1;
            if m.state == State::Active {
                transition = transition + 1;
            }
        }
        assert(messages@.take(i + 1).drop_last() =~= messages@.take(i as int));
        i = i + 1;
    }
    assert(messages@.take(n as int) =~= messages@);
    (transition, idle_sent)
}

/// Returns the count of idle received messages with active transitions.
pub fn receive_transition_count(messages: &[LabeledMessage]) -> (res: usize)
    ensures
        res == count_where(messages@, |m: LabeledMessage| is_receive_transition(m)),
{
    let mut count: usize = 0;
    let n = messages.len();
    let mut i: usize = 0;
    while i < n
        invariant
            n == messages@.len(),
            i <= n,
            count <= i,
            count == count_where(messages@.take(i as int), |m: LabeledMessage| is_receive_transition(m)),
        decreases n - i,
    {
        let m = messages[i];
        if !m.idle_sent && !m.continuing && m.state == State::Active {
            count = count + 1;
        }
        assert(messages@.take(i + 1).drop_last() =~= messages@.take(i as int));
        i = i + 1;
    }
    assert(messages@.take(n as int) =~= messages@);
    count
}

} // verus!

verus! {

/// A `u16` field, as `u16::from_str` reads it.
pub open spec fn field_u16(f: Seq<u8>) -> Option<u16> {
    match parse_bounded(f, u16::MAX as nat) {
        Some(v) => Some(v as u16),
        None => None,
    }
}

/// A `usize` field, as `usize::from_str` reads it.
pub open spec fn field_usize(f: Seq<u8>) -> Option<usize> {
    match parse_bounded(f, usize::MAX as nat) {
        Some(v) => Some(v as usize),
        None => None,
    }
}

/// The comma-separated `u16` fields of `line`, if all of them read.
pub open spec fn fields_u16(line: Seq<u8>) -> Option<Seq<u16>> {
    let fs = split(line, 44);
    if forall|k: int| 0 <= k < fs.len() ==> (#[trigger] field_u16(fs[k])) is Some {
        Some(Seq::new(fs.len(), |k: int| field_u16(fs[k])->0))
    } else {
        None
    }
}

/// The comma-separated `usize` fields of `line`, if all of them read.
pub open spec fn fields_usize(line: Seq<u8>) -> Option<Seq<usize>> {
    let fs = split(line, 44);
    if forall|k: int| 0 <= k < fs.len() ==> (#[trigger] field_usize(fs[k])) is Some {
        Some(Seq::new(fs.len(), |k: int| field_usize(fs[k])->0))
    } else {
        None
    }
}

/// The state a field of the states line names: "0" is Idle, anything else Active.
pub open spec fn state_of(f: Seq<u8>) -> State {
    if f == seq![48u8] {
        State::Idle
    } else {
        State::Active
    }
}

/// The states of a states line.
pub open spec fn states_of(line: Seq<u8>) -> Seq<State> {
    split(line, 44).map_values(|f: Seq<u8>| state_of(f))
}

/// The sum of the first `k` lengths.
pub open spec fn lens_sum(lens: Seq<usize>, k: int) -> nat
    decreases k,
{
    if k <= 0 {
        0
    } else {
        lens_sum(lens, k - 1) + lens[k - 1] as nat
    }
}

/// Whether the first `n` comma-separated fields of `line` exist and are `i32`s.
pub open spec fn leading_i32s(line: Seq<u8>, n: nat) -> bool {
    let fs = split(line, 44);
    &&& fs.len() >= n
    &&& forall|k: int| 0 <= k < n ==> (#[trigger] field_i32(fs[k])) is Some
}

/// Whether the first `n` comma-separated fields of `line` exist and are `usize`s.
pub open spec fn leading_usizes(line: Seq<u8>, n: nat) -> bool {
    let fs = split(line, 44);
    &&& fs.len() >= n
    &&& forall|k: int| 0 <= k < n ==> (#[trigger] field_usize(fs[k])) is Some
}

/// Whether the lines of a stats file read: the concatenated histograms
/// (`u16`s), their lengths (`usize`s), at least as many conversation ids
/// (`i32`s) and first messages (`usize`s) as lengths, then the states; the
/// lengths adding up to no more than the histograms hold.
pub open spec fn stats_file_ok(ls: Seq<Seq<u8>>) -> bool {
    &&& ls.len() >= 5
    &&& fields_u16(ls[0]) is Some
    &&& fields_usize(ls[1]) is Some
    &&& leading_i32s(ls[2], (fields_usize(ls[1])->0).len())
    &&& leading_usizes(ls[3], (fields_usize(ls[1])->0).len())
    &&& lens_sum(fields_usize(ls[1])->0, (fields_usize(ls[1])->0).len() as int) <= (fields_u16(
        ls[0],
    )->0).len()
}

/// Same as the UserStats struct, extended with the state guesses.
#[derive(Debug, Clone, PartialEq, Eq)]
pub struct Stats {
    pub user_stats: UserStats,
    pub states: Vec<State>,
}

/// Whether `s` is `user`'s stats as the lines `ls` of a stats file give them:
/// run `k` has the `k`-th slice of the histograms, of the `k`-th length, and
/// the `k`-th conversation id and first message.
pub open spec fn stats_hold(s: Stats, user: UserId, ls: Seq<Seq<u8>>) -> bool {
    let counters = fields_u16(ls[0])->0;
    let lens = fields_usize(ls[1])->0;
    let runs = s.user_stats.data_runs@;
    &&& s.user_stats.user == user
    &&& s.states@ == states_of(ls[4])
    &&& runs.len() == lens.len()
    &&& forall|k: int|
        0 <= k < runs.len() ==> {
            &&& (#[trigger] runs[k]).minute_counters@ == counters.subrange(
                lens_sum(lens, k) as int,
                lens_sum(lens, k + 1) as int,
            )
            &&& runs[k].conversation_id == field_i32(split(ls[2], 44)[k])->0
            &&& runs[k].first_message == field_usize(split(ls[3], 44)[k])->0
        }
}

/// Read the comma-separated `u16` fields of `line`; `None` if one does not read.
fn parse_u16_fields(line: &[u8]) -> (res: Option<Vec<u16>>)
    ensures
        match (res, fields_u16(line@)) {
            (Some(v), Some(w)) => v@ == w,
            (None, None) => true,
            _ => false,
        },
{
    let fields = split_bytes(line, 44);
    let ghost fs = split(line@, 44);
    let n = fields.len();
    let mut out: Vec<u16> = Vec::new();
    let mut k: usize = 0;
    while k < n
        invariant
            n == fields@.len(),
            views(fields@) == fs,
            fs == split(line@, 44),
            k <= n,
            out@.len() == k,
            forall|j: int| 0 <= j < k ==> #[trigger] field_u16(fs[j]) == Some(out@[j]),
        decreases n - k,
    {
        assert(fields@[k as int]@ == fs[k as int]);
        match parse_u16(fields[k].as_slice()) {
            Some(v) => out.push(v),
            None => {
                assert(field_u16(fs[k as int]) is None);
                return None;
            },
        }
        k = k + 1;
    }
    assert(forall|j: int| 0 <= j < fs.len() ==> (#[trigger] field_u16(fs[j])) is Some);
    assert(out@ =~= Seq::new(fs.len(), |j: int| field_u16(fs[j])->0));
    Some(out)
}

/// Read the comma-separated `usize` fields of `line`; `None` if one does not read.
fn parse_usize_fields(line: &[u8]) -> (res: Option<Vec<usize>>)
    ensures
        match (res, fields_usize(line@)) {
            (Some(v), Some(w)) => v@ == w,
            (None, None) => true,
            _ => false,
        },
{
    let fields = split_bytes(line, 44);
    let ghost fs = split(line@, 44);
    let n = fields.len();
    let mut out: Vec<usize> = Vec::new();
    let mut k: usize = 0;
    while k < n
        invariant
            n == fields@.len(),
            views(fields@) == fs,
            fs == split(line@, 44),
            k <= n,
            out@.len() == k,
            forall|j: int| 0 <= j < k ==> #[trigger] field_usize(fs[j]) == Some(out@[j]),
        decreases n - k,
    {
        assert(fields@[k as int]@ == fs[k as int]);
        match parse_usize(fields[k].as_slice()) {
            Some(v) => out.push(v),
            None => {
                assert(field_usize(fs[k as int]) is None);
                return None;
            },
        }
        k = k + 1;
    }
    assert(forall|j: int| 0 <= j < fs.len() ==> (#[trigger] field_usize(fs[j])) is Some);
    assert(out@ =~= Seq::new(fs.len(), |j: int| field_usize(fs[j])->0));
    Some(out)
}

/// Read the states line.
fn parse_states(line: &[u8]) -> (res: Vec<State>)
    ensures
        res@ == states_of(line@),
{
    let fields = split_bytes(line, 44);
    let ghost fs = split(line@, 44);
    let n = fields.len();
    let mut out: Vec<State> = Vec::new();
    let mut k: usize = 0;
    while k < n
        invariant
            n == fields@.len(),
            views(fields@) == fs,
            fs == split(line@, 44),
            k <= n,
            out@ == fs.take(k as int).map_values(|f: Seq<u8>| state_of(f)),
        decreases n - k,
    {
        assert(fields@[k as int]@ == fs[k as int]);
        let f = fields[k].as_slice();
        let st = if f.len() == 1 && f[0] == 48u8 {
            assert(f@ =~= seq![48u8]);
            State::Idle
        } else {
            assert(f@ != seq![48u8]) by {
                if f@ == seq![48u8] {
                    assert(f@.len() == 1 && f@[0] == 48u8);
                }
            }
            State::Active
        };
        out.push(st);
        assert(fs.take(k + 1) =~= fs.take(k as int).push(fs[k as int]));
        k = k + 1;
        assert(out@ =~= fs.take(k as int).map_values(|f: Seq<u8>| state_of(f)));
    }
    assert(fs.take(n as int) =~= fs);
    out
}

/// The values `v[lo..hi]`, copied.
fn copy_range(v: &Vec<u16>, lo: usize, hi: usize) -> (res: Vec<u16>)
    requires
        lo <= hi <= v@.len(),
    ensures
        res@ == v@.subrange(lo as int, hi as int),
{
    let mut out: Vec<u16> = Vec::new();
    let mut i: usize = lo;
    while i < hi
        invariant
            lo <= i <= hi <= v@.len(),
            out@ == v@.subrange(lo as int, i as int),
        decreases hi - i,
    {
        out.push(v[i]);
        i = i + 1;
        assert(out@ =~= v@.subrange(lo as int, i as int));
    }
    out
}

/// Read `user`'s stats file: `None` where a line is missing or does not read,
/// or the lengths ask for more histogram values than there are.
pub fn parse_stats_file(user: UserId, data: &[u8]) -> (res: Option<Stats>)
    ensures
        res is Some <==> stats_file_ok(lines(data@)),
        res matches Some(s) ==> stats_hold(s, user, lines(data@)),
{
    let ls = lines_of(data);
    let ghost lv = lines(data@);
    if ls.len() < 5 {
        return None;
    }
    assert(ls@[0]@ == lv[0] && ls@[1]@ == lv[1] && ls@[2]@ == lv[2] && ls@[3]@ == lv[3] && ls@[4]@
        == lv[4]);
    let counters = match parse_u16_fields(ls[0].as_slice()) {
        Some(c) => c,
        None => return None,
    };
    let lens = match parse_usize_fields(ls[1].as_slice()) {
        Some(l) => l,
        None => return None,
    };
    let convo_fields = split_bytes(ls[2].as_slice(), 44);
    let first_fields = split_bytes(ls[3].as_slice(), 44);
    let states = parse_states(ls[4].as_slice());
    let ghost cf = split(lv[2], 44);
    let ghost ff = split(lv[3], 44);
    let n = lens.len();
    let mut data_runs: Vec<DataRun> = Vec::new();
    let mut index: usize = 0;
    let mut k: usize = 0;
    while k < n
        invariant
            n == lens@.len(),
            k <= n,
            lv == lines(data@),
            lv.len() >= 5,
            counters@ == fields_u16(lv[0])->0,
            fields_u16(lv[0]) is Some,
            lens@ == fields_usize(lv[1])->0,
            fields_usize(lv[1]) is Some,
            cf == split(lv[2], 44),
            ff == split(lv[3], 44),
            states@ == states_of(lv[4]),
            index == lens_sum(lens@, k as int),
            index <= counters@.len(),
            views(convo_fields@) == cf,
            views(first_fields@) == ff,
            data_runs@.len() == k,
            forall|j: int| 0 <= j < k ==> (#[trigger] field_i32(cf[j])) is Some,
            forall|j: int| 0 <= j < k ==> (#[trigger] field_usize(ff[j])) is Some,
            cf.len() >= k,
            ff.len() >= k,
            forall|j: int|
                0 <= j < k ==> {
                    &&& (#[trigger] data_runs@[j]).minute_counters@ == counters@.subrange(
                        lens_sum(lens@, j) as int,
                        lens_sum(lens@, j + 1) as int,
                    )
                    &&& data_runs@[j].conversation_id == field_i32(cf[j])->0
                    &&& data_runs@[j].first_message == field_usize(ff[j])->0
                },
        decreases n - k,
    {
        let len = lens[k];
        if len > counters.len() - index {
            proof {
                lemma_lens_sum_grows(lens@, k + 1, n as int);
            }
            return None;
        }
        let minute_counters = copy_range(&counters, index, index + len);
        if k >= convo_fields.len() || k >= first_fields.len() {
            return None;
        }
        assert(convo_fields@[k as int]@ == cf[k as int]);
        assert(first_fields@[k as int]@ == ff[k as int]);
        let conversation_id = match parse_i32(convo_fields[k].as_slice()) {
            Some(c) => c,
            None => {
                assert(field_i32(cf[k as int]) is None);
                return None;
            },
        };
        let first_message = match parse_usize(first_fields[k].as_slice()) {
            Some(f) => f,
            None => {
                assert(field_usize(ff[k as int]) is None);
                return None;
            },
        };
        data_runs.push(DataRun { conversation_id, first_message, minute_counters });
        index = index + len;
        k = k + 1;
    }
    let stats = Stats { user_stats: UserStats { user, data_runs }, states };
    Some(stats)
}

/// Sums of lengths only grow.
proof fn lemma_lens_sum_grows(lens: Seq<usize>, k: int, n: int)
    requires
        0 <= k <= n,
    ensures
        lens_sum(lens, k) <= lens_sum(lens, n),
    decreases n - k,
{
    if k < n {
        lemma_lens_sum_grows(lens, k + 1, n);
    }
}

} // verus!

verus! {

/// What labelling one run of a user's messages works from: the conversation's
/// messages, the user, the first message scanned, the date of the run's first
/// message, and the run's histogram and states without the zeros around them.
pub struct RunCtx {
    pub msgs: Seq<Message>,
    pub user: UserId,
    pub lo: int,
    pub first_date: int,
    pub minutes: Seq<u16>,
    pub states: Seq<State>,
}

/// The minute of the run that message `j` falls in.
pub open spec fn minute_of(ctx: RunCtx, j: int) -> int {
    minute_index(ctx.msgs[j].date - ctx.first_date) as int
}

/// The minute, relative to the run, of the message before message `j` (negative before the run).
pub open spec fn minute_before(ctx: RunCtx, j: int) -> int {
    whole_minutes(ctx.msgs[j - 1].date - ctx.first_date)
}

/// The user's last message scanned before message `h`.
pub open spec fn last_sent(ctx: RunCtx, h: int) -> Option<int>
    decreases h - ctx.lo,
{
    if h <= ctx.lo {
        None
    } else if ctx.msgs[h - 1].user == ctx.user {
        Some(h - 1)
    } else {
        last_sent(ctx, h - 1)
    }
}

/// The label of the user's message `j`.
pub open spec fn label(ctx: RunCtx, j: int) -> LabeledMessage {
    let m = minute_of(ctx, j);
    let prev = last_sent(ctx, j);
    LabeledMessage {
        state: message_state(ctx.minutes, ctx.states, m),
        continuing: prev matches Some(p) && !idle_between(ctx.states, minute_of(ctx, p), m),
        last_message: if ctx.msgs[j - 1].user == ctx.user {
            Direction::Sent
        } else {
            Direction::Received
        },
        idle_sent: transition(ctx.states, m, minute_before(ctx, j)),
        iit: (ctx.msgs[j].date - ctx.msgs[j - 1].date) as i128,
        sent_iit: match prev {
            Some(p) => Some((ctx.msgs[j].date - ctx.msgs[p].date) as i128),
            None => None,
        },
    }
}

/// The user's last message scanned before `h` is the latest message of the
/// user from `lo` on before `h`; there is none when the user has no message there.
proof fn lemma_last_sent(ctx: RunCtx, h: int)
    ensures
        last_sent(ctx, h) matches Some(p) ==> ctx.lo <= p < h && ctx.msgs[p].user == ctx.user
            && forall|q: int| p < q < h ==> (#[trigger] ctx.msgs[q]).user != ctx.user,
        last_sent(ctx, h) is None ==> forall|q: int|
            ctx.lo <= q < h ==> (#[trigger] ctx.msgs[q]).user != ctx.user,
    decreases h - ctx.lo,
{
    if h > ctx.lo {
        lemma_last_sent(ctx, h - 1);
    }
}

/// A label continues an Active stretch exactly when the user sent an earlier
/// message in the run and no minute from that message's minute up to this
/// message's minute is idle.
pub proof fn lemma_label_continuing(ctx: RunCtx, j: int)
    ensures
        label(ctx, j).continuing <==> exists|p: int|
            ctx.lo <= p < j && ctx.msgs[p].user == ctx.user && (forall|q: int|
                p < q < j ==> (#[trigger] ctx.msgs[q]).user != ctx.user) && (forall|k: int|
                minute_of(ctx, p) <= k < minute_of(ctx, j) ==> #[trigger] ctx.states[k]
                    == State::Active),
{
    lemma_last_sent(ctx, j);
    let m = minute_of(ctx, j);
    if let Some(p) = last_sent(ctx, j) {
        if !idle_between(ctx.states, minute_of(ctx, p), m) {
            assert forall|k: int| minute_of(ctx, p) <= k < m implies #[trigger] ctx.states[k]
                == State::Active by {
                if ctx.states[k] == State::Idle {
                    assert(idle_between(ctx.states, minute_of(ctx, p), m));
                }
            }
        }
        assert forall|p2: int|
            ctx.lo <= p2 < j && ctx.msgs[p2].user == ctx.user && (forall|q: int|
                p2 < q < j ==> (#[trigger] ctx.msgs[q]).user != ctx.user) implies p2 == p by {
            if p2 < p {
                assert(ctx.msgs[p].user != ctx.user);
            } else if p < p2 {
                assert(ctx.msgs[p2].user != ctx.user);
            }
        }
    } else {
        assert forall|p2: int| ctx.lo <= p2 < j implies ctx.msgs[p2].user != ctx.user by {
            assert(ctx.msgs[p2].user != ctx.user);
        }
    }
}

/// A label's time since the previous sent message is the time since the
/// user's latest earlier message in the run; there is none exactly when the
/// user has no earlier message in the run.
pub proof fn lemma_label_sent_iit(ctx: RunCtx, j: int)
    ensures
        label(ctx, j).sent_iit is None <==> forall|q: int|
            ctx.lo <= q < j ==> (#[trigger] ctx.msgs[q]).user != ctx.user,
        label(ctx, j).sent_iit matches Some(t) ==> exists|p: int|
            ctx.lo <= p < j && ctx.msgs[p].user == ctx.user && (forall|q: int|
                p < q < j ==> (#[trigger] ctx.msgs[q]).user != ctx.user) && t == (ctx.msgs[j].date
                - ctx.msgs[p].date) as i128,
{
    lemma_last_sent(ctx, j);
    if let Some(p) = last_sent(ctx, j) {
        assert(ctx.msgs[p].user == ctx.user);
    }
}

/// Whether labelling the user's message `j` stays within the run: its minute
/// is in the run, and neither the message before it nor the user's previous
/// message falls in a later minute of the run.
pub open spec fn label_ok(ctx: RunCtx, j: int) -> bool {
    let m = minute_of(ctx, j);
    &&& m < ctx.states.len()
    &&& (ctx.states[m] == State::Active && minute_before(ctx, j) >= 0 ==> minute_before(ctx, j) <= m)
    &&& (last_sent(ctx, j) matches Some(p) ==> minute_of(ctx, p) <= m)
}

/// Whether a message of someone else falls in an Active minute of the run.
pub open spec fn received_active(ctx: RunCtx, j: int) -> bool {
    let m = minute_of(ctx, j);
    &&& ctx.msgs[j].user != ctx.user
    &&& m < ctx.states.len()
    &&& ctx.states[m] == State::Active
}

/// The labels of the user's messages scanned before message `h`.
pub open spec fn scan_labels(ctx: RunCtx, h: int) -> Seq<LabeledMessage>
    decreases h - ctx.lo,
{
    if h <= ctx.lo {
        Seq::empty()
    } else if ctx.msgs[h - 1].user == ctx.user {
        scan_labels(ctx, h - 1).push(label(ctx, h - 1))
    } else {
        scan_labels(ctx, h - 1)
    }
}

/// Whether every message of the user scanned before `h` can be labelled.
pub open spec fn scan_ok(ctx: RunCtx, h: int) -> bool
    decreases h - ctx.lo,
{
    if h <= ctx.lo {
        true
    } else {
        scan_ok(ctx, h - 1) && (ctx.msgs[h - 1].user == ctx.user ==> label_ok(ctx, h - 1))
    }
}

/// How many messages of others scanned before `h` fall in Active minutes.
pub open spec fn scan_dec(ctx: RunCtx, h: int) -> nat
    decreases h - ctx.lo,
{
    if h <= ctx.lo {
        0
    } else {
        scan_dec(ctx, h - 1) + if received_active(ctx, h - 1) {
            1nat
        } else {
            0nat
        }
    }
}

/// Where scanning from message `lo` stops: at the first message after `last`, or at the end.
pub open spec fn scan_end(msgs: Seq<Message>, lo: int, last: int) -> int
    decreases msgs.len() - lo,
{
    if lo >= msgs.len() {
        msgs.len() as int
    } else if msgs[lo].date > last {
        lo
    } else {
        scan_end(msgs, lo + 1, last)
    }
}

/// The context for scanning a run that starts at message `first` of `c`.
pub open spec fn scan_ctx(c: Conversation, user: UserId, minutes: Seq<u16>, states: Seq<State>, first: int) -> RunCtx {
    RunCtx {
        msgs: c.messages@,
        user,
        lo: if first >= 1 { first } else { 1 },
        first_date: c.messages@[first].date as int,
        minutes,
        states,
    }
}

/// Where scanning such a run stops: the run covers as many minutes after its
/// first message as it has states.
pub open spec fn scan_hi(ctx: RunCtx) -> int {
    scan_end(ctx.msgs, ctx.lo, ctx.first_date + ctx.states.len() * MINUTE_NS)
}

proof fn lemma_scan_end_bounds(msgs: Seq<Message>, lo: int, last: int)
    requires
        0 <= lo <= msgs.len(),
    ensures
        lo <= scan_end(msgs, lo, last) <= msgs.len(),
    decreases msgs.len() - lo,
{
    if lo < msgs.len() && msgs[lo].date <= last {
        lemma_scan_end_bounds(msgs, lo + 1, last);
    }
}

proof fn lemma_scan_monotone(ctx: RunCtx, h1: int, h2: int)
    requires
        h1 <= h2,
    ensures
        scan_ok(ctx, h2) ==> scan_ok(ctx, h1),
        scan_dec(ctx, h1) <= scan_dec(ctx, h2),
    decreases h2 - h1,
{
    if h1 < h2 {
        lemma_scan_monotone(ctx, h1, h2 - 1);
    }
}

/// Label the user's messages of one run of conversation `c`, scanning from
/// message `first` while messages fall within the run, and count down
/// `received` for each message of others in an Active minute. `false` where a
/// message cannot be labelled or the count would drop below zero.
fn scan_run(
    c: &Conversation,
    user: UserId,
    minutes: &[u16],
    states: &[State],
    first: usize,
    labels: &mut Vec<LabeledMessage>,
    received: &mut usize,
) -> (ok: bool)
    requires
        first < c.messages@.len(),
        minutes@.len() == states@.len(),
        dates_ok(c.messages@),
        all_spans_ok(old(labels)@),
    ensures
        ({
            let ctx = scan_ctx(*c, user, minutes@, states@, first as int);
            let hi = scan_hi(ctx);
            &&& ok <==> scan_ok(ctx, hi) && scan_dec(ctx, hi) <= *old(received)
            &&& ok ==> final(labels)@ == old(labels)@ + scan_labels(ctx, hi)
            &&& ok ==> *final(received) == *old(received) - scan_dec(ctx, hi)
            &&& all_spans_ok(final(labels)@)
        }),
{
    let ghost ctx = scan_ctx(*c, user, minutes@, states@, first as int);
    let ghost old_labels = labels@;
    let ghost old_received = *received;
    let n = c.messages.len();
    let first_date: i128 = c.messages[first].date;
    let slen: usize = states.len();
    proof {
        assert(-DATE_LIMIT_NS <= c.messages@[first as int].date <= DATE_LIMIT_NS);
        assert(slen * MINUTE_NS <= 0x1_0000_0000_0000_0000 * MINUTE_NS) by (nonlinear_arith)
            requires
                slen <= 0x1_0000_0000_0000_0000,
        ;
    }
    let last_date: i128 = first_date + (slen as i128) * MINUTE_NS;
    let mut msg_i: usize = if first >= 1 {
        first
    } else {
        1
    };
    let mut prev_sent_time: Option<i128> = None;
    let mut prev_sent_minute_idx: Option<usize> = None;
    proof {
        lemma_scan_end_bounds(ctx.msgs, ctx.lo, last_date as int);
    }
    while msg_i < n && c.messages[msg_i].date <= last_date
        invariant
            ctx == scan_ctx(*c, user, minutes@, states@, first as int),
            old_received == *old(received),
            old_labels == old(labels)@,
            n == c.messages@.len(),
            minutes@.len() == states@.len(),
            dates_ok(c.messages@),
            first_date == ctx.first_date,
            last_date == ctx.first_date + ctx.states.len() * MINUTE_NS,
            -DATE_LIMIT_NS <= first_date <= DATE_LIMIT_NS,
            ctx.lo <= msg_i <= n,
            scan_end(ctx.msgs, ctx.lo, last_date as int) == scan_end(ctx.msgs, msg_i as int, last_date as int),
            scan_ok(ctx, msg_i as int),
            scan_dec(ctx, msg_i as int) <= old_received,
            *received == old_received - scan_dec(ctx, msg_i as int),
            labels@ == old_labels + scan_labels(ctx, msg_i as int),
            all_spans_ok(labels@),
            match last_sent(ctx, msg_i as int) {
                None => prev_sent_time is None && prev_sent_minute_idx is None,
                Some(p) => prev_sent_time == Some(ctx.msgs[p].date) && prev_sent_minute_idx == Some(
                    minute_of(ctx, p) as usize,
                ) && 0 <= p < msg_i,
            },
        decreases n - msg_i,
    {
        let date: i128 = c.messages[msg_i].date;
        proof {
            assert(-DATE_LIMIT_NS <= c.messages@[msg_i as int].date <= DATE_LIMIT_NS);
            assert(-DATE_LIMIT_NS <= c.messages@[msg_i - 1].date <= DATE_LIMIT_NS);
            lemma_scan_end_bounds(ctx.msgs, msg_i + 1, last_date as int);
        }
        let wm: i128 = whole_minutes_of(date - first_date);
        let minute_idx: usize = #[verifier::truncate] (wm as usize);
        assert(minute_of(ctx, msg_i as int) == minute_idx);
        if c.messages[msg_i].user == user {
            let last_msg_date: i128 = c.messages[msg_i - 1].date;
            let last_wm: i128 = whole_minutes_of(last_msg_date - first_date);
            let last_msg_minute: i64 = last_wm as i64;
            let bad_prev = match prev_sent_minute_idx {
                Some(idx2) => idx2 > minute_idx,
                None => false,
            };
            if minute_idx >= states.len() || (states[minute_idx] == State::Active && last_msg_minute >= 0
                && last_wm > minute_idx as i128) || bad_prev {
                proof {
                    assert(!label_ok(ctx, msg_i as int));
                    lemma_scan_monotone(ctx, msg_i + 1, scan_hi(ctx));
                }
                return false;
            }
            let state = determine_state(minutes, states, minute_idx);
            let last_message = if c.messages[msg_i - 1].user == user {
                Direction::Sent
            } else {
                Direction::Received
            };
            let transition = is_transition(states, minute_idx, last_msg_minute);
            let iit: i128 = date - last_msg_date;
            let continuing = match prev_sent_minute_idx {
                Some(idx2) => !different_run(states, idx2, minute_idx),
                None => false,
            };
            let sent_iit = match prev_sent_time {
                Some(t) => Some(date - t),
                None => None,
            };
            let labeled = LabeledMessage {
                state,
                continuing,
                last_message,
                idle_sent: transition,
                iit,
                sent_iit,
            };
            proof {
                assert(labeled == label(ctx, msg_i as int));
            }
            labels.push(labeled);
            prev_sent_time = Some(date);
            prev_sent_minute_idx = Some(minute_idx);
        } else if minute_idx < states.len() && states[minute_idx] == State::Active {
            if *received == 0 {
                proof {
                    assert(received_active(ctx, msg_i as int));
                    assert(scan_dec(ctx, msg_i + 1) == scan_dec(ctx, msg_i as int) + 1);
                    lemma_scan_monotone(ctx, msg_i + 1, scan_hi(ctx));

                }
                return false;
            }
            *received = *received - 1;
        }
        msg_i = msg_i + 1;
    }
    proof {
        lemma_scan_end_bounds(ctx.msgs, msg_i as int, last_date as int);
    }
    true
}

} // verus!

verus! {

/// The length of `c` up to and including its last nonzero count (0 if there is none).
pub open spec fn nonzero_end(c: Seq<u16>) -> nat
    decreases c.len(),
{
    if c.len() == 0 {
        0
    } else if c.last() > 0 {
        c.len()
    } else {
        nonzero_end(c.drop_last())
    }
}

/// Where in the states the run after run `k - 1` is looked for: the length
/// of run `k - 1`'s histogram (0 for the first run).
pub open spec fn run_offset(runs: Seq<DataRun>, k: int) -> int {
    if k <= 0 {
        0
    } else {
        runs[k - 1].minute_counters@.len() as int
    }
}

/// A run's histogram without its leading hour.
pub open spec fn run_rest(r: DataRun) -> Seq<u16> {
    r.minute_counters@.subrange(60, r.minute_counters@.len() as int)
}

/// Whether no two conversations have the same hash.
pub open spec fn hashes_distinct(convs: Seq<&Conversation>) -> bool {
    forall|i: int, j: int|
        0 <= i < convs.len() && 0 <= j < convs.len() && i != j ==> #[trigger] convs[i].hash != #[trigger] convs[j].hash
}

/// Whether no two of the conversations have the same hash.
pub fn distinct_hashes(convs: &[&Conversation]) -> (res: bool)
    ensures
        res == hashes_distinct(convs@),
{
    let n = convs.len();
    let mut i: usize = 0;
    while i < n
        invariant
            n == convs@.len(),
            i <= n,
            forall|a: int, b: int| 0 <= a < i && 0 <= b < n && a != b ==> #[trigger] convs@[a].hash != #[trigger] convs@[b].hash,
        decreases n - i,
    {
        let mut j: usize = 0;
        while j < n
            invariant
                n == convs@.len(),
                i < n,
                j <= n,
                forall|a: int, b: int| 0 <= a < i && 0 <= b < n && a != b ==> #[trigger] convs@[a].hash != #[trigger] convs@[b].hash,
                forall|b: int| 0 <= b < j && b != i ==> convs@[i as int].hash != #[trigger] convs@[b].hash,
            decreases n - j,
        {
            if j != i && convs[i].hash == convs[j].hash {
                return false;
            }
            j = j + 1;
        }
        i = i + 1;
    }
    true
}

/// Whether some conversation has hash `id`.
pub open spec fn has_conversation(convs: Seq<&Conversation>, id: i32) -> bool {
    exists|i: int| 0 <= i < convs.len() && #[trigger] convs[i].hash == id
}

/// The conversation with hash `id`.
pub open spec fn conversation_for(convs: Seq<&Conversation>, id: i32) -> Conversation {
    *convs[choose|i: int| 0 <= i < convs.len() && #[trigger] convs[i].hash == id]
}

/// Whether run `k` of the user's stats can be scanned: its histogram starts
/// with an hour of zeros and has a nonzero count after it, followed by at most
/// an hour of zeros; its states lie within the states; its conversation is
/// there and has its first message.
pub open spec fn run_pre_ok(s: Stats, convs: Seq<&Conversation>, k: int) -> bool {
    let r = s.user_stats.data_runs@[k];
    let all = r.minute_counters@;
    let e = nonzero_end(run_rest(r));
    &&& all.len() >= 60
    &&& forall|j: int| 0 <= j < 60 ==> #[trigger] all[j] == 0
    &&& e > 0
    &&& run_rest(r).len() - e <= 60
    &&& run_offset(s.user_stats.data_runs@, k) + 60 + e <= s.states@.len()
    &&& has_conversation(convs, r.conversation_id)
    &&& r.first_message < conversation_for(convs, r.conversation_id).messages@.len()
}

/// The context for scanning run `k`: the histogram and states after the
/// leading hour, up to the histogram's last nonzero count.
pub open spec fn run_ctx(s: Stats, convs: Seq<&Conversation>, k: int) -> RunCtx {
    let r = s.user_stats.data_runs@[k];
    let e = nonzero_end(run_rest(r));
    let lower = run_offset(s.user_stats.data_runs@, k) + 60;
    scan_ctx(
        conversation_for(convs, r.conversation_id),
        s.user_stats.user,
        run_rest(r).take(e as int),
        s.states@.subrange(lower, lower + e),
        r.first_message as int,
    )
}

/// Whether run `k` can be labelled.
pub open spec fn run_ok(s: Stats, convs: Seq<&Conversation>, k: int) -> bool {
    run_pre_ok(s, convs, k) && scan_ok(run_ctx(s, convs, k), scan_hi(run_ctx(s, convs, k)))
}

/// The labels of the first `k` runs, and how many received messages they
/// found in Active minutes; `None` if one of them cannot be labelled.
pub open spec fn runs_result(s: Stats, convs: Seq<&Conversation>, k: int) -> Option<(Seq<LabeledMessage>, nat)>
    decreases k,
{
    if k <= 0 {
        Some((Seq::empty(), 0nat))
    } else {
        match runs_result(s, convs, k - 1) {
            None => None,
            Some((ls, d)) => if run_ok(s, convs, k - 1) {
                let ctx = run_ctx(s, convs, k - 1);
                Some((ls + scan_labels(ctx, scan_hi(ctx)), d + scan_dec(ctx, scan_hi(ctx))))
            } else {
                None
            },
        }
    }
}

/// How many of the messages are not the user's.
pub open spec fn others_count(msgs: Seq<Message>, u: UserId) -> nat
    decreases msgs.len(),
{
    if msgs.len() == 0 {
        0
    } else {
        others_count(msgs.drop_last(), u) + if msgs.last().user != u {
            1nat
        } else {
            0nat
        }
    }
}

/// How many messages of the conversations are not the user's.
pub open spec fn received_total(convs: Seq<&Conversation>, u: UserId) -> nat
    decreases convs.len(),
{
    if convs.len() == 0 {
        0
    } else {
        received_total(convs.drop_last(), u) + others_count(convs.last().messages@, u)
    }
}

/// The labelled messages of the user's stats and the count of messages they
/// received outside Active minutes of their runs; `None` where a run cannot
/// be labelled, or the count would drop below zero or not fit a `usize`.
pub open spec fn labeled_result(s: Stats, convs: Seq<&Conversation>) -> Option<(Seq<LabeledMessage>, nat)> {
    let total = received_total(convs, s.user_stats.user);
    match runs_result(s, convs, s.user_stats.data_runs@.len() as int) {
        Some((ls, d)) => if total <= usize::MAX && d <= total {
            Some((ls, (total - d) as nat))
        } else {
            None
        },
        None => None,
    }
}

proof fn lemma_runs_result_monotone(s: Stats, convs: Seq<&Conversation>, k1: int, k2: int)
    requires
        0 <= k1 <= k2,
    ensures
        runs_result(s, convs, k1) is None ==> runs_result(s, convs, k2) is None,
        runs_result(s, convs, k2) matches Some((_, d2)) ==> (runs_result(s, convs, k1) matches Some(
            (_, d1),
        ) && d1 <= d2),
    decreases k2 - k1,
{
    if k1 < k2 {
        lemma_runs_result_monotone(s, convs, k1, k2 - 1);
    }
}

/// How many messages are not the user's, computed.
fn count_others(msgs: &Vec<Message>, u: UserId) -> (res: usize)
    ensures
        res == others_count(msgs@, u),
{
    let n = msgs.len();
    let mut count: usize = 0;
    let mut i: usize = 0;
    while i < n
        invariant
            n == msgs@.len(),
            i <= n,
            count <= i,
            count == others_count(msgs@.take(i as int), u),
        decreases n - i,
    {
        if msgs[i].user != u {
            count = count + 1;
        }
        assert(msgs@.take(i + 1).drop_last() =~= msgs@.take(i as int));
        i = i + 1;
    }
    assert(msgs@.take(n as int) =~= msgs@);
    count
}

/// `received_total`, computed; `None` if it does not fit a `usize`.
fn count_received(convs: &[&Conversation], u: UserId) -> (res: Option<usize>)
    ensures
        match res {
            Some(t) => t == received_total(convs@, u),
            None => received_total(convs@, u) > usize::MAX,
        },
{
    let n = convs.len();
    let mut total: usize = 0;
    let mut i: usize = 0;
    while i < n
        invariant
            n == convs@.len(),
            i <= n,
            total == received_total(convs@.take(i as int), u),
        decreases n - i,
    {
        let c = count_others(&convs[i].messages, u);
        assert(convs@.take(i + 1).drop_last() =~= convs@.take(i as int));
        assert(convs@.take(i + 1).last() == convs@[i as int]);
        if c > usize::MAX - total {
            proof {
                lemma_received_total_grows(convs@, i + 1, n as int, u);
                assert(convs@.take(n as int) =~= convs@);
            }
            return None;
        }
        total = total + c;
        i = i + 1;
    }
    assert(convs@.take(n as int) =~= convs@);
    Some(total)
}

proof fn lemma_received_total_grows(convs: Seq<&Conversation>, k: int, n: int, u: UserId)
    requires
        0 <= k <= n <= convs.len(),
    ensures
        received_total(convs.take(k), u) <= received_total(convs.take(n), u),
    decreases n - k,
{
    if k < n {
        lemma_received_total_grows(convs, k, n - 1, u);
        assert(convs.take(n).drop_last() =~= convs.take(n - 1));
    }
    if n == convs.len() {
        assert(convs.take(n) =~= convs);
    }
}

/// The index of the conversation with hash `id`.
fn find_conversation(convs: &[&Conversation], id: i32) -> (res: Option<usize>)
    requires
        hashes_distinct(convs@),
    ensures
        res is None <==> !has_conversation(convs@, id),
        res matches Some(i) ==> i < convs@.len() && *convs@[i as int] == conversation_for(convs@, id),
{
    let n = convs.len();
    let mut i: usize = 0;
    while i < n
        invariant
            n == convs@.len(),
            i <= n,
            hashes_distinct(convs@),
            forall|j: int| 0 <= j < i ==> (#[trigger] convs@[j]).hash != id,
        decreases n - i,
    {
        if convs[i].hash == id {
            proof {
                assert(convs@[i as int].hash == id);
                let c = choose|j: int| 0 <= j < convs@.len() && #[trigger] convs@[j].hash == id;
                assert(0 <= c < convs@.len() && convs@[c].hash == id);
                if c != i {
                    assert(convs@[c].hash != convs@[i as int].hash);
                }
                assert(c == i);
            }
            return Some(i);
        }
        i = i + 1;
    }
    None
}

/// Whether the first hour of a histogram is all zeros.
fn leading_hour_zero(all: &Vec<u16>) -> (res: bool)
    requires
        all@.len() >= 60,
    ensures
        res == forall|x: int| 0 <= x < 60 ==> #[trigger] all@[x] == 0,
{
    let mut j: usize = 0;
    while j < 60
        invariant
            j <= 60 <= all@.len(),
            forall|x: int| 0 <= x < j ==> #[trigger] all@[x] == 0,
        decreases 60 - j,
    {
        if all[j] != 0 {
            return false;
        }
        j = j + 1;
    }
    true
}

/// `nonzero_end` of the histogram after its leading hour.
fn rest_nonzero_end(all: &Vec<u16>) -> (res: usize)
    requires
        all@.len() >= 60,
    ensures
        res == nonzero_end(all@.subrange(60, all@.len() as int)),
        res <= all@.len() - 60,
{
    let n = all.len();
    let mut j: usize = n;
    while j > 60
        invariant
            60 <= j <= n,
            n == all@.len(),
            nonzero_end(all@.subrange(60, n as int)) == nonzero_end(all@.subrange(60, j as int)),
        decreases j,
    {
        assert(all@.subrange(60, j as int).drop_last() =~= all@.subrange(60, j - 1));
        if all[j - 1] > 0 {
            return j - 60;
        }
        j = j - 1;
    }
    0
}

/// The states `v[lo..hi]`, copied.
fn copy_states(v: &Vec<State>, lo: usize, hi: usize) -> (res: Vec<State>)
    requires
        lo <= hi <= v@.len(),
    ensures
        res@ == v@.subrange(lo as int, hi as int),
{
    let mut out: Vec<State> = Vec::new();
    let mut i: usize = lo;
    while i < hi
        invariant
            lo <= i <= hi <= v@.len(),
            out@ == v@.subrange(lo as int, i as int),
        decreases hi - i,
    {
        out.push(v[i]);
        i = i + 1;
        assert(out@ =~= v@.subrange(lo as int, i as int));
    }
    out
}

/// Takes a Stats struct, and the conversations the user is in (no two with
/// the same hash), returns the labeled messages and a count of messages
/// received while idle; `None` where the stats do not fit the conversations.
pub fn stats_to_labeled(stats: &Stats, conversations: &[&Conversation]) -> (res: Option<(Vec<LabeledMessage>, usize)>)
    requires
        hashes_distinct(conversations@),
        forall|i: int| 0 <= i < conversations@.len() ==> dates_ok(#[trigger] conversations@[i].messages@),
    ensures
        match (res, labeled_result(*stats, conversations@)) {
            (Some(r), Some(x)) => r.0@ == x.0 && r.1 == x.1,
            (None, None) => true,
            _ => false,
        },
        res matches Some(r) ==> all_spans_ok(r.0@),
{
    let user = stats.user_stats.user;
    let mut received: usize = match count_received(conversations, user) {
        Some(t) => t,
        None => return None,
    };
    let ghost total = received as nat;
    let ghost s = *stats;
    let ghost convs = conversations@;
    let runs = &stats.user_stats.data_runs;
    let n = runs.len();
    let mut labels: Vec<LabeledMessage> = Vec::new();
    let mut i: usize = 0;
    let mut k: usize = 0;
    while k < n
        invariant
            s == *stats,
            convs == conversations@,
            hashes_distinct(convs),
            forall|j: int| 0 <= j < convs.len() ==> dates_ok(#[trigger] convs[j].messages@),
            total == received_total(convs, s.user_stats.user),
            total <= usize::MAX,
            user == s.user_stats.user,
            n == s.user_stats.data_runs@.len(),
            runs == &stats.user_stats.data_runs,
            k <= n,
            i == run_offset(s.user_stats.data_runs@, k as int),
            received <= total,
            runs_result(s, convs, k as int) == Some((labels@, (total - received) as nat)),
            all_spans_ok(labels@),
        decreases n - k,
    {
        let run = &runs[k];
        let all = &run.minute_counters;
        let len = all.len();
        let slen = stats.states.len();
        let ghost r = s.user_stats.data_runs@[k as int];
        assert(*run == r);
        let pre_ok = len >= 60 && leading_hour_zero(all);
        if !pre_ok {
            proof {
                assert(!run_pre_ok(s, convs, k as int));
                lemma_runs_result_monotone(s, convs, k + 1, n as int);
            }
            return None;
        }
        let e = rest_nonzero_end(all);
        assert(e == nonzero_end(run_rest(r)));
        assert(slen == s.states@.len());
        if e == 0 || (len - 60) - e > 60 || i > slen || slen - i < 60 || slen - i - 60 < e {
            proof {
                assert(run_rest(r).len() == len - 60);
                assert(run_offset(s.user_stats.data_runs@, k as int) == i);
                assert(e == 0 || run_rest(r).len() - e > 60 || i + 60 + e > s.states@.len());
                assert(!run_pre_ok(s, convs, k as int));
                lemma_runs_result_monotone(s, convs, k + 1, n as int);
            }
            return None;
        }
        let lower = i + 60;
        let upper = lower + e;
        let ci = match find_conversation(conversations, run.conversation_id) {
            Some(ci) => ci,
            None => {
                proof {
                    assert(!run_pre_ok(s, convs, k as int));
                    lemma_runs_result_monotone(s, convs, k + 1, n as int);
                }
                return None;
            },
        };
        let c: &Conversation = conversations[ci];
        if run.first_message >= c.messages.len() {
            proof {
                assert(!run_pre_ok(s, convs, k as int));
                lemma_runs_result_monotone(s, convs, k + 1, n as int);
            }
            return None;
        }
        let minutes = copy_range(all, 60, 60 + e);
        let states_k = copy_states(&stats.states, lower, upper);
        proof {
            assert(run_pre_ok(s, convs, k as int));
            assert(minutes@ =~= run_rest(r).take(e as int));
            assert(dates_ok(convs[ci as int].messages@));
        }
        let ghost before = labels@;
        let ghost received_before = received;
        let ok = scan_run(c, user, minutes.as_slice(), states_k.as_slice(), run.first_message, &mut labels, &mut received);
        proof {
            let ctx = run_ctx(s, convs, k as int);
            assert(ctx == scan_ctx(*c, user, minutes@, states_k@, run.first_message as int));
        }
        if !ok {
            proof {
                lemma_runs_result_monotone(s, convs, k + 1, n as int);
            }
            return None;
        }
        i = len;
        k = k + 1;
    }
    Some((labels, received))
}

} // verus!

verus! {

/// Seconds in an hour.
pub const HOUR_AS_SECONDS: i64 = 60 * 60;

/// A probability, given as what it is computed from.
#[derive(Debug, Clone, Copy, PartialEq, Eq, Structural)]
pub enum Probability {
    /// The first count divided by the second (which is not zero).
    Ratio(usize, usize),
    Zero,
    One,
}

/// The distributions written for a user.
#[derive(Debug, Clone, PartialEq, Eq)]
pub struct UserDists {
    /// Seconds an idle user waits to send (I).
    pub idle: Vec<i64>,
    /// Seconds an active user waits before turning idle (W).
    pub active: Vec<i64>,
    /// Seconds an active user waits to send after sending (A_s).
    pub a_s: Vec<i64>,
    /// Seconds an active user waits to send after receiving (A_r).
    pub a_r: Vec<i64>,
    /// Whether sending while idle makes the user active (S).
    pub s: Probability,
    /// Whether receiving while idle makes the user active (R).
    pub r: Probability,
    /// Whether any of these comes from the user's data rather than a default.
    pub real_data: bool,
}

/// A list, or `default` alone where it is empty.
pub open spec fn or_default(l: Seq<i64>, default: i64) -> Seq<i64> {
    if l.len() == 0 {
        seq![default]
    } else {
        l
    }
}

/// `l`, or `default` alone where `l` is empty; and whether `l` was not empty.
fn nonempty_or(l: Vec<i64>, default: i64) -> (res: (Vec<i64>, bool))
    ensures
        res.0@ == or_default(l@, default),
        res.1 == (l@.len() > 0),
{
    if l.len() == 0 {
        let mut v: Vec<i64> = Vec::new();
        v.push(default);
        assert(v@ =~= seq![default]);
        (v, false)
    } else {
        (l, true)
    }
}

/// The distributions of a user from their labelled messages and the count of
/// messages they received while idle: each list of times falls back to a
/// default where the data give none (an hour, except 0 for W); S is the
/// fraction of transitions that went Active (0 where there are none); R is
/// the fraction of idle received messages that made the user Active (1 where
/// none were received or all did).
pub fn user_dists(labeled: &[LabeledMessage], idle_received: usize) -> (res: UserDists)
    requires
        all_spans_ok(labeled@),
    ensures
        res.idle@ == or_default(idle_iit_list(labeled@), HOUR_AS_SECONDS),
        res.active@ == or_default(stretch_maxima(labeled@), 0),
        res.a_s@ == or_default(active_iit_list(labeled@, Direction::Sent), HOUR_AS_SECONDS),
        res.a_r@ == or_default(active_iit_list(labeled@, Direction::Received), HOUR_AS_SECONDS),
        ({
            let t = count_where(labeled@, |m: LabeledMessage| is_send_transition(m));
            let i = count_where(labeled@, |m: LabeledMessage| is_idle_sent(m));
            res.s == if i != 0 && t != 0 {
                Probability::Ratio(t as usize, i as usize)
            } else {
                Probability::Zero
            }
        }),
        ({
            let c = count_where(labeled@, |m: LabeledMessage| is_receive_transition(m));
            res.r == if idle_received != 0 && c != idle_received {
                Probability::Ratio(c as usize, idle_received)
            } else {
                Probability::One
            }
        }),
        res.real_data == (idle_iit_list(labeled@).len() > 0 || stretch_maxima(labeled@).len() > 0
            || active_iit_list(labeled@, Direction::Sent).len() > 0 || active_iit_list(
            labeled@,
            Direction::Received,
        ).len() > 0 || (count_where(labeled@, |m: LabeledMessage| is_idle_sent(m)) != 0 && count_where(
            labeled@,
            |m: LabeledMessage| is_send_transition(m),
        ) != 0) || (idle_received != 0 && count_where(
            labeled@,
            |m: LabeledMessage| is_receive_transition(m),
        ) != idle_received && count_where(labeled@, |m: LabeledMessage| is_receive_transition(m))
            != 0)),
{
    let (idle, real_i) = nonempty_or(idle_iits(labeled), HOUR_AS_SECONDS);
    let (active, real_w) = nonempty_or(active_iits(labeled), 0);
    let (a_s, real_as) = nonempty_or(sent_sent_iits(labeled), HOUR_AS_SECONDS);
    let (a_r, real_ar) = nonempty_or(received_sent_iits(labeled), HOUR_AS_SECONDS);
    let (transition, idle_sent) = send_transition_counts(labeled);
    let (s, real_s) = if idle_sent != 0 && transition != 0 {
        (Probability::Ratio(transition, idle_sent), true)
    } else {
        (Probability::Zero, false)
    };
    let r_count = receive_transition_count(labeled);
    let (r, real_r) = if idle_received != 0 && r_count != idle_received {
        (Probability::Ratio(r_count, idle_received), r_count != 0)
    } else {
        (Probability::One, false)
    };
    let real_data = real_i || real_w || real_as || real_ar || real_s || real_r;
    UserDists { idle, active, a_s, a_r, s, r, real_data }
}

} // verus!

verus! {

/// The fraction of transitions that went Active is a probability: there are
/// no more transitions into Active than transitions.
pub proof fn lemma_send_fraction_at_most_one(ms: Seq<LabeledMessage>)
    ensures
        count_where(ms, |m: LabeledMessage| is_send_transition(m)) <= count_where(
            ms,
            |m: LabeledMessage| is_idle_sent(m),
        ),
    decreases ms.len(),
{
    if ms.len() > 0 {
        lemma_send_fraction_at_most_one(ms.drop_last());
    }
}

} // verus!

verus! {

/// `u16`s written as a list read back as `u16` fields.
proof fn lemma_read_u16s(xs: Seq<u16>)
    requires
        xs.len() > 0,
    ensures
        fields_u16(ascii(join_commas(decimals(xs)))) == Some(xs),
        list_chars(join_commas(decimals(xs))),
{
    let parts = decimals(xs);
    assert forall|k: int| 0 <= k < parts.len() implies list_chars(#[trigger] parts[k]) && !parts[k].contains(',') by {
        lemma_parse_decimal(xs[k] as nat);
    }
    lemma_split_join(parts);
    let fs = split(ascii(join_commas(parts)), 44);
    assert forall|k: int| 0 <= k < fs.len() implies #[trigger] field_u16(fs[k]) == Some(xs[k]) by {
        lemma_parse_decimal(xs[k] as nat);
        assert(fs[k] == ascii(parts[k]));
    }
    assert(Seq::new(fs.len(), |k: int| field_u16(fs[k])->0) =~= xs);
}

/// `usize`s written as a list read back as `usize` fields.
proof fn lemma_read_usizes(xs: Seq<usize>)
    requires
        xs.len() > 0,
    ensures
        fields_usize(ascii(join_commas(decimals(xs)))) == Some(xs),
        split(ascii(join_commas(decimals(xs))), 44).len() == xs.len(),
        list_chars(join_commas(decimals(xs))),
{
    let parts = decimals(xs);
    assert forall|k: int| 0 <= k < parts.len() implies list_chars(#[trigger] parts[k]) && !parts[k].contains(',') by {
        lemma_parse_decimal(xs[k] as nat);
    }
    lemma_split_join(parts);
    let fs = split(ascii(join_commas(parts)), 44);
    assert forall|k: int| 0 <= k < fs.len() implies #[trigger] field_usize(fs[k]) == Some(xs[k]) by {
        lemma_parse_decimal(xs[k] as nat);
        assert(fs[k] == ascii(parts[k]));
    }
    assert(Seq::new(fs.len(), |k: int| field_usize(fs[k])->0) =~= xs);
}

/// `i32`s written as a list read back, field by field, as `i32`s.
proof fn lemma_read_i32s(xs: Seq<i32>)
    requires
        xs.len() > 0,
    ensures
        split(ascii(join_commas(decimals(xs))), 44).len() == xs.len(),
        forall|k: int|
            0 <= k < xs.len() ==> #[trigger] field_i32(split(ascii(join_commas(decimals(xs))), 44)[k]) == Some(
                xs[k],
            ),
        list_chars(join_commas(decimals(xs))),
{
    let parts = decimals(xs);
    assert forall|k: int| 0 <= k < parts.len() implies list_chars(#[trigger] parts[k]) && !parts[k].contains(',') by {
        lemma_parse_signed_decimal(xs[k] as int);
    }
    lemma_split_join(parts);
    let fs = split(ascii(join_commas(parts)), 44);
    assert forall|k: int| 0 <= k < xs.len() implies #[trigger] field_i32(fs[k]) == Some(xs[k]) by {
        lemma_parse_signed_decimal(xs[k] as int);
        assert(fs[k] == ascii(parts[k]));
    }
}

/// The lengths of the first `k` runs add up to the length of their histograms.
proof fn lemma_lens_sum_runs(runs: Seq<DataRun>, k: int)
    requires
        0 <= k <= runs.len(),
    ensures
        lens_sum(run_lens(runs), k) == run_counters(runs.take(k)).len(),
    decreases k,
{
    if k == 0 {
        assert(runs.take(0) =~= Seq::<DataRun>::empty());
    } else {
        lemma_lens_sum_runs(runs, k - 1);
        assert(runs.take(k).drop_last() =~= runs.take(k - 1));
        assert(runs.take(k).last() == runs[k - 1]);
        let c = runs[k - 1].minute_counters;
        assert(c@.len() == c.len());
        assert(run_lens(runs)[k - 1] == c@.len());
    }
}

/// The histograms of the first `k` runs begin those of the first `m >= k` runs.
proof fn lemma_run_counters_prefix(runs: Seq<DataRun>, k: int, m: int)
    requires
        0 <= k <= m <= runs.len(),
    ensures
        run_counters(runs.take(m)).take(run_counters(runs.take(k)).len() as int) == run_counters(runs.take(k)),
    decreases m - k,
{
    if k == m {
        assert(run_counters(runs.take(m)).take(run_counters(runs.take(k)).len() as int) =~= run_counters(
            runs.take(k),
        ));
    } else {
        lemma_run_counters_prefix(runs, k, m - 1);
        assert(runs.take(m).drop_last() =~= runs.take(m - 1));
        let a = run_counters(runs.take(m - 1));
        let l = run_counters(runs.take(k)).len() as int;
        lemma_run_counters_len_grows(runs, k, m - 1);
        assert((a + runs[m - 1].minute_counters@).take(l) =~= a.take(l));
    }
}

/// More runs have no shorter histograms.
proof fn lemma_run_counters_len_grows(runs: Seq<DataRun>, k: int, m: int)
    requires
        0 <= k <= m <= runs.len(),
    ensures
        run_counters(runs.take(k)).len() <= run_counters(runs.take(m)).len(),
    decreases m - k,
{
    if k < m {
        lemma_run_counters_len_grows(runs, k, m - 1);
        assert(runs.take(m).drop_last() =~= runs.take(m - 1));
    }
}

/// Run `k`'s histogram is where the lengths say it is in the concatenated histograms.
proof fn lemma_run_slice(runs: Seq<DataRun>, k: int)
    requires
        0 <= k < runs.len(),
    ensures
        run_counters(runs).subrange(
            lens_sum(run_lens(runs), k) as int,
            lens_sum(run_lens(runs), k + 1) as int,
        ) == runs[k].minute_counters@,
        lens_sum(run_lens(runs), k + 1) <= run_counters(runs).len(),
{
    let n = runs.len() as int;
    lemma_lens_sum_runs(runs, k);
    lemma_lens_sum_runs(runs, k + 1);
    lemma_run_counters_prefix(runs, k + 1, n);
    lemma_run_counters_len_grows(runs, k + 1, n);
    assert(runs.take(n) =~= runs);
    assert(runs.take(k + 1).drop_last() =~= runs.take(k));
    let whole = run_counters(runs);
    let a = run_counters(runs.take(k));
    let b = run_counters(runs.take(k + 1));
    assert(b == a + runs[k].minute_counters@);
    assert(whole.take(b.len() as int) == b);
    assert(whole.subrange(a.len() as int, b.len() as int) =~= b.subrange(a.len() as int, b.len() as int));
    assert(b.subrange(a.len() as int, b.len() as int) =~= runs[k].minute_counters@);
}

/// The bytes of a stats file written for `runs`, followed by a line of
/// states and, where `end`, a newline.
pub open spec fn stats_file_bytes(runs: Seq<DataRun>, states_line: Seq<u8>, end: bool) -> Seq<u8> {
    vstd::utf8::encode_utf8(stats_text(runs)) + states_line + line_end(end)
}

/// Whether `s` holds `u`'s user, and run by run `u`'s histograms,
/// conversation ids and first messages, and the states of `states_line`.
pub open spec fn same_stats(s: Stats, u: UserStats, states_line: Seq<u8>) -> bool {
    let runs = s.user_stats.data_runs@;
    &&& s.user_stats.user == u.user
    &&& s.states@ == states_of(states_line)
    &&& runs.len() == u.data_runs@.len()
    &&& forall|k: int|
        0 <= k < runs.len() ==> {
            &&& (#[trigger] runs[k]).minute_counters@ == u.data_runs@[k].minute_counters@
            &&& runs[k].conversation_id == u.data_runs@[k].conversation_id
            &&& runs[k].first_message == u.data_runs@[k].first_message
        }
}

/// A stats file as `counters_file` writes it for `u`, followed by a line of
/// states (ended by a newline where `end`, and not empty where not), reads
/// back as `u`'s runs and those states: what `parse_stats_file` gives for it
/// (`res`) is `Some`, with `u`'s user and, run by run, `u`'s histograms,
/// conversation ids and first messages.
pub proof fn lemma_stats_read_back(u: UserStats, states_line: Seq<u8>, end: bool, res: Option<Stats>)
    requires
        u.data_runs@.len() > 0,
        run_counters(u.data_runs@).len() > 0,
        forall|i: int| 0 <= i < states_line.len() ==> #[trigger] states_line[i] != 10 && states_line[i] != 13,
        end || states_line.len() > 0,
        res is Some <==> stats_file_ok(lines(stats_file_bytes(u.data_runs@, states_line, end))),
        res matches Some(s) ==> stats_hold(s, u.user, lines(stats_file_bytes(u.data_runs@, states_line, end))),
    ensures
        res matches Some(s) && same_stats(s, u, states_line),
{
    let runs = u.data_runs@;
    let n = runs.len() as int;
    let counters = run_counters(runs);
    let lens = run_lens(runs);
    let convos = run_convos(runs);
    let firsts = run_firsts(runs);
    lemma_read_u16s(counters);
    lemma_read_usizes(lens);
    lemma_read_i32s(convos);
    lemma_read_usizes(firsts);
    let j = seq![
        join_commas(decimals(counters)),
        join_commas(decimals(lens)),
        join_commas(decimals(convos)),
        join_commas(decimals(firsts)),
    ];
    assert forall|k: int| 0 <= k < 4 implies list_chars(#[trigger] j[k]) by {}
    lemma_five_lines(j, states_line, end);
    assert(stats_text(runs) =~= j[0] + seq!['\n'] + j[1] + seq!['\n'] + j[2] + seq!['\n'] + j[3] + seq!['\n']);
    let ls = lines(stats_file_bytes(runs, states_line, end));
    assert(ls == seq![ascii(j[0]), ascii(j[1]), ascii(j[2]), ascii(j[3]), states_line]);
    lemma_lens_sum_runs(runs, n);
    assert(runs.take(n) =~= runs);
    assert forall|k: int| 0 <= k < n implies (#[trigger] field_usize(split(ls[3], 44)[k])) is Some
        && field_usize(split(ls[3], 44)[k])->0 == runs[k].first_message by {
        assert(firsts[k] == runs[k].first_message);
    }
    assert forall|k: int| 0 <= k < n implies (#[trigger] field_i32(split(ls[2], 44)[k])) is Some
        && field_i32(split(ls[2], 44)[k])->0 == runs[k].conversation_id by {
        assert(convos[k] == runs[k].conversation_id);
    }
    assert(stats_file_ok(ls));
    let s = res->0;
    assert forall|k: int| 0 <= k < n implies {
        &&& (#[trigger] s.user_stats.data_runs@[k]).minute_counters@ == runs[k].minute_counters@
        &&& s.user_stats.data_runs@[k].conversation_id == runs[k].conversation_id
        &&& s.user_stats.data_runs@[k].first_message == runs[k].first_message
    } by {
        lemma_run_slice(runs, k);
        assert(field_i32(split(ls[2], 44)[k])->0 == runs[k].conversation_id);
        assert(field_usize(split(ls[3], 44)[k])->0 == runs[k].first_message);
    }
}

} // verus!
