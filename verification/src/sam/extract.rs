//! Per-user histograms of messages per minute.
use vstd::prelude::*;

use crate::text::{decimals, format_list, join_commas, Decimal};
use std::collections::HashMap;

verus! {

/// Identifies a user in the chat data.
pub type UserId = i32;

/// A histogram of messages per minute, separated by an hour of 0s on both ends,
/// plus data to uniquely identify the run.
#[derive(Debug, Clone, PartialEq, Eq)]
pub struct DataRun {
    pub conversation_id: i32,
    pub first_message: usize,
    pub minute_counters: Vec<u16>,
}

/// All of the runs associated with the user.
#[derive(Debug, Clone, PartialEq, Eq)]
pub struct UserStats {
    pub user: UserId,
    pub data_runs: Vec<DataRun>,
}

/// The lengths of the runs' histograms.
pub open spec fn run_lens(runs: Seq<DataRun>) -> Seq<usize> {
    runs.map_values(|r: DataRun| r.minute_counters@.len() as usize)
}

/// The runs' conversation ids.
pub open spec fn run_convos(runs: Seq<DataRun>) -> Seq<i32> {
    runs.map_values(|r: DataRun| r.conversation_id)
}

/// The runs' first messages.
pub open spec fn run_firsts(runs: Seq<DataRun>) -> Seq<usize> {
    runs.map_values(|r: DataRun| r.first_message)
}

/// The runs' histograms, one after another.
pub open spec fn run_counters(runs: Seq<DataRun>) -> Seq<u16>
    decreases runs.len(),
{
    if runs.len() == 0 {
        Seq::empty()
    } else {
        run_counters(runs.drop_last()) + runs.last().minute_counters@
    }
}

/// A list written as `format_list` writes it.
pub open spec fn list_text<T: Decimal>(items: Seq<T>) -> Seq<char> {
    join_commas(decimals(items)) + seq!['\n']
}

/// The text of a stats file for runs: the concatenated histograms, then the
/// histograms' lengths, their conversation ids, and their first messages,
/// each a comma-separated line.
pub open spec fn stats_text(runs: Seq<DataRun>) -> Seq<char> {
    list_text(run_counters(runs)) + list_text(run_lens(runs)) + list_text(run_convos(runs)) + list_text(
        run_firsts(runs),
    )
}

impl UserStats {
    /// The text of the user's stats file.
    pub fn counters_file(&self) -> (res: String)
        ensures
            res@ == stats_text(self.data_runs@),
    {
        let n = self.data_runs.len();
        let mut lens: Vec<usize> = Vec::new();
        let mut convos: Vec<i32> = Vec::new();
        let mut firsts: Vec<usize> = Vec::new();
        let mut counters: Vec<u16> = Vec::new();
        let mut i: usize = 0;
        while i < n
            invariant
                n == self.data_runs@.len(),
                i <= n,
                lens@ == run_lens(self.data_runs@.take(i as int)),
                convos@ == run_convos(self.data_runs@.take(i as int)),
                firsts@ == run_firsts(self.data_runs@.take(i as int)),
                counters@ == run_counters(self.data_runs@.take(i as int)),
            decreases n - i,
        {
            let run = &self.data_runs[i];
            lens.push(run.minute_counters.len());
            convos.push(run.conversation_id);
            firsts.push(run.first_message);
            let m = run.minute_counters.len();
            let mut j: usize = 0;
            let ghost before = counters@;
            while j < m
                invariant
                    m == run.minute_counters@.len(),
                    j <= m,
                    counters@ == before + run.minute_counters@.take(j as int),
                decreases m - j,
            {
                counters.push(run.minute_counters[j]);
                j = j + 1;
                assert(counters@ =~= before + run.minute_counters@.take(j as int));
            }
            proof {
                let t = self.data_runs@.take(i + 1);
                assert(t.drop_last() =~= self.data_runs@.take(i as int));
                assert(run.minute_counters@.take(m as int) =~= run.minute_counters@);
                assert(lens@ =~= run_lens(t));
                assert(convos@ =~= run_convos(t));
                assert(firsts@ =~= run_firsts(t));
            }
            i = i + 1;
        }
        proof {
            assert(self.data_runs@.take(n as int) =~= self.data_runs@);
        }
        let mut res = format_list(counters.as_slice());
        res.append(format_list(lens.as_slice()).as_str());
        res.append(format_list(convos.as_slice()).as_str());
        res.append(format_list(firsts.as_slice()).as_str());
        res
    }
}

} // verus!

verus! {

/// Nanoseconds in a minute and in an hour.
pub const MINUTE_NS: i128 = 60_000_000_000;

pub const HOUR_NS: i128 = 3_600_000_000_000;

/// The largest distance from the Unix epoch, in nanoseconds, of a date in the data.
pub const DATE_LIMIT_NS: i128 = 0x1_0000_0000_0000_0000_0000;

/// A message in a recorded conversation. `date` is in nanoseconds since the Unix epoch.
#[derive(Debug, Clone, Copy, PartialEq, Eq, Structural)]
pub struct Message {
    pub date: i128,
    pub user: UserId,
    pub char_count: i32,
    pub emoji_count: u32,
}

/// A recorded conversation. Dates are in nanoseconds since the Unix epoch.
#[derive(Debug, Clone, PartialEq, Eq)]
pub struct Conversation {
    pub hash: i32,
    pub date_last_message: i128,
    pub user_count: usize,
    pub messages: Vec<Message>,
}

/// The whole minutes in a span of `d` nanoseconds, rounded toward zero.
pub open spec fn whole_minutes(d: int) -> int {
    if d >= 0 {
        d / (MINUTE_NS as int)
    } else {
        -((-d) / (MINUTE_NS as int))
    }
}

/// The index in a histogram of a message `d` nanoseconds after the histogram's
/// start: its whole minutes, as a `usize` (a negative span wraps to a large index).
pub open spec fn minute_index(d: int) -> nat {
    (whole_minutes(d) as usize) as nat
}

/// `n` zeros.
pub open spec fn zeros(n: nat) -> Seq<int> {
    Seq::new(n, |i: int| 0int)
}

/// A histogram with one more message at minute `m`, grown with zeros to reach it.
pub open spec fn bump(c: Seq<int>, m: nat) -> Seq<int> {
    let c2 = if m >= c.len() {
        c + zeros((m + 1 - c.len()) as nat)
    } else {
        c
    };
    c2.update(m as int, c2[m as int] + 1)
}

/// A run of a user's histogram, as numbers.
pub struct RunState {
    pub conversation_id: i32,
    pub first_message: nat,
    pub counters: Seq<int>,
}

/// What processing a conversation knows of a user so far: where the current
/// run's histogram starts, when the user last sent, and the runs.
pub struct UserState {
    pub start: int,
    pub last: int,
    pub runs: Seq<RunState>,
}

/// The state of a user first seen sending message `i` at `date`: a run
/// starting an hour before the message.
pub open spec fn new_user(date: int, i: nat, hash: i32) -> UserState {
    UserState {
        start: date - HOUR_NS,
        last: date,
        runs: seq![RunState { conversation_id: hash, first_message: i, counters: zeros(60) }],
    }
}

/// Whether a message at `date` starts a new run: it comes more than two hours
/// after the user's previous message, or its minute lies more than two hours
/// past the end of the current run's histogram (as it does for a message
/// dated before the run's start, whose minute wraps around).
pub open spec fn starts_run(st: UserState, date: int) -> bool {
    ||| date - st.last > 2 * HOUR_NS
    ||| st.runs.last().counters.len() + 120 < minute_index(date - st.start)
}

/// A user's state after they sent message `i` at `date`. A message that
/// starts a new run closes the current one with an hour of zeros and starts
/// the new one an hour before the message.
pub open spec fn user_step(st: UserState, i: nat, date: int, hash: i32) -> UserState {
    let mm = minute_index(date - st.start);
    let run = st.runs.last();
    if starts_run(st, date) {
        let closed = RunState { counters: run.counters + zeros(60), ..run };
        let fresh = RunState { conversation_id: hash, first_message: i, counters: bump(zeros(60), 60) };
        UserState { start: date - HOUR_NS, last: date, runs: st.runs.drop_last().push(closed).push(fresh) }
    } else {
        UserState {
            start: st.start,
            last: date,
            runs: st.runs.drop_last().push(RunState { counters: bump(run.counters, mm), ..run }),
        }
    }
}

/// The users' states after the first `k` messages.
pub open spec fn users_after(msgs: Seq<Message>, hash: i32, k: nat) -> Map<UserId, UserState>
    decreases k,
{
    if k == 0 || k > msgs.len() {
        Map::empty()
    } else {
        let prev = users_after(msgs, hash, (k - 1) as nat);
        let m = msgs[k - 1];
        let st = if prev.contains_key(m.user) {
            prev[m.user]
        } else {
            new_user(m.date as int, (k - 1) as nat, hash)
        };
        prev.insert(m.user, user_step(st, (k - 1) as nat, m.date as int, hash))
    }
}

/// A user's runs once the conversation is over: the last run is followed by
/// another hour of zeros, or zeros up to the conversation's last message if that is sooner.
pub open spec fn finish_runs(st: UserState, date_last_message: int) -> Seq<RunState> {
    let end = if st.last + HOUR_NS <= date_last_message {
        st.last + HOUR_NS
    } else {
        date_last_message
    };
    let run = st.runs.last();
    st.runs.update(
        st.runs.len() - 1,
        RunState { counters: run.counters + zeros(minute_index(end - st.last)), ..run },
    )
}

/// Histogram counts as numbers.
pub open spec fn ints(c: Seq<u16>) -> Seq<int> {
    c.map_values(|x: u16| x as int)
}

/// Whether a data run holds the numbers of a run state.
pub open spec fn run_holds(r: DataRun, s: RunState) -> bool {
    &&& r.conversation_id == s.conversation_id
    &&& r.first_message == s.first_message
    &&& ints(r.minute_counters@) == s.counters
}

/// Whether data runs hold the numbers of run states.
pub open spec fn runs_hold(rs: Seq<DataRun>, ss: Seq<RunState>) -> bool {
    &&& rs.len() == ss.len()
    &&& forall|r: int| 0 <= r < ss.len() ==> run_holds(#[trigger] rs[r], ss[r])
}

/// Whether every histogram count of a user stays within a `u16`.
pub open spec fn counts_fit(st: UserState) -> bool {
    forall|r: int, x: int|
        0 <= r < st.runs.len() && 0 <= x < st.runs[r].counters.len() ==> #[trigger] st.runs[r].counters[x]
            <= u16::MAX
}

/// Whether `u` sent a message in `c`.
pub open spec fn sends_in(c: Conversation, u: UserId) -> bool {
    exists|i: int| 0 <= i < c.messages@.len() && #[trigger] c.messages@[i].user == u
}

/// Whether some of `stats` are `u`'s.
pub open spec fn has_stats_for(stats: Seq<UserStats>, u: UserId) -> bool {
    exists|j: int| 0 <= j < stats.len() && #[trigger] stats[j].user == u
}

/// The users' states once every message of a conversation is processed.
pub open spec fn final_users(c: Conversation) -> Map<UserId, UserState> {
    users_after(c.messages@, c.hash, c.messages@.len())
}

/// The conditions under which processing a conversation does not fail: dates
/// within range, histogram counts within a `u16`, and no user's last message
/// a minute or more after the conversation's last message.
pub open spec fn conversation_ok(c: Conversation) -> bool {
    let msgs = c.messages@;
    let users = users_after(msgs, c.hash, msgs.len());
    &&& -DATE_LIMIT_NS <= c.date_last_message <= DATE_LIMIT_NS
    &&& forall|i: int| 0 <= i < msgs.len() ==> -DATE_LIMIT_NS <= #[trigger] msgs[i].date <= DATE_LIMIT_NS
    &&& forall|u: UserId| #[trigger] users.contains_key(u) ==> counts_fit(users[u])
    &&& forall|u: UserId| #[trigger] users.contains_key(u) ==> c.date_last_message - users[u].last > -MINUTE_NS
}

} // verus!

verus! {

/// Whether a user's state has runs and dates within range.
pub open spec fn user_wf(st: UserState) -> bool {
    &&& st.runs.len() >= 1
    &&& -DATE_LIMIT_NS - HOUR_NS <= st.start <= DATE_LIMIT_NS
    &&& -DATE_LIMIT_NS <= st.last <= DATE_LIMIT_NS
}

/// Whether every message date is within range.
pub open spec fn dates_ok(msgs: Seq<Message>) -> bool {
    forall|i: int| 0 <= i < msgs.len() ==> -DATE_LIMIT_NS <= #[trigger] msgs[i].date <= DATE_LIMIT_NS
}

/// Whether `b` has every run and count of `a`, each count at least as large.
pub open spec fn dominates(b: UserState, a: UserState) -> bool {
    &&& b.runs.len() >= a.runs.len()
    &&& forall|r: int|
        0 <= r < a.runs.len() ==> (#[trigger] b.runs[r]).counters.len() >= a.runs[r].counters.len()
    &&& forall|r: int, x: int|
        0 <= r < a.runs.len() && 0 <= x < a.runs[r].counters.len() ==> a.runs[r].counters[x]
            <= #[trigger] b.runs[r].counters[x]
}

proof fn lemma_dominates_trans(a: UserState, b: UserState, c: UserState)
    requires
        dominates(b, a),
        dominates(c, b),
    ensures
        dominates(c, a),
{
    assert forall|r: int, x: int|
        0 <= r < a.runs.len() && 0 <= x < a.runs[r].counters.len() implies a.runs[r].counters[x]
        <= #[trigger] c.runs[r].counters[x] by {
        assert(a.runs[r].counters[x] <= b.runs[r].counters[x]);
    }
    assert forall|r: int| 0 <= r < a.runs.len() implies (#[trigger] c.runs[r]).counters.len()
        >= a.runs[r].counters.len() by {
        assert(b.runs[r].counters.len() >= a.runs[r].counters.len());
    }
}

proof fn lemma_dominates_refl(a: UserState)
    ensures
        dominates(a, a),
{
}

proof fn lemma_fits_dominated(a: UserState, b: UserState)
    requires
        dominates(b, a),
        counts_fit(b),
    ensures
        counts_fit(a),
{
    assert forall|r: int, x: int|
        0 <= r < a.runs.len() && 0 <= x < a.runs[r].counters.len() implies #[trigger] a.runs[r].counters[x]
        <= u16::MAX by {
        assert(a.runs[r].counters[x] <= b.runs[r].counters[x]);
        assert(b.runs[r].counters.len() >= a.runs[r].counters.len());
    }
}

/// A step only adds runs and counts.
proof fn lemma_step_dominates(st: UserState, i: nat, date: int, hash: i32)
    requires
        st.runs.len() >= 1,
    ensures
        dominates(user_step(st, i, date, hash), st),
        user_step(st, i, date, hash).runs.len() >= 1,
{
    let next = user_step(st, i, date, hash);
    let mm = minute_index(date - st.start);
    let run = st.runs.last();
    let n = st.runs.len();
    assert forall|r: int, x: int|
        0 <= r < n && 0 <= x < st.runs[r].counters.len() implies st.runs[r].counters[x]
        <= #[trigger] next.runs[r].counters[x] by {
        if r == n - 1 {
            if starts_run(st, date) {
                assert(next.runs[r].counters == run.counters + zeros(60));
            } else {
                let c = run.counters;
                let c2 = if mm >= c.len() {
                    c + zeros((mm + 1 - c.len()) as nat)
                } else {
                    c
                };
                assert(c2[x] == c[x]);
            }
        }
    }
}

/// Facts about the users' states after `k` messages.
proof fn lemma_users_after(msgs: Seq<Message>, hash: i32, k: nat)
    requires
        k <= msgs.len(),
        dates_ok(msgs),
    ensures
        forall|u: UserId| #[trigger] users_after(msgs, hash, k).contains_key(u) ==> user_wf(
            users_after(msgs, hash, k)[u],
        ),
        forall|i: int| 0 <= i < k ==> users_after(msgs, hash, k).contains_key(#[trigger] msgs[i].user),
        forall|u: UserId| #[trigger] users_after(msgs, hash, k).contains_key(u) ==> exists|i: int|
            0 <= i < k && #[trigger] msgs[i].user == u,
    decreases k,
{
    if k > 0 {
        lemma_users_after(msgs, hash, (k - 1) as nat);
        let prev = users_after(msgs, hash, (k - 1) as nat);
        let m = msgs[k - 1];
        let st = if prev.contains_key(m.user) {
            prev[m.user]
        } else {
            new_user(m.date as int, (k - 1) as nat, hash)
        };
        lemma_step_dominates(st, (k - 1) as nat, m.date as int, hash);
        let cur = users_after(msgs, hash, k);
        assert forall|u: UserId| #[trigger] cur.contains_key(u) implies exists|i: int|
            0 <= i < k && #[trigger] msgs[i].user == u by {
            if u != m.user {
                let i = choose|i: int| 0 <= i < k - 1 && #[trigger] msgs[i].user == u;
                assert(msgs[i].user == u);
            } else {
                assert(msgs[k - 1].user == u);
            }
        }
    }
}

/// The states after `k` messages are dominated by those after `n >= k` messages.
proof fn lemma_users_after_grow(msgs: Seq<Message>, hash: i32, k: nat, n: nat)
    requires
        k <= n <= msgs.len(),
        dates_ok(msgs),
    ensures
        forall|u: UserId| #[trigger] users_after(msgs, hash, k).contains_key(u) ==> users_after(
            msgs,
            hash,
            n,
        ).contains_key(u) && dominates(users_after(msgs, hash, n)[u], users_after(msgs, hash, k)[u]),
    decreases n - k,
{
    if k < n {
        lemma_users_after_grow(msgs, hash, (k + 1) as nat, n);
        lemma_users_after(msgs, hash, k);
        let a = users_after(msgs, hash, k);
        let b = users_after(msgs, hash, (k + 1) as nat);
        let c = users_after(msgs, hash, n);
        assert forall|u: UserId| #[trigger] a.contains_key(u) implies c.contains_key(u) && dominates(
            c[u],
            a[u],
        ) by {
            let m = msgs[k as int];
            if u == m.user {
                lemma_step_dominates(a[u], k, m.date as int, hash);
            } else {
                lemma_dominates_refl(a[u]);
            }
            assert(b.contains_key(u) && dominates(b[u], a[u]));
            lemma_dominates_trans(a[u], b[u], c[u]);
        }
    } else {
        assert forall|u: UserId| #[trigger] users_after(msgs, hash, k).contains_key(u) implies dominates(
            users_after(msgs, hash, n)[u],
            users_after(msgs, hash, k)[u],
        ) by {
            lemma_dominates_refl(users_after(msgs, hash, k)[u]);
        }
    }
}

} // verus!

verus! {

/// A user's state while a conversation is processed.
struct ProcStats {
    start: i128,
    last: i128,
    data_runs: Vec<DataRun>,
}

/// Whether `ps` holds the numbers of `st`.
spec fn proc_holds(ps: ProcStats, st: UserState) -> bool {
    &&& ps.start == st.start
    &&& ps.last == st.last
    &&& runs_hold(ps.data_runs@, st.runs)
}

/// `whole_minutes` for dates within range.
pub(crate) fn whole_minutes_of(d: i128) -> (res: i128)
    requires
        -4 * DATE_LIMIT_NS <= d <= 4 * DATE_LIMIT_NS,
    ensures
        res == whole_minutes(d as int),
{
    if d >= 0 {
        d / MINUTE_NS
    } else {
        -((-d) / MINUTE_NS)
    }
}

/// `n` zero counts.
fn zero_counters(n: usize) -> (res: Vec<u16>)
    ensures
        ints(res@) == zeros(n as nat),
{
    let mut v: Vec<u16> = Vec::new();
    append_zeros(&mut v, n);
    assert(ints(v@) =~= zeros(n as nat));
    v
}

/// Append `n` zero counts.
fn append_zeros(v: &mut Vec<u16>, n: usize)
    ensures
        ints(final(v)@) == ints(old(v)@) + zeros(n as nat),
{
    let ghost start = v@;
    let mut i: usize = 0;
    while i < n
        invariant
            i <= n,
            v@ == start + Seq::new(i as nat, |k: int| 0u16),
        decreases n - i,
    {
        v.push(0u16);
        i = i + 1;
        assert(v@ =~= start + Seq::new(i as nat, |k: int| 0u16));
    }
    assert(ints(v@) =~= ints(start) + zeros(n as nat));
}

/// Count one more message at minute `m`, growing the histogram with zeros to
/// reach it, unless that count would pass `u16::MAX`; whether it was counted.
fn try_bump_counters(v: &mut Vec<u16>, m: usize) -> (ok: bool)
    requires
        m <= old(v)@.len() + 120,
    ensures
        ok == (bump(ints(old(v)@), m as nat)[m as int] <= u16::MAX),
        ok ==> ints(final(v)@) == bump(ints(old(v)@), m as nat),
{
    let ghost c0 = ints(v@);
    let len = v.len();
    if m >= len {
        append_zeros(v, m - len + 1);
    }
    let ghost c2 = ints(v@);
    assert(c2 == (if m >= c0.len() {
        c0 + zeros((m + 1 - c0.len()) as nat)
    } else {
        c0
    }));
    let c: u16 = v[m];
    assert(c2[m as int] == c);
    if c == u16::MAX {
        return false;
    }
    v.set(m, c + 1);
    assert(ints(v@) =~= bump(c0, m as nat));
    true
}

/// Take the step of a user who sent message `i` at `date`, unless a count
/// would pass `u16::MAX`; whether it was taken.
fn proc_step(ps: &mut ProcStats, i: usize, date: i128, hash: i32, Ghost(st): Ghost<UserState>) -> (ok: bool)
    requires
        proc_holds(*old(ps), st),
        user_wf(st),
        counts_fit(st),
        -DATE_LIMIT_NS <= date <= DATE_LIMIT_NS,
    ensures
        ok == counts_fit(user_step(st, i as nat, date as int, hash)),
        ok ==> proc_holds(*final(ps), user_step(st, i as nat, date as int, hash)),
{
    let ghost next = user_step(st, i as nat, date as int, hash);
    let ghost n1 = st.runs.len();
    let gap: i128 = date - ps.last;
    ps.last = date;
    let wm: i128 = whole_minutes_of(date - ps.start);
    let mm: usize = #[verifier::truncate] (wm as usize);
    let mut run = match ps.data_runs.pop() {
        Some(r) => r,
        None => DataRun { conversation_id: hash, first_message: i, minute_counters: Vec::new() },
    };
    let ghost old_runs = st.runs;
    let ghost last_c = old_runs.last().counters;
    assert(run_holds(run, old_runs.last()));
    assert(run.minute_counters@.len() == last_c.len());
    let len = run.minute_counters.len();
    if gap > 2 * HOUR_NS || (mm > len && mm - len > 120) {
        append_zeros(&mut run.minute_counters, 60);
        ps.data_runs.push(run);
        ps.start = date - HOUR_NS;
        let mut counters = zero_counters(60);
        counters.push(1);
        proof {
            assert(ints(counters@) =~= bump(zeros(60), 60));
            assert forall|r: int, x: int|
                0 <= r < next.runs.len() && 0 <= x < next.runs[r].counters.len() implies #[trigger] next.runs[r].counters[x]
                <= u16::MAX by {
                if r < n1 - 1 {
                    assert(next.runs[r] == st.runs[r]);
                } else if r == n1 - 1 {
                    if x < last_c.len() {
                        assert(next.runs[r].counters[x] == st.runs[r].counters[x]);
                    }
                }
            }
        }
        ps.data_runs.push(DataRun { conversation_id: hash, first_message: i, minute_counters: counters });
    } else {
        let ok = try_bump_counters(&mut run.minute_counters, mm);
        ps.data_runs.push(run);
        let ghost c = bump(last_c, mm as nat);
        assert(next.runs[n1 - 1].counters == c);
        if !ok {
            assert(next.runs[n1 - 1].counters[mm as int] > u16::MAX);
            return false;
        }
        proof {
            let c2 = if mm >= last_c.len() {
                last_c + zeros((mm + 1 - last_c.len()) as nat)
            } else {
                last_c
            };
            assert forall|r: int, x: int|
                0 <= r < next.runs.len() && 0 <= x < next.runs[r].counters.len() implies #[trigger] next.runs[r].counters[x]
                <= u16::MAX by {
                if r < n1 - 1 {
                    assert(next.runs[r] == st.runs[r]);
                } else if x != mm {
                    assert(next.runs[r].counters[x] == c2[x]);
                    if x < last_c.len() {
                        assert(c2[x] == st.runs[r].counters[x]);
                    }
                }
            }
        }
    }
    proof {
        assert(ps.data_runs@.len() == next.runs.len());
        assert forall|r: int| 0 <= r < next.runs.len() implies run_holds(
            #[trigger] ps.data_runs@[r],
            next.runs[r],
        ) by {
            if r < st.runs.len() - 1 {
                assert(run_holds(old(ps).data_runs@[r], st.runs[r]));
            }
        }
    }
    true
}

} // verus!

verus! {

broadcast use vstd::std_specs::hash::group_hash_axioms;

/// What splitting conversation `c` gives: one `UserStats` for each user who
/// sends, whose runs are the user's runs after all messages, closed with
/// another hour of zeros or zeros up to the conversation's last message if
/// that is sooner.
pub open spec fn conversation_stats(c: Conversation, res: Seq<UserStats>) -> bool {
    &&& forall|j: int|
        0 <= j < res.len() ==> final_users(c).contains_key(#[trigger] res[j].user) && runs_hold(
            res[j].data_runs@,
            finish_runs(final_users(c)[res[j].user], c.date_last_message as int),
        )
    &&& forall|j1: int, j2: int| 0 <= j1 < j2 < res.len() ==> #[trigger] res[j1].user != #[trigger] res[j2].user
    &&& forall|i: int| 0 <= i < c.messages@.len() ==> has_stats_for(res, #[trigger] c.messages@[i].user)
    &&& forall|j: int| 0 <= j < res.len() ==> sends_in(c, #[trigger] res[j].user)
}

/// Whether every message date is within range.
pub fn dates_in_range(msgs: &Vec<Message>) -> (ok: bool)
    ensures
        ok == dates_ok(msgs@),
{
    let n = msgs.len();
    let mut i: usize = 0;
    while i < n
        invariant
            n == msgs@.len(),
            i <= n,
            forall|k: int| 0 <= k < i ==> -DATE_LIMIT_NS <= #[trigger] msgs@[k].date <= DATE_LIMIT_NS,
        decreases n - i,
    {
        let d = msgs[i].date;
        if d < -DATE_LIMIT_NS || d > DATE_LIMIT_NS {
            return false;
        }
        i = i + 1;
    }
    true
}

/// Split a conversation into per-user histograms of messages per minute, or
/// `None` where that fails: a date out of range, a count past `u16::MAX`, or
/// a user's last message a minute or more after the conversation's last.
pub fn try_process_conversation(conversation: Conversation) -> (res: Option<Vec<UserStats>>)
    ensures
        res is Some <==> conversation_ok(conversation),
        res matches Some(v) ==> conversation_stats(conversation, v@),
{
    let ghost msgs = conversation.messages@;
    let hash = conversation.hash;
    let date_last = conversation.date_last_message;
    let n = conversation.messages.len();
    if date_last < -DATE_LIMIT_NS || date_last > DATE_LIMIT_NS || !dates_in_range(&conversation.messages) {
        return None;
    }
    proof {
        lemma_users_after(msgs, hash, n as nat);
    }
    let mut ids: Vec<UserId> = Vec::new();
    let mut stats: HashMap<UserId, ProcStats> = HashMap::with_capacity(conversation.user_count);
    let mut i: usize = 0;
    while i < n
        invariant
            n == msgs.len(),
            msgs == conversation.messages@,
            hash == conversation.hash,
            date_last == conversation.date_last_message,
            -DATE_LIMIT_NS <= date_last <= DATE_LIMIT_NS,
            dates_ok(msgs),
            i <= n,
            stats@.dom() == users_after(msgs, hash, i as nat).dom(),
            forall|u: UserId| #[trigger] stats@.contains_key(u) ==> proc_holds(
                stats@[u],
                users_after(msgs, hash, i as nat)[u],
            ) && counts_fit(users_after(msgs, hash, i as nat)[u]),
            forall|j1: int, j2: int| 0 <= j1 < j2 < ids@.len() ==> ids@[j1] != ids@[j2],
            forall|j: int| 0 <= j < ids@.len() ==> stats@.contains_key(#[trigger] ids@[j]),
            forall|u: UserId| #[trigger] stats@.contains_key(u) ==> exists|j: int|
                0 <= j < ids@.len() && ids@[j] == u,
        decreases n - i,
    {
        let ghost prev = users_after(msgs, hash, i as nat);
        let ghost next = users_after(msgs, hash, (i + 1) as nat);
        let ghost ids_before = ids@;
        let ghost stats_before = stats@;
        proof {
            lemma_users_after(msgs, hash, i as nat);
            lemma_users_after(msgs, hash, (i + 1) as nat);
        }
        let user = conversation.messages[i].user;
        let date = conversation.messages[i].date;
        let ghost st = if prev.contains_key(user) {
            prev[user]
        } else {
            new_user(date as int, i as nat, hash)
        };
        proof {
            assert(next[user] == user_step(st, i as nat, date as int, hash));
        }
        let mut ps = match stats.remove(&user) {
            Some(ps) => ps,
            None => {
                proof {
                    assert forall|j: int| 0 <= j < ids@.len() implies ids@[j] != user by {
                        assert(stats_before.contains_key(ids@[j]));
                    }
                }
                let counters = zero_counters(60);
                ids.push(user);
                ProcStats {
                    start: date - HOUR_NS,
                    last: date,
                    data_runs: vec![DataRun { conversation_id: hash, first_message: i, minute_counters: counters }],
                }
            },
        };
        let ok = proc_step(&mut ps, i, date, hash, Ghost(st));
        stats.insert(user, ps);
        if !ok {
            proof {
                let fin = users_after(msgs, hash, n as nat);
                lemma_users_after_grow(msgs, hash, (i + 1) as nat, n as nat);
                assert(next.contains_key(msgs[i as int].user));
                if counts_fit(fin[user]) {
                    lemma_fits_dominated(next[user], fin[user]);
                }
                assert(fin.contains_key(user));
            }
            return None;
        }
        proof {
            assert(stats@.dom() =~= next.dom());
            assert forall|u: UserId| #[trigger] stats@.contains_key(u) implies proc_holds(stats@[u], next[u])
                && counts_fit(next[u]) by {
                if u != user {
                    assert(stats@[u] == stats_before[u]);
                }
            }
            assert forall|j: int| 0 <= j < ids@.len() implies stats@.contains_key(#[trigger] ids@[j]) by {
                if j < ids_before.len() {
                    assert(ids@[j] == ids_before[j]);
                }
            }
            assert forall|u: UserId| #[trigger] stats@.contains_key(u) implies exists|j: int|
                0 <= j < ids@.len() && ids@[j] == u by {
                if u == user {
                    if stats_before.contains_key(u) {
                        let t = choose|t: int| 0 <= t < ids_before.len() && ids_before[t] == u;
                        assert(ids@[t] == u);
                    } else {
                        assert(ids@[ids@.len() - 1] == u);
                    }
                } else {
                    assert(stats_before.contains_key(u));
                    let t = choose|t: int| 0 <= t < ids_before.len() && ids_before[t] == u;
                    assert(ids@[t] == u);
                }
            }
        }
        i = i + 1;
    }
    let ghost fin = users_after(msgs, hash, n as nat);
    let mut res: Vec<UserStats> = Vec::new();
    let k = ids.len();
    let mut j: usize = 0;
    while j < k
        invariant
            k == ids@.len(),
            j <= k,
            n == msgs.len(),
            msgs == conversation.messages@,
            hash == conversation.hash,
            fin == users_after(msgs, hash, n as nat),
            date_last == conversation.date_last_message,
            -DATE_LIMIT_NS <= date_last <= DATE_LIMIT_NS,
            dates_ok(msgs),
            forall|j1: int, j2: int| 0 <= j1 < j2 < ids@.len() ==> ids@[j1] != ids@[j2],
            forall|t: int| 0 <= t < k ==> fin.contains_key(#[trigger] ids@[t]) && counts_fit(fin[ids@[t]]),
            forall|u: UserId| #[trigger] fin.contains_key(u) ==> exists|t: int| 0 <= t < k && ids@[t] == u,
            forall|t: int| j <= t < k ==> stats@.contains_key(#[trigger] ids@[t]) && proc_holds(stats@[ids@[t]], fin[ids@[t]]),
            forall|t: int| 0 <= t < j ==> date_last - fin[#[trigger] ids@[t]].last > -MINUTE_NS,
            res@.len() == j,
            forall|t: int| 0 <= t < j ==> (#[trigger] res@[t]).user == ids@[t] && runs_hold(
                res@[t].data_runs@,
                finish_runs(fin[ids@[t]], date_last as int),
            ),
        decreases k - j,
    {
        let ghost stats_before = stats@;
        let id = ids[j];
        let mut ps = match stats.remove(&id) {
            Some(ps) => ps,
            None => {
                proof {
                    assert(stats_before.contains_key(ids@[j as int]));
                }
                return None;
            },
        };
        proof {
            assert forall|t: int| j < t < k implies stats@.contains_key(#[trigger] ids@[t]) && proc_holds(
                stats@[ids@[t]],
                fin[ids@[t]],
            ) by {
                assert(ids@[t] != ids@[j as int]);
                assert(stats_before.contains_key(ids@[t]));
            }
        }
        let ghost ps0 = ps;
        let ghost st = fin[ids@[j as int]];
        proof {
            lemma_users_after(msgs, hash, n as nat);
            assert(user_wf(st));
        }
        if date_last - ps.last <= -MINUTE_NS {
            return None;
        }
        let end: i128 = if ps.last + HOUR_NS <= date_last {
            ps.last + HOUR_NS
        } else {
            date_last
        };
        let wm: i128 = whole_minutes_of(end - ps.last);
        let to_fill: usize = #[verifier::truncate] (wm as usize);
        let mut run = match ps.data_runs.pop() {
            Some(r) => r,
            None => DataRun { conversation_id: hash, first_message: 0, minute_counters: Vec::new() },
        };
        append_zeros(&mut run.minute_counters, to_fill);
        ps.data_runs.push(run);
        proof {
            let fr = finish_runs(st, date_last as int);
            assert forall|r: int| 0 <= r < fr.len() implies run_holds(#[trigger] ps.data_runs@[r], fr[r]) by {
                if r < st.runs.len() - 1 {
                    assert(run_holds(ps0.data_runs@[r], st.runs[r]));
                }
            }
        }
        res.push(UserStats { user: id, data_runs: ps.data_runs });
        j = j + 1;
    }
    proof {
        lemma_users_after(msgs, hash, n as nat);
        assert forall|u: UserId| #[trigger] fin.contains_key(u) implies counts_fit(fin[u])
            && date_last - fin[u].last > -MINUTE_NS by {
            let t = choose|t: int| 0 <= t < k && ids@[t] == u;
            assert(counts_fit(fin[ids@[t]]));
        }
        assert forall|i: int| 0 <= i < msgs.len() implies has_stats_for(res@, #[trigger] msgs[i].user) by {
            let t = choose|t: int| 0 <= t < ids@.len() && ids@[t] == msgs[i].user;
            assert(res@[t].user == msgs[i].user);
        }
        assert forall|t: int| 0 <= t < res@.len() implies sends_in(conversation, #[trigger] res@[t].user) by {
            assert(fin.contains_key(res@[t].user));
            let i = choose|i: int| 0 <= i < n && #[trigger] msgs[i].user == res@[t].user;
            assert(conversation.messages@[i].user == res@[t].user);
        }
        assert forall|j1: int, j2: int| 0 <= j1 < j2 < res@.len() implies #[trigger] res@[j1].user
            != #[trigger] res@[j2].user by {
            assert(res@[j1].user == ids@[j1]);
            assert(res@[j2].user == ids@[j2]);
        }
        assert forall|t: int| 0 <= t < res@.len() implies fin.contains_key(#[trigger] res@[t].user) && runs_hold(
            res@[t].data_runs@,
            finish_runs(fin[res@[t].user], conversation.date_last_message as int),
        ) by {
            assert(res@[t].user == ids@[t]);
        }
    }
    Some(res)
}

/// Split a conversation into per-user histograms of messages per minute, on
/// a conversation where that does not fail.
pub fn process_conversation(conversation: Conversation) -> (res: Vec<UserStats>)
    requires
        conversation_ok(conversation),
    ensures
        conversation_stats(conversation, res@),
{
    match try_process_conversation(conversation) {
        Some(v) => v,
        None => {
            proof {
                assert(false);
            }
            Vec::new()
        },
    }
}

} // verus!

verus! {

/// How many conversations have `b` users.
pub open spec fn size_count(sizes: Seq<usize>, b: int) -> nat
    decreases sizes.len(),
{
    if sizes.len() == 0 {
        0
    } else {
        size_count(sizes.drop_last(), b) + if sizes.last() == b {
            1nat
        } else {
            0nat
        }
    }
}

/// A histogram of group sizes: entry `b` counts the conversations of `b`
/// users, for sizes under 256.
pub fn group_size_histogram(sizes: &[usize]) -> (res: Vec<i32>)
    requires
        forall|k: int| 0 <= k < sizes@.len() ==> #[trigger] sizes@[k] < 256,
        sizes@.len() <= i32::MAX,
    ensures
        res@.len() == 256,
        forall|b: int| 0 <= b < 256 ==> #[trigger] res@[b] == size_count(sizes@, b),
{
    let mut hist: Vec<i32> = Vec::new();
    let mut b: usize = 0;
    while b < 256
        invariant
            b <= 256,
            hist@.len() == b,
            forall|x: int| 0 <= x < b ==> #[trigger] hist@[x] == 0,
        decreases 256 - b,
    {
        hist.push(0);
        b = b + 1;
    }
    let n = sizes.len();
    let mut k: usize = 0;
    while k < n
        invariant
            n == sizes@.len() <= i32::MAX,
            k <= n,
            forall|q: int| 0 <= q < sizes@.len() ==> #[trigger] sizes@[q] < 256,
            hist@.len() == 256,
            forall|x: int| 0 <= x < 256 ==> #[trigger] hist@[x] == size_count(sizes@.take(k as int), x),
            forall|x: int| 0 <= x < 256 ==> #[trigger] size_count(sizes@.take(k as int), x) <= k,
        decreases n - k,
    {
        let s = sizes[k];
        assert(sizes@.take(k + 1).drop_last() =~= sizes@.take(k as int));
        assert forall|x: int| 0 <= x < 256 implies #[trigger] size_count(sizes@.take(k + 1), x) <= k + 1 by {
            assert(size_count(sizes@.take(k + 1), x) == size_count(sizes@.take(k as int), x) + if s == x {
                1nat
            } else {
                0nat
            });
        }
        let c = hist[s];
        hist.set(s, c + 1);
        k = k + 1;
    }
    assert(sizes@.take(n as int) =~= sizes@);
    hist
}

/// The runs of user `u` in all of `stats`, in order.
pub open spec fn runs_of(stats: Seq<UserStats>, u: UserId) -> Seq<DataRun>
    decreases stats.len(),
{
    if stats.len() == 0 {
        Seq::empty()
    } else if stats.last().user == u {
        runs_of(stats.drop_last(), u) + stats.last().data_runs@
    } else {
        runs_of(stats.drop_last(), u)
    }
}

/// Whether `res` has each user of `stats` once, and no one else, with all of
/// their runs in order.
pub open spec fn merged(res: Seq<UserStats>, stats: Seq<UserStats>) -> bool {
    &&& forall|i: int, j: int| 0 <= i < j < res.len() ==> (#[trigger] res[i]).user != (#[trigger] res[j]).user
    &&& forall|i: int| 0 <= i < res.len() ==> (#[trigger] res[i]).data_runs@ == runs_of(stats, res[i].user)
    &&& forall|k: int| 0 <= k < stats.len() ==> has_user(res, (#[trigger] stats[k]).user)
    &&& forall|i: int| 0 <= i < res.len() ==> has_user(stats, (#[trigger] res[i]).user)
}

/// Whether some of `res` are `u`'s.
pub open spec fn has_user(res: Seq<UserStats>, u: UserId) -> bool {
    exists|i: int| 0 <= i < res.len() && (#[trigger] res[i]).user == u
}

/// No runs for a user without stats.
proof fn lemma_runs_of_absent(stats: Seq<UserStats>, u: UserId)
    requires
        forall|k: int| 0 <= k < stats.len() ==> stats[k].user != u,
    ensures
        runs_of(stats, u) == Seq::<DataRun>::empty(),
    decreases stats.len(),
{
    if stats.len() > 0 {
        lemma_runs_of_absent(stats.drop_last(), u);
    }
}

/// The index of the stats of user `u`.
fn find_stats(res: &Vec<UserStats>, u: UserId) -> (r: Option<usize>)
    ensures
        r matches Some(i) ==> i < res@.len() && res@[i as int].user == u,
        r is None ==> forall|j: int| 0 <= j < res@.len() ==> (#[trigger] res@[j]).user != u,
{
    let m = res.len();
    let mut i: usize = 0;
    while i < m
        invariant
            m == res@.len(),
            i <= m,
            forall|j: int| 0 <= j < i ==> (#[trigger] res@[j]).user != u,
        decreases m - i,
    {
        if res[i].user == u {
            return Some(i);
        }
        i = i + 1;
    }
    None
}

/// Merge the stats of each user: one entry per user, with the runs of all
/// of that user's entries in order.
pub fn merge_user_stats(all_stats: Vec<UserStats>) -> (res: Vec<UserStats>)
    ensures
        merged(res@, all_stats@),
{
    let ghost all = all_stats@;
    let mut rest = all_stats;
    let n = rest.len();
    let mut res: Vec<UserStats> = Vec::new();
    let mut k: usize = 0;
    while k < n
        invariant
            n == all.len(),
            k <= n,
            rest@.len() == n,
            forall|j: int| k <= j < n ==> #[trigger] rest@[j] == all[j],
            merged(res@, all.take(k as int)),
        decreases n - k,
    {
        let ghost before = res@;
        let ghost prev = all.take(k as int);
        let ghost cur = all.take(k + 1);
        assert(cur.drop_last() =~= prev);
        let mut st = UserStats { user: 0, data_runs: Vec::new() };
        std::mem::swap(&mut st, &mut rest[k]);
        assert(st == all[k as int]);
        let u = st.user;
        let mut runs = st.data_runs;
        match find_stats(&res, u) {
            Some(i) => {
                let mut entry = UserStats { user: 0, data_runs: Vec::new() };
                std::mem::swap(&mut entry, &mut res[i]);
                let ghost old_runs = entry.data_runs@;
                entry.data_runs.append(&mut runs);
                res.set(i, entry);
                proof {
                    assert forall|j: int| 0 <= j < res@.len() implies (#[trigger] res@[j]).data_runs@ == runs_of(cur, res@[j].user) by {
                        if j == i {
                            assert(res@[j].data_runs@ == old_runs + all[k as int].data_runs@);
                        } else {
                            assert(res@[j] == before[j]);
                            assert(before[j].user != before[i as int].user);
                        }
                    }
                    assert forall|a: int, b: int| 0 <= a < b < res@.len() implies (#[trigger] res@[a]).user != (#[trigger] res@[b]).user by {
                        assert(before[a].user != before[b].user);
                    }
                    assert forall|q: int| 0 <= q < cur.len() implies has_user(res@, (#[trigger] cur[q]).user) by {
                        if q < k {
                            assert(prev[q] == cur[q]);
                            assert(has_user(before, prev[q].user));
                            let x = choose|x: int| 0 <= x < before.len() && (#[trigger] before[x]).user == prev[q].user;
                            assert(res@[x].user == before[x].user);
                        } else {
                            assert(res@[i as int].user == cur[q].user);
                        }
                    }
                }
            },
            None => {
                let ghost new_runs = runs@;
                res.push(UserStats { user: u, data_runs: runs });
                proof {
                    assert forall|q: int| 0 <= q < prev.len() implies prev[q].user != u by {
                        assert(has_user(before, prev[q].user));
                    }
                    lemma_runs_of_absent(prev, u);
                    assert forall|j: int| 0 <= j < res@.len() implies (#[trigger] res@[j]).data_runs@ == runs_of(cur, res@[j].user) by {
                        if j < before.len() {
                            assert(res@[j] == before[j]);
                        } else {
                            assert(Seq::<DataRun>::empty() + new_runs =~= new_runs);
                        }
                    }
                    assert forall|a: int, b: int| 0 <= a < b < res@.len() implies (#[trigger] res@[a]).user != (#[trigger] res@[b]).user by {
                        if b < before.len() {
                            assert(before[a].user != before[b].user);
                        }
                    }
                    assert forall|q: int| 0 <= q < cur.len() implies has_user(res@, (#[trigger] cur[q]).user) by {
                        if q < k {
                            assert(prev[q] == cur[q]);
                            assert(has_user(before, prev[q].user));
                            let x = choose|x: int| 0 <= x < before.len() && (#[trigger] before[x]).user == prev[q].user;
                            assert(res@[x].user == before[x].user);
                        } else {
                            assert(res@[before.len() as int].user == cur[q].user);
                        }
                    }
                }
            },
        }
        k = k + 1;
    }
    assert(all.take(n as int) =~= all);
    res
}

} // verus!

verus! {

/// The sum of some counts.
pub open spec fn count_sum(s: Seq<int>) -> int
    decreases s.len(),
{
    if s.len() == 0 {
        0
    } else {
        count_sum(s.drop_last()) + s.last()
    }
}

/// The sum of the counts of some runs.
pub open spec fn runs_total(rs: Seq<RunState>) -> int
    decreases rs.len(),
{
    if rs.len() == 0 {
        0
    } else {
        runs_total(rs.drop_last()) + count_sum(rs.last().counters)
    }
}

/// The sum of the histograms of some data runs.
pub open spec fn data_runs_total(rs: Seq<DataRun>) -> int
    decreases rs.len(),
{
    if rs.len() == 0 {
        0
    } else {
        data_runs_total(rs.drop_last()) + count_sum(ints(rs.last().minute_counters@))
    }
}

/// How many of the messages `u` sent.
pub open spec fn messages_by(msgs: Seq<Message>, u: UserId) -> nat
    decreases msgs.len(),
{
    if msgs.len() == 0 {
        0
    } else {
        messages_by(msgs.drop_last(), u) + if msgs.last().user == u {
            1nat
        } else {
            0nat
        }
    }
}

proof fn lemma_count_sum_concat(a: Seq<int>, b: Seq<int>)
    ensures
        count_sum(a + b) == count_sum(a) + count_sum(b),
    decreases b.len(),
{
    if b.len() > 0 {
        lemma_count_sum_concat(a, b.drop_last());
        assert((a + b).drop_last() =~= a + b.drop_last());
    } else {
        assert(a + b =~= a);
    }
}

proof fn lemma_count_sum_zeros(n: nat)
    ensures
        count_sum(zeros(n)) == 0,
    decreases n,
{
    if n > 0 {
        lemma_count_sum_zeros((n - 1) as nat);
        assert(zeros(n).drop_last() =~= zeros((n - 1) as nat));
    }
}

proof fn lemma_count_sum_update(s: Seq<int>, i: int, v: int)
    requires
        0 <= i < s.len(),
    ensures
        count_sum(s.update(i, v)) == count_sum(s) - s[i] + v,
    decreases s.len(),
{
    if i < s.len() - 1 {
        lemma_count_sum_update(s.drop_last(), i, v);
        assert(s.update(i, v).drop_last() =~= s.drop_last().update(i, v));
    } else {
        assert(s.update(i, v).drop_last() =~= s.drop_last());
    }
}

/// Counting a message adds one to the histogram's sum.
proof fn lemma_count_sum_bump(c: Seq<int>, m: nat)
    ensures
        count_sum(bump(c, m)) == count_sum(c) + 1,
{
    let c2 = if m >= c.len() {
        c + zeros((m + 1 - c.len()) as nat)
    } else {
        c
    };
    if m >= c.len() {
        lemma_count_sum_concat(c, zeros((m + 1 - c.len()) as nat));
        lemma_count_sum_zeros((m + 1 - c.len()) as nat);
    }
    lemma_count_sum_update(c2, m as int, c2[m as int] + 1);
}

proof fn lemma_runs_total_last(rs: Seq<RunState>, r: RunState)
    requires
        rs.len() >= 1,
    ensures
        runs_total(rs.drop_last().push(r)) == runs_total(rs) - count_sum(rs.last().counters) + count_sum(r.counters),
{
    assert(rs.drop_last().push(r).drop_last() =~= rs.drop_last());
}

/// A step adds one to the user's total count.
proof fn lemma_step_total(st: UserState, i: nat, date: int, hash: i32)
    requires
        st.runs.len() >= 1,
    ensures
        runs_total(user_step(st, i, date, hash).runs) == runs_total(st.runs) + 1,
{
    let mm = minute_index(date - st.start);
    let run = st.runs.last();
    if starts_run(st, date) {
        let closed = RunState { counters: run.counters + zeros(60), ..run };
        let fresh = RunState { conversation_id: hash, first_message: i, counters: bump(zeros(60), 60) };
        let rs = st.runs.drop_last().push(closed);
        lemma_runs_total_last(st.runs, closed);
        lemma_count_sum_concat(run.counters, zeros(60));
        lemma_count_sum_zeros(60);
        lemma_count_sum_bump(zeros(60), 60);
        assert(rs.push(fresh).drop_last() =~= rs);
    } else {
        lemma_runs_total_last(st.runs, RunState { counters: bump(run.counters, mm), ..run });
        lemma_count_sum_bump(run.counters, mm);
    }
}

/// After `k` messages, each user's counts add up to the messages they sent among them.
proof fn lemma_users_after_total(msgs: Seq<Message>, hash: i32, k: nat)
    requires
        k <= msgs.len(),
    ensures
        forall|u: UserId| #[trigger] users_after(msgs, hash, k).contains_key(u) ==> users_after(msgs, hash, k)[u].runs.len() >= 1
            && runs_total(users_after(msgs, hash, k)[u].runs) == messages_by(msgs.take(k as int), u),
    decreases k,
{
    if k > 0 {
        lemma_users_after_total(msgs, hash, (k - 1) as nat);
        let prev = users_after(msgs, hash, (k - 1) as nat);
        let m = msgs[k - 1];
        assert(msgs.take(k as int).drop_last() =~= msgs.take(k - 1));
        let st = if prev.contains_key(m.user) {
            prev[m.user]
        } else {
            new_user(m.date as int, (k - 1) as nat, hash)
        };
        if !prev.contains_key(m.user) {
            assert(new_user(m.date as int, (k - 1) as nat, hash).runs.drop_last() =~= Seq::<RunState>::empty());
            lemma_count_sum_zeros(60);
            assert forall|j: int| 0 <= j < k - 1 implies #[trigger] msgs.take(k - 1)[j].user != m.user by {
                lemma_senders_known(msgs, hash, (k - 1) as nat);
                assert(prev.contains_key(msgs[j].user));
            }
            lemma_messages_by_absent(msgs.take(k - 1), m.user);
            let ns = new_user(m.date as int, (k - 1) as nat, hash);
            assert(runs_total(ns.runs) == runs_total(ns.runs.drop_last()) + count_sum(zeros(60)));
            assert(runs_total(ns.runs) == 0);
        } else {
            assert(runs_total(prev[m.user].runs) == messages_by(msgs.take(k - 1), m.user));
        }
        lemma_step_total(st, (k - 1) as nat, m.date as int, hash);
        lemma_step_dominates(st, (k - 1) as nat, m.date as int, hash);
        assert(runs_total(st.runs) == messages_by(msgs.take(k - 1), m.user));
        let cur = users_after(msgs, hash, k);
        assert(msgs.take(k as int).last() == m);
        assert forall|u: UserId| #[trigger] cur.contains_key(u) implies cur[u].runs.len() >= 1 && runs_total(
            cur[u].runs,
        ) == messages_by(msgs.take(k as int), u) by {
            if u != m.user {
                assert(cur[u] == prev[u]);
            }
        }
    }
}

/// Everyone who sent one of the first `k` messages has a state after them.
proof fn lemma_senders_known(msgs: Seq<Message>, hash: i32, k: nat)
    requires
        k <= msgs.len(),
    ensures
        forall|i: int| 0 <= i < k ==> users_after(msgs, hash, k).contains_key(#[trigger] msgs[i].user),
    decreases k,
{
    if k > 0 {
        lemma_senders_known(msgs, hash, (k - 1) as nat);
    }
}

proof fn lemma_messages_by_absent(msgs: Seq<Message>, u: UserId)
    requires
        forall|j: int| 0 <= j < msgs.len() ==> msgs[j].user != u,
    ensures
        messages_by(msgs, u) == 0,
    decreases msgs.len(),
{
    if msgs.len() > 0 {
        lemma_messages_by_absent(msgs.drop_last(), u);
    }
}

/// Data runs holding run states have the same total.
proof fn lemma_totals_hold(rs: Seq<DataRun>, ss: Seq<RunState>)
    requires
        runs_hold(rs, ss),
    ensures
        data_runs_total(rs) == runs_total(ss),
    decreases ss.len(),
{
    if ss.len() > 0 {
        assert(runs_hold(rs.drop_last(), ss.drop_last())) by {
            assert forall|r: int| 0 <= r < ss.len() - 1 implies run_holds(#[trigger] rs.drop_last()[r], ss.drop_last()[r]) by {
                assert(run_holds(rs[r], ss[r]));
            }
        }
        lemma_totals_hold(rs.drop_last(), ss.drop_last());
        assert(run_holds(rs[rs.len() - 1], ss[ss.len() - 1]));
    }
}

/// Every message is counted once: the histograms a user gets from splitting
/// a conversation add up to the number of messages the user sent in it.
pub proof fn lemma_every_message_counted(c: Conversation, res: Seq<UserStats>, j: int)
    requires
        conversation_stats(c, res),
        0 <= j < res.len(),
    ensures
        data_runs_total(res[j].data_runs@) == messages_by(c.messages@, res[j].user),
{
    let msgs = c.messages@;
    let u = res[j].user;
    let st = final_users(c)[u];
    lemma_users_after_total(msgs, c.hash, msgs.len());
    assert(msgs.take(msgs.len() as int) =~= msgs);
    let fr = finish_runs(st, c.date_last_message as int);
    let end = if st.last + HOUR_NS <= c.date_last_message {
        st.last + HOUR_NS
    } else {
        c.date_last_message as int
    };
    let run = st.runs.last();
    lemma_runs_total_last(st.runs, RunState { counters: run.counters + zeros(minute_index(end - st.last)), ..run });
    assert(st.runs.drop_last().push(RunState { counters: run.counters + zeros(minute_index(end - st.last)), ..run }) =~= fr);
    lemma_count_sum_concat(run.counters, zeros(minute_index(end - st.last)));
    lemma_count_sum_zeros(minute_index(end - st.last));
    lemma_totals_hold(res[j].data_runs@, fr);
}

} // verus!

verus! {

/// Whether the messages come in order of their dates.
pub open spec fn dates_sorted(msgs: Seq<Message>) -> bool {
    forall|i: int, j: int| 0 <= i <= j < msgs.len() ==> msgs[i].date <= msgs[j].date
}

/// Whether the messages' dates span no more than `u32::MAX` minutes less two hours.
pub open spec fn span_fits(msgs: Seq<Message>) -> bool {
    forall|i: int| 0 <= i < msgs.len() ==> #[trigger] msgs[i].date - msgs[0].date <= (u32::MAX - 120) * MINUTE_NS
}

/// Whether a histogram starts with an hour of zeros.
pub open spec fn leading_hour(c: Seq<int>) -> bool {
    &&& c.len() >= 60
    &&& forall|x: int| 0 <= x < 60 ==> #[trigger] c[x] == 0
}

/// Whether a histogram ends in exactly an hour of zeros after a minute with messages.
pub open spec fn trailing_hour(c: Seq<int>) -> bool {
    &&& c.len() >= 121
    &&& c[c.len() - 61] > 0
    &&& forall|x: int| c.len() - 60 <= x < c.len() ==> #[trigger] c[x] == 0
}

/// Whether `f` is the index of `u`'s first message.
pub open spec fn first_by(msgs: Seq<Message>, u: UserId, f: int) -> bool {
    &&& 0 <= f < msgs.len()
    &&& msgs[f].user == u
    &&& forall|i: int| 0 <= i < f ==> #[trigger] msgs[i].user != u
}

/// The layout of a user's runs while a conversation is processed: every run
/// of the conversation and starting with an hour of zeros; every run but the
/// last ending in an hour of zeros after a minute with messages; the last
/// ending in a minute with messages; first messages rising.
spec fn layout_ok(st: UserState, hash: i32) -> bool {
    let rs = st.runs;
    &&& rs.len() >= 1
    &&& forall|r: int| 0 <= r < rs.len() ==> (#[trigger] rs[r]).conversation_id == hash && leading_hour(rs[r].counters)
    &&& forall|r: int| 0 <= r < rs.len() - 1 ==> trailing_hour((#[trigger] rs[r]).counters)
    &&& rs.last().counters.len() >= 61
    &&& rs.last().counters.last() > 0
    &&& forall|r1: int, r2: int|
        0 <= r1 < r2 < rs.len() ==> (#[trigger] rs[r1]).first_message < (#[trigger] rs[r2]).first_message
}

/// Counting a message at minute `m`, at least an hour into the histogram,
/// keeps the leading hour of zeros and ends the histogram in a minute with messages.
proof fn lemma_bump_layout(c: Seq<int>, m: nat)
    requires
        leading_hour(c),
        c.len() >= 61,
        c.last() > 0,
        60 <= m,
    ensures
        leading_hour(bump(c, m)),
        bump(c, m).len() >= 61,
        bump(c, m).last() > 0,
{
    let c2 = if m >= c.len() {
        c + zeros((m + 1 - c.len()) as nat)
    } else {
        c
    };
    let b = bump(c, m);
    assert forall|x: int| 0 <= x < 60 implies #[trigger] b[x] == 0 by {
        assert(b[x] == c2[x]);
        assert(c2[x] == c[x]);
    }
    if m >= c.len() {
        assert(b.last() == c2[m as int] + 1);
        assert(c2[m as int] == 0);
    } else {
        assert(b[b.len() - 1] == c2[c2.len() - 1] || m == c.len() - 1);
    }
}

/// A step keeps the layout, for a message no earlier than the user's last
/// and within the span, `lo` being the first message's date.
proof fn lemma_step_layout(st: UserState, i: nat, date: int, hash: i32, lo: int)
    requires
        layout_ok(st, hash),
        lo - HOUR_NS <= st.start,
        st.start + HOUR_NS <= st.last <= date,
        date - lo <= (u32::MAX - 120) * MINUTE_NS,
        forall|r: int| 0 <= r < st.runs.len() ==> (#[trigger] st.runs[r]).first_message < i,
    ensures
        layout_ok(user_step(st, i, date, hash), hash),
        user_step(st, i, date, hash).runs[0].first_message == st.runs[0].first_message,
        forall|r: int|
            0 <= r < user_step(st, i, date, hash).runs.len() ==> (#[trigger] user_step(
                st,
                i,
                date,
                hash,
            ).runs[r]).first_message <= i,
        lo - HOUR_NS <= user_step(st, i, date, hash).start,
        user_step(st, i, date, hash).start + HOUR_NS <= user_step(st, i, date, hash).last == date,
{
    let next = user_step(st, i, date, hash);
    let rs = st.runs;
    let n = rs.len();
    let run = rs.last();
    if starts_run(st, date) {
        let closed = RunState { counters: run.counters + zeros(60), ..run };
        let fresh = RunState { conversation_id: hash, first_message: i, counters: bump(zeros(60), 60) };
        assert(bump(zeros(60), 60) =~= zeros(60).push(1));
        let cc = closed.counters;
        assert(cc[cc.len() - 61] == run.counters.last());
        assert(trailing_hour(cc));
        assert(leading_hour(cc)) by {
            assert forall|x: int| 0 <= x < 60 implies #[trigger] cc[x] == 0 by {
                assert(cc[x] == run.counters[x]);
            }
        }
        assert(leading_hour(fresh.counters));
        assert(next.runs == rs.drop_last().push(closed).push(fresh));
        assert forall|r: int| 0 <= r < next.runs.len() implies (#[trigger] next.runs[r]).conversation_id == hash
            && leading_hour(next.runs[r].counters) by {
            if r < n - 1 {
                assert(next.runs[r] == rs[r]);
            }
        }
        assert forall|r: int| 0 <= r < next.runs.len() - 1 implies trailing_hour((#[trigger] next.runs[r]).counters) by {
            if r < n - 1 {
                assert(next.runs[r] == rs[r]);
            }
        }
        assert forall|r1: int, r2: int|
            0 <= r1 < r2 < next.runs.len() implies (#[trigger] next.runs[r1]).first_message
            < (#[trigger] next.runs[r2]).first_message by {
            if r2 < n - 1 {
                assert(next.runs[r1] == rs[r1] && next.runs[r2] == rs[r2]);
            } else if r2 == n - 1 {
                assert(next.runs[r1] == rs[r1]);
                assert(rs[r1].first_message < rs[n - 1].first_message);
            } else if r1 < n - 1 {
                assert(next.runs[r1] == rs[r1]);
            }
        }
        assert forall|r: int| 0 <= r < next.runs.len() implies (#[trigger] next.runs[r]).first_message <= i by {
            if r < n - 1 {
                assert(next.runs[r] == rs[r]);
            }
        }
        if n == 1 {
            assert(next.runs[0] == closed);
        } else {
            assert(next.runs[0] == rs[0]);
        }
    } else {
        let d = date - st.start;
        assert(d >= HOUR_NS);
        assert(d <= (u32::MAX - 60) * MINUTE_NS);
        assert(whole_minutes(d) == d / (MINUTE_NS as int));
        assert(60 <= d / (MINUTE_NS as int) <= u32::MAX) by (nonlinear_arith)
            requires
                HOUR_NS <= d <= (u32::MAX - 60) * MINUTE_NS,
                HOUR_NS == 60 * MINUTE_NS,
                MINUTE_NS > 0,
        ;
        let mm = minute_index(d);
        assert(mm == d / (MINUTE_NS as int));
        lemma_bump_layout(run.counters, mm);
        let bumped = RunState { counters: bump(run.counters, mm), ..run };
        assert(next.runs == rs.drop_last().push(bumped));
        assert forall|r: int| 0 <= r < next.runs.len() implies (#[trigger] next.runs[r]).conversation_id == hash
            && leading_hour(next.runs[r].counters) by {
            if r < n - 1 {
                assert(next.runs[r] == rs[r]);
            }
        }
        assert forall|r: int| 0 <= r < next.runs.len() - 1 implies trailing_hour((#[trigger] next.runs[r]).counters) by {
            assert(next.runs[r] == rs[r]);
        }
        assert forall|r1: int, r2: int|
            0 <= r1 < r2 < next.runs.len() implies (#[trigger] next.runs[r1]).first_message
            < (#[trigger] next.runs[r2]).first_message by {
            assert(next.runs[r1] == rs[r1]);
            assert(next.runs[r2].first_message == rs[r2].first_message);
        }
        assert forall|r: int| 0 <= r < next.runs.len() implies (#[trigger] next.runs[r]).first_message <= i by {
            assert(next.runs[r].first_message == rs[r].first_message);
        }
        assert(next.runs[0].first_message == rs[0].first_message);
    }
}

/// The layout of every user's runs after the first `k` of sorted messages.
proof fn lemma_users_after_layout(msgs: Seq<Message>, hash: i32, k: nat)
    requires
        k <= msgs.len(),
        dates_sorted(msgs),
        span_fits(msgs),
    ensures
        forall|u: UserId| #[trigger] users_after(msgs, hash, k).contains_key(u) ==> {
            let st = users_after(msgs, hash, k)[u];
            &&& layout_ok(st, hash)
            &&& msgs[0].date - HOUR_NS <= st.start
            &&& st.start + HOUR_NS <= st.last <= msgs[k - 1].date
            &&& forall|r: int| 0 <= r < st.runs.len() ==> (#[trigger] st.runs[r]).first_message < k
            &&& first_by(msgs, u, st.runs[0].first_message as int)
        },
    decreases k,
{
    if k > 0 {
        lemma_users_after_layout(msgs, hash, (k - 1) as nat);
        lemma_senders_known(msgs, hash, (k - 1) as nat);
        let prev = users_after(msgs, hash, (k - 1) as nat);
        let cur = users_after(msgs, hash, k);
        let m = msgs[k - 1];
        let lo = msgs[0].date as int;
        assert(lo <= m.date);
        assert(m.date - lo <= (u32::MAX - 120) * MINUTE_NS);
        if prev.contains_key(m.user) {
            let st = prev[m.user];
            assert(msgs[k - 2].date <= m.date);
            lemma_step_layout(st, (k - 1) as nat, m.date as int, hash, lo);
        } else {
            let st = new_user(m.date as int, (k - 1) as nat, hash);
            let next = user_step(st, (k - 1) as nat, m.date as int, hash);
            assert(minute_index(HOUR_NS as int) == 60);
            assert(!starts_run(st, m.date as int));
            assert(bump(zeros(60), 60) =~= zeros(60).push(1));
            assert(next.runs =~= seq![RunState { conversation_id: hash, first_message: (k - 1) as nat, counters: zeros(60).push(1) }]);
            assert forall|i: int| 0 <= i < k - 1 implies #[trigger] msgs[i].user != m.user by {
                assert(prev.contains_key(msgs[i].user));
            }
            assert(first_by(msgs, m.user, k - 1));
            assert(leading_hour(zeros(60).push(1)));
        }
        assert forall|u: UserId| #[trigger] cur.contains_key(u) implies {
            let st = cur[u];
            &&& layout_ok(st, hash)
            &&& msgs[0].date - HOUR_NS <= st.start
            &&& st.start + HOUR_NS <= st.last <= msgs[k - 1].date
            &&& forall|r: int| 0 <= r < st.runs.len() ==> (#[trigger] st.runs[r]).first_message < k
            &&& first_by(msgs, u, st.runs[0].first_message as int)
        } by {
            if u != m.user {
                assert(cur[u] == prev[u]);
                assert(msgs[k - 2].date <= m.date);
            }
        }
    }
}

/// The layout of the runs the README describes: after splitting a
/// conversation whose messages come in order of their dates, each of a user's
/// runs belongs to the conversation and starts with an hour of zeros; every
/// run but the last ends in exactly an hour of zeros after a minute with
/// messages; and the runs' first messages rise, starting at the user's first message.
pub proof fn lemma_run_layout(c: Conversation, res: Seq<UserStats>, j: int)
    requires
        conversation_stats(c, res),
        dates_sorted(c.messages@),
        span_fits(c.messages@),
        0 <= j < res.len(),
    ensures
        ({
            let rs = res[j].data_runs@;
            &&& rs.len() >= 1
            &&& forall|r: int| 0 <= r < rs.len() ==> (#[trigger] rs[r]).conversation_id == c.hash
                && leading_hour(ints(rs[r].minute_counters@))
            &&& forall|r: int| 0 <= r < rs.len() - 1 ==> trailing_hour(ints((#[trigger] rs[r]).minute_counters@))
            &&& forall|r1: int, r2: int|
                0 <= r1 < r2 < rs.len() ==> (#[trigger] rs[r1]).first_message < (#[trigger] rs[r2]).first_message
            &&& first_by(c.messages@, res[j].user, rs[0].first_message as int)
        }),
{
    let msgs = c.messages@;
    let u = res[j].user;
    let st = final_users(c)[u];
    let rs = res[j].data_runs@;
    lemma_users_after_layout(msgs, c.hash, msgs.len());
    let fr = finish_runs(st, c.date_last_message as int);
    let n = st.runs.len();
    assert(runs_hold(rs, fr));
    assert forall|r: int| 0 <= r < fr.len() implies (#[trigger] fr[r]).conversation_id == c.hash
        && leading_hour(fr[r].counters) && fr[r].first_message == st.runs[r].first_message
        && (r < n - 1 ==> fr[r] == st.runs[r]) by {
        if r == n - 1 {
            let t = fr[r].counters;
            assert forall|x: int| 0 <= x < 60 implies #[trigger] t[x] == 0 by {
                assert(t[x] == st.runs[r].counters[x]);
            }
        }
    }
    assert forall|r: int| 0 <= r < rs.len() implies (#[trigger] rs[r]).conversation_id == c.hash && leading_hour(
        ints(rs[r].minute_counters@),
    ) by {
        assert(run_holds(rs[r], fr[r]));
    }
    assert forall|r: int| 0 <= r < rs.len() - 1 implies trailing_hour(ints((#[trigger] rs[r]).minute_counters@)) by {
        assert(run_holds(rs[r], fr[r]));
    }
    assert forall|r1: int, r2: int|
        0 <= r1 < r2 < rs.len() implies (#[trigger] rs[r1]).first_message < (#[trigger] rs[r2]).first_message by {
        assert(run_holds(rs[r1], fr[r1]));
        assert(run_holds(rs[r2], fr[r2]));
    }
    assert(run_holds(rs[0], fr[0]));
}

} // verus!
