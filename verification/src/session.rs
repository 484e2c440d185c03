//! Decisions of a client session around the transport: which transport to
//! try, how long the server may stay silent, when to announce and when to
//! give up reconnecting, and which namespace is the primary one.
use vstd::prelude::*;
use crate::json::{Json, JsonValue};
use crate::processor::{effects_model, Effect, EffectModel};
use crate::socket_io_client::{TransportMode, SYS_DISCONNECT, SYS_ERROR};
use crate::namespaces::{key_index, lemma_key_index, lemma_key_index_of};
use crate::text::{root_ns, root_string};

verus! {

/// Whether to try upgrading to WebSocket: the client allows it and the
/// server lists `websocket` among its upgrades.
pub open spec fn spec_try_websocket(allow_upgrade: bool, upgrades: Seq<Seq<char>>) -> bool {
    allow_upgrade && upgrades.contains("websocket"@)
}

/// Decides whether to try upgrading to WebSocket after the handshake.
pub fn try_websocket(allow_upgrade: bool, upgrades: &Vec<String>) -> (b: bool)
    ensures
        b == spec_try_websocket(allow_upgrade, upgrades@.map_values(|u: String| u@)),
{
    let ghost ups = upgrades@.map_values(|u: String| u@);
    if !allow_upgrade {
        return false;
    }
    let ws = "websocket".to_owned();
    let mut i: usize = 0;
    while i < upgrades.len()
        invariant
            i <= upgrades@.len(),
            ws@ == "websocket"@,
            allow_upgrade,
            ups == upgrades@.map_values(|u: String| u@),
            forall|j: int| 0 <= j < i ==> ups[j] != "websocket"@,
        decreases upgrades@.len() - i,
    {
        if upgrades[i] == ws {
            proof {
                assert(ups[i as int] == "websocket"@);
                assert(ups.contains("websocket"@));
            }
            return true;
        }
        i = i + 1;
    }
    false
}

/// How long (in milliseconds) the server may stay silent before the
/// connection counts as lost: the configured timeout, raised to the
/// server's ping interval plus ping timeout when the server announced both.
pub open spec fn spec_silence_limit_ms(pong_timeout_secs: u64, ping_interval_ms: u64, ping_timeout_ms: u64) -> int {
    let configured = pong_timeout_secs * 1000;
    if ping_interval_ms > 0 && ping_timeout_ms > 0 && ping_interval_ms + ping_timeout_ms > configured {
        ping_interval_ms + ping_timeout_ms
    } else {
        configured
    }
}

/// Computes how long the server may stay silent, in milliseconds. The sum
/// of the server's two durations must fit in a `u64`.
pub fn silence_limit_ms(pong_timeout_secs: u64, ping_interval_ms: u64, ping_timeout_ms: u64) -> (r: u128)
    requires
        ping_interval_ms + ping_timeout_ms <= u64::MAX,
    ensures
        r == spec_silence_limit_ms(pong_timeout_secs, ping_interval_ms, ping_timeout_ms),
{
    let configured: u128 = pong_timeout_secs as u128 * 1000;
    if ping_interval_ms > 0 && ping_timeout_ms > 0 {
        let negotiated: u128 = (ping_interval_ms + ping_timeout_ms) as u128;
        if negotiated > configured {
            return negotiated;
        }
    }
    configured
}

/// The primary namespace of an app: the first one registered, or `/`.
pub open spec fn spec_primary_namespace(namespaces: Seq<Seq<char>>) -> Seq<char> {
    if namespaces.len() > 0 {
        namespaces[0]
    } else {
        root_ns()
    }
}

/// Picks the primary namespace among those registered, in order.
pub fn primary_namespace(namespaces: &Vec<String>) -> (r: String)
    ensures
        r@ == spec_primary_namespace(namespaces@.map_values(|s: String| s@)),
{
    if namespaces.len() > 0 {
        namespaces[0].clone()
    } else {
        root_string()
    }
}

/// Whether a periodic task that ran `executed` times has run its course: a
/// limit `count` is set (0 means none) and it ran that many times.
pub open spec fn spec_interval_done(count: int, executed: int) -> bool {
    count != 0 && executed >= count
}

/// Decides whether a periodic task has run its course.
pub fn interval_done(count: usize, executed: usize) -> (b: bool)
    ensures
        b == spec_interval_done(count as int, executed as int),
{
    count != 0 && executed >= count
}

/// The state of the reconnect loop: whether the next attempt is a
/// reconnection, and how many reconnection attempts failed in a row.
pub struct ReconnectState {
    pub is_reconnect: bool,
    pub attempts: usize,
}

/// What the loop does once an attempt ended.
pub struct AttemptOutcome {
    /// Announce a successful reconnection after this many attempts.
    pub reconnected_after: Option<usize>,
    /// Wait until the connection goes down before going on.
    pub wait_for_disconnect: bool,
}

impl ReconnectState {
    /// The state before the first connection.
    pub fn new() -> (s: Self)
        ensures
            !s.is_reconnect,
            s.attempts == 0,
    {
        ReconnectState { is_reconnect: false, attempts: 0 }
    }

    /// Starts an attempt: a reconnection counts one more attempt and
    /// announces its number; the first connection announces nothing.
    pub fn begin_attempt(&mut self) -> (announce: Option<usize>)
        requires
            old(self).is_reconnect ==> old(self).attempts < usize::MAX,
        ensures
            final(self).is_reconnect == old(self).is_reconnect,
            final(self).attempts == (if old(self).is_reconnect {
                old(self).attempts + 1
            } else {
                old(self).attempts as int
            }),
            announce == (if old(self).is_reconnect {
                Some((old(self).attempts + 1) as usize)
            } else {
                None
            }),
    {
        if self.is_reconnect {
            self.attempts = self.attempts + 1;
            Some(self.attempts)
        } else {
            None
        }
    }

    /// Ends an attempt. A success announces the reconnection (with the
    /// number of attempts it took) unless it was the first connection,
    /// resets the count and waits for the connection to go down; either way
    /// the next attempt is a reconnection.
    pub fn end_attempt(&mut self, connected: bool) -> (o: AttemptOutcome)
        ensures
            final(self).is_reconnect,
            final(self).attempts == (if connected {
                0
            } else {
                old(self).attempts
            }),
            o.wait_for_disconnect == connected,
            o.reconnected_after == (if connected && old(self).is_reconnect {
                Some(old(self).attempts)
            } else {
                None
            }),
    {
        if connected {
            let reconnected_after = if self.is_reconnect {
                Some(self.attempts)
            } else {
                None
            };
            self.is_reconnect = true;
            self.attempts = 0;
            AttemptOutcome { reconnected_after, wait_for_disconnect: true }
        } else {
            self.is_reconnect = true;
            AttemptOutcome { reconnected_after: None, wait_for_disconnect: false }
        }
    }

    /// Whether to give up: a retry limit is set (0 means none) and that many
    /// reconnection attempts failed.
    pub fn should_give_up(&self, retry_count: usize) -> (b: bool)
        ensures
            b == (retry_count > 0 && self.attempts >= retry_count),
    {
        retry_count > 0 && self.attempts >= retry_count
    }
}

/// The state after `k` failed reconnection attempts (begin, then end
/// without a connection), starting from `(is_reconnect, attempts)`.
pub open spec fn after_failures(is_reconnect: bool, attempts: nat, k: nat) -> (bool, nat)
    decreases k,
{
    if k == 0 {
        (is_reconnect, attempts)
    } else {
        let (r, a) = after_failures(is_reconnect, attempts, (k - 1) as nat);
        (true, if r { a + 1 } else { a })
    }
}

/// Law: once a connection has been made (or tried), `k` failed attempts in
/// a row leave the count at `k`; so with a retry limit `n > 0` the loop
/// gives up after exactly `n` failed reconnection attempts, never before.
pub proof fn law_gives_up_after_retry_count(n: nat, k: nat)
    requires
        n > 0,
    ensures
        after_failures(true, 0, k) == (true, k),
        (after_failures(true, 0, k).1 >= n) == (k >= n),
    decreases k,
{
    if k > 0 {
        law_gives_up_after_retry_count(n, (k - 1) as nat);
    }
}

/// The transport a connection runs over once the WebSocket upgrade was
/// tried (or not): WebSocket when it opened; long polling when it was not
/// tried, or failed and falling back is allowed; none (the connection fails
/// with the upgrade's error) when it failed and falling back is not allowed.
pub open spec fn spec_transport_after_upgrade(tried: bool, opened: bool, fallback: bool) -> Option<TransportMode> {
    if tried && opened {
        Some(TransportMode::WebSocket)
    } else if !tried || fallback {
        Some(TransportMode::Polling)
    } else {
        None
    }
}

/// Decides the transport after the WebSocket upgrade was tried or skipped.
pub fn transport_after_upgrade(tried: bool, opened: bool, fallback: bool) -> (r: Option<TransportMode>)
    ensures
        r == spec_transport_after_upgrade(tried, opened, fallback),
{
    if tried && opened {
        Some(TransportMode::WebSocket)
    } else if !tried || fallback {
        Some(TransportMode::Polling)
    } else {
        None
    }
}

/// Whether the server stayed silent for longer than the limit: more
/// nanoseconds elapsed since the last ping than the limit in milliseconds.
pub open spec fn spec_silence_expired(elapsed_nanos: u128, limit_ms: u128) -> bool {
    elapsed_nanos > limit_ms * 1_000_000
}

/// What the heartbeat watchdog does when it looks: once the silence limit
/// is passed, every namespace is told of the error `message`, then that it
/// is disconnected, and the connection stops; before that, nothing.
pub open spec fn spec_watchdog_effects<W>(elapsed_nanos: u128, limit_ms: u128, message: Seq<char>) -> Seq<EffectModel<W>> {
    if spec_silence_expired(elapsed_nanos, limit_ms) {
        seq![
            EffectModel::Broadcast { event: SYS_ERROR@, data: Json::Str(message) },
            EffectModel::Broadcast { event: SYS_DISCONNECT@, data: Json::Null },
            EffectModel::Stop,
        ]
    } else {
        Seq::empty()
    }
}

/// The watchdog's check, `elapsed_nanos` after the last ping, against a
/// silence limit of `limit_ms` milliseconds.
pub fn watchdog_effects<W>(elapsed_nanos: u128, limit_ms: u128, message: String) -> (r: Vec<Effect<W>>)
    ensures
        effects_model(r@) == spec_watchdog_effects::<W>(elapsed_nanos, limit_ms, message@),
{
    let bound: u128 = u128::MAX / 1_000_000;
    let expired = if limit_ms > bound {
        proof {
            assert(limit_ms * 1_000_000 > u128::MAX) by (nonlinear_arith)
                requires
                    limit_ms > bound,
                    bound == u128::MAX / 1_000_000,
            ;
        }
        false
    } else {
        proof {
            assert(limit_ms * 1_000_000 <= u128::MAX) by (nonlinear_arith)
                requires
                    limit_ms <= bound,
                    bound == u128::MAX / 1_000_000,
            ;
        }
        elapsed_nanos > limit_ms * 1_000_000
    };
    let mut out: Vec<Effect<W>> = Vec::new();
    if expired {
        out.push(Effect::Broadcast { event: SYS_ERROR.to_owned(), data: JsonValue::Str(message) });
        out.push(Effect::Broadcast { event: SYS_DISCONNECT.to_owned(), data: JsonValue::Null });
        out.push(Effect::Stop);
    }
    proof {
        assert(effects_model(out@) =~= spec_watchdog_effects::<W>(elapsed_nanos, limit_ms, message@));
    }
    out
}

/// The running periodic tasks of a socket, by name.
pub struct IntervalTasks<T> {
    entries: Vec<(String, T)>,
}

/// No name has two tasks.
pub open spec fn unique_task_names<T>(s: Seq<(Seq<char>, T)>) -> bool {
    forall|i: int, j: int| 0 <= i < j < s.len() ==> s[i].0 != s[j].0
}

/// The task running under `name`, if any.
pub open spec fn task_of<T>(s: Seq<(Seq<char>, T)>, name: Seq<char>) -> Option<T> {
    match key_index(s, name) {
        Some(i) => Some(s[i].1),
        None => None,
    }
}

/// The tasks without the one running under `name`.
pub open spec fn without_task<T>(s: Seq<(Seq<char>, T)>, name: Seq<char>) -> Seq<(Seq<char>, T)> {
    match key_index(s, name) {
        Some(i) => s.remove(i),
        None => s,
    }
}

impl<T> View for IntervalTasks<T> {
    type V = Seq<(Seq<char>, T)>;

    closed spec fn view(&self) -> Seq<(Seq<char>, T)> {
        Seq::new(self.entries@.len(), |i: int| (self.entries@[i].0@, self.entries@[i].1))
    }
}

/// Removing the entry for `name` from names that are unique leaves unique
/// names and no entry for `name`.
proof fn lemma_without_task<T>(s: Seq<(Seq<char>, T)>, name: Seq<char>)
    requires
        unique_task_names(s),
    ensures
        unique_task_names(without_task(s, name)),
        key_index(without_task(s, name), name) is None,
{
    lemma_key_index(s, name);
    let r = without_task(s, name);
    match key_index(s, name) {
        Some(i) => {
            assert forall|j: int| 0 <= j < r.len() implies r[j].0 != name by {
                if j < i {
                    assert(r[j] == s[j]);
                } else {
                    assert(r[j] == s[j + 1]);
                }
            }
            assert forall|a: int, b: int| 0 <= a < b < r.len() implies r[a].0 != r[b].0 by {
                let a0 = if a < i { a } else { a + 1 };
                let b0 = if b < i { b } else { b + 1 };
                assert(r[a] == s[a0]);
                assert(r[b] == s[b0]);
            }
        },
        None => {},
    }
    lemma_key_index(r, name);
}

impl<T> IntervalTasks<T> {
    /// At most one task runs under each name.
    #[verifier::type_invariant]
    spec fn inv(self) -> bool {
        unique_task_names(self@)
    }

    /// No task runs.
    pub fn new() -> (r: Self)
        ensures
            r@ == Seq::<(Seq<char>, T)>::empty(),
    {
        let r = IntervalTasks { entries: Vec::new() };
        proof {
            assert(r@ =~= Seq::<(Seq<char>, T)>::empty());
        }
        r
    }

    /// Stops tracking the task running under `name` and hands it back, for
    /// the caller to abort.
    pub fn remove(&mut self, name: &str) -> (r: Option<T>)
        ensures
            r == task_of(old(self)@, name@),
            final(self)@ == without_task(old(self)@, name@),
            task_of(final(self)@, name@) is None,
            unique_task_names(final(self)@),
    {
        proof {
            use_type_invariant(&*self);
        }
        let ghost s0 = self@;
        let k = name.to_owned();
        let mut i: usize = 0;
        while i < self.entries.len()
            invariant
                i <= self.entries@.len(),
                s0 == self@,
                s0 == old(self)@,
                unique_task_names(s0),
                k@ == name@,
                forall|j: int| 0 <= j < i ==> s0[j].0 != name@,
            decreases self.entries@.len() - i,
        {
            if self.entries[i].0 == k {
                proof {
                    assert(s0[i as int].0 == name@);
                    lemma_key_index_of(s0, name@, i as int);
                    lemma_without_task(s0, name@);
                }
                let mut entries: Vec<(String, T)> = Vec::new();
                std::mem::swap(&mut entries, &mut self.entries);
                let ghost before = entries@;
                proof {
                    assert(before[i as int].1 == s0[i as int].1);
                }
                let (_, t) = entries.remove(i);
                proof {
                    let m = Seq::new(entries@.len(), |q: int| (entries@[q].0@, entries@[q].1));
                    assert(m =~= without_task(s0, name@));
                    assert(t == before[i as int].1);
                }
                self.entries = entries;
                return Some(t);
            }
            i = i + 1;
        }
        proof {
            lemma_key_index_of(s0, name@, i as int);
            lemma_without_task(s0, name@);
        }
        None
    }

    /// Tracks `task` as the one running under `name`, handing back the task
    /// that ran under that name before (for the caller to abort).
    pub fn replace(&mut self, name: &str, task: T) -> (r: Option<T>)
        ensures
            r == task_of(old(self)@, name@),
            final(self)@ == without_task(old(self)@, name@).push((name@, task)),
            task_of(final(self)@, name@) == Some(task),
            unique_task_names(final(self)@),
    {
        let prev = self.remove(name);
        proof {
            use_type_invariant(&*self);
        }
        let ghost s1 = self@;
        let mut entries: Vec<(String, T)> = Vec::new();
        std::mem::swap(&mut entries, &mut self.entries);
        entries.push((name.to_owned(), task));
        proof {
            let m = Seq::new(entries@.len(), |q: int| (entries@[q].0@, entries@[q].1));
            assert(m =~= s1.push((name@, task)));
            lemma_key_index(s1, name@);
            assert forall|a: int, b: int| 0 <= a < b < m.len() implies m[a].0 != m[b].0 by {
                if b == s1.len() {
                    assert(m[a] == s1[a]);
                } else {
                    assert(m[a] == s1[a]);
                    assert(m[b] == s1[b]);
                }
            }
            lemma_key_index_of(m, name@, s1.len() as int);
        }
        self.entries = entries;
        prev
    }
}

/// Law: a periodic task that counts its runs from 0 and checks
/// `interval_done` before each run runs exactly `count` times when
/// `count > 0`, and is never done when `count == 0`.
pub proof fn law_interval_runs(count: nat)
    ensures
        count > 0 ==> spec_interval_done(count as int, count as int),
        count > 0 ==> forall|k: int| 0 <= k < count ==> !#[trigger] spec_interval_done(count as int, k),
        count == 0 ==> forall|k: int| 0 <= k ==> !#[trigger] spec_interval_done(count as int, k),
{
}

/// The counter after handing out id `n`: the next id, wrapping from
/// `u64::MAX` round to 0.
pub open spec fn next_ack_id(n: u64) -> u64 {
    if n == u64::MAX {
        0
    } else {
        (n + 1) as u64
    }
}

/// The ids that `k` successive calls of `AckIds::next_id` hand out from a
/// counter at `start`, in order.
pub open spec fn ack_ids_issued(start: u64, k: nat) -> Seq<u64>
    decreases k,
{
    if k == 0 {
        Seq::empty()
    } else {
        seq![start] + ack_ids_issued(next_ack_id(start), (k - 1) as nat)
    }
}

/// The ack ids of a client's emitted events, shared by all its handles.
pub struct AckIds {
    next: u64,
}

impl View for AckIds {
    type V = u64;

    closed spec fn view(&self) -> u64 {
        self.next
    }
}

impl AckIds {
    /// A counter whose first id is 1.
    pub fn new() -> (r: Self)
        ensures
            r@ == 1,
    {
        AckIds { next: 1 }
    }

    /// Hands out the next ack id.
    pub fn next_id(&mut self) -> (id: u64)
        ensures
            id == old(self)@,
            final(self)@ == next_ack_id(old(self)@),
            ack_ids_issued(old(self)@, 1) == seq![id],
    {
        let id = self.next;
        self.next = if id == u64::MAX {
            0
        } else {
            id + 1
        };
        proof {
            assert(ack_ids_issued(next_ack_id(id), 0) =~= Seq::<u64>::empty());
            assert(ack_ids_issued(id, 1) =~= seq![id]);
        }
        id
    }
}

/// Ids handed out from `start` with no wrap in between are `start`,
/// `start + 1`, and so on.
proof fn lemma_ack_ids_issued(start: u64, k: nat)
    requires
        start + k <= u64::MAX + 1,
    ensures
        ack_ids_issued(start, k).len() == k,
        forall|i: int| 0 <= i < k ==> #[trigger] ack_ids_issued(start, k)[i] == start + i,
    decreases k,
{
    if k > 0 {
        let rest = ack_ids_issued(next_ack_id(start), (k - 1) as nat);
        if k > 1 {
            lemma_ack_ids_issued(next_ack_id(start), (k - 1) as nat);
        } else {
            assert(rest =~= Seq::<u64>::empty());
        }
        assert forall|i: int| 0 <= i < k implies #[trigger] ack_ids_issued(start, k)[i] == start + i by {
            if i > 0 {
                assert(ack_ids_issued(start, k)[i] == rest[i - 1]);
            }
        }
    }
}

/// Law: the ack ids of a client start at 1 and rise by one per emitted
/// event, so no id is handed out twice (within the first `u64::MAX` ids,
/// after which the counter wraps).
pub proof fn law_ack_ids_never_reused(k: nat)
    requires
        k <= u64::MAX,
    ensures
        ack_ids_issued(1, k).len() == k,
        forall|i: int| 0 <= i < k ==> #[trigger] ack_ids_issued(1, k)[i] == i + 1,
        forall|i: int, j: int| 0 <= i < j < k ==> ack_ids_issued(1, k)[i] != ack_ids_issued(1, k)[j],
{
    lemma_ack_ids_issued(1, k);
    assert forall|i: int, j: int| 0 <= i < j < k implies ack_ids_issued(1, k)[i] != ack_ids_issued(1, k)[j] by {
        assert(ack_ids_issued(1, k)[i] == 1 + i);
        assert(ack_ids_issued(1, k)[j] == 1 + j);
    }
}

} // verus!
