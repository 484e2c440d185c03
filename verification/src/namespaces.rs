//! Per-namespace state of a client: connection state, auth payload, event
//! handlers and the ack waiters of emitted events.
//!
//! The table is generic over the handler type `H` and the waiter type `W`
//! (whatever the transport uses to hand an ack's payload back to the task
//! that waits for it).
use vstd::prelude::*;
use crate::json::{Json, JsonValue};
use crate::socket_io_client::{connect_packet, spec_connect_packet};

verus! {

/// The state of one namespace.
pub struct NsState<H, W> {
    /// Session id the server assigned on CONNECT.
    pub sid: Option<String>,
    /// Handlers per event name, in registration order.
    pub handlers: Vec<(String, Vec<H>)>,
    /// Waiters of emitted events, by ack id.
    pub ack_waiters: Vec<(u64, W)>,
    /// Payload sent with CONNECT.
    pub auth: Option<JsonValue>,
    /// Whether the server confirmed the namespace.
    pub connected: bool,
}

/// The model of a namespace's state.
pub struct NsModel<H, W> {
    pub sid: Option<Seq<char>>,
    pub handlers: Seq<(Seq<char>, Seq<H>)>,
    pub waiters: Seq<(u64, W)>,
    pub auth: Option<Json>,
    pub connected: bool,
}

impl<H, W> NsState<H, W> {
    /// The model of this state.
    pub open spec fn model(&self) -> NsModel<H, W> {
        NsModel {
            sid: match self.sid {
                Some(s) => Some(s@),
                None => None,
            },
            handlers: handlers_model(self.handlers@),
            waiters: self.ack_waiters@,
            auth: match self.auth {
                Some(a) => Some(a@),
                None => None,
            },
            connected: self.connected,
        }
    }

    /// A fresh namespace: not connected, no session, no handlers, no waiters.
    pub fn new() -> (s: Self)
        ensures
            s.model() == fresh_ns::<H, W>(),
    {
        let s = NsState { sid: None, handlers: Vec::new(), ack_waiters: Vec::new(), auth: None, connected: false };
        proof {
            assert(s.model().handlers =~= Seq::<(Seq<char>, Seq<H>)>::empty());
        }
        s
    }
}

/// The model of a namespace's handler lists.
pub open spec fn handlers_model<H>(v: Seq<(String, Vec<H>)>) -> Seq<(Seq<char>, Seq<H>)> {
    Seq::new(v.len(), |i: int| (v[i].0@, v[i].1@))
}

/// Index of the handler list for `e`.
fn find_event<H>(hs: &Vec<(String, Vec<H>)>, e: &String) -> (r: Option<usize>)
    ensures
        match r {
            Some(j) => j < hs@.len() && key_index(handlers_model(hs@), e@) == Some(j as int),
            None => key_index(handlers_model(hs@), e@) is None,
        },
{
    let ghost m = handlers_model(hs@);
    let mut j: usize = 0;
    while j < hs.len() && hs[j].0 != *e
        invariant
            j <= hs@.len(),
            m == handlers_model(hs@),
            forall|q: int| 0 <= q < j ==> m[q].0 != e@,
        decreases hs@.len() - j,
    {
        j = j + 1;
    }
    proof {
        lemma_key_index_of(m, e@, j as int);
    }
    if j < hs.len() {
        Some(j)
    } else {
        None
    }
}

/// The model of a table: namespaces and their state, in registration order.
pub type TableModel<H, W> = Seq<(Seq<char>, NsModel<H, W>)>;

/// The state of a namespace nobody has touched.
pub open spec fn fresh_ns<H, W>() -> NsModel<H, W> {
    NsModel { sid: None, handlers: Seq::empty(), waiters: Seq::empty(), auth: None, connected: false }
}

/// Index of the first entry named `k`.
pub open spec fn key_index<V>(s: Seq<(Seq<char>, V)>, k: Seq<char>) -> Option<int>
    decreases s.len(),
{
    if s.len() == 0 {
        None
    } else if s[0].0 == k {
        Some(0)
    } else {
        match key_index(s.drop_first(), k) {
            Some(i) => Some(i + 1),
            None => None,
        }
    }
}

/// Index of the first waiter for `id`.
pub open spec fn id_index<W>(s: Seq<(u64, W)>, id: u64) -> Option<int>
    decreases s.len(),
{
    if s.len() == 0 {
        None
    } else if s[0].0 == id {
        Some(0)
    } else {
        match id_index(s.drop_first(), id) {
            Some(i) => Some(i + 1),
            None => None,
        }
    }
}

/// `key_index` finds the first entry named `k`, and only such an entry.
pub proof fn lemma_key_index<V>(s: Seq<(Seq<char>, V)>, k: Seq<char>)
    ensures
        match key_index(s, k) {
            Some(i) => 0 <= i < s.len() && s[i].0 == k && forall|j: int| 0 <= j < i ==> s[j].0 != k,
            None => forall|j: int| 0 <= j < s.len() ==> s[j].0 != k,
        },
    decreases s.len(),
{
    if s.len() > 0 && s[0].0 != k {
        lemma_key_index(s.drop_first(), k);
        assert forall|j: int| 1 <= j < s.len() implies s[j] == s.drop_first()[j - 1] by {}
    }
}

/// `id_index` finds the first waiter for `id`, and only such a waiter.
pub proof fn lemma_id_index<W>(s: Seq<(u64, W)>, id: u64)
    ensures
        match id_index(s, id) {
            Some(i) => 0 <= i < s.len() && s[i].0 == id && forall|j: int| 0 <= j < i ==> s[j].0 != id,
            None => forall|j: int| 0 <= j < s.len() ==> s[j].0 != id,
        },
    decreases s.len(),
{
    if s.len() > 0 && s[0].0 != id {
        lemma_id_index(s.drop_first(), id);
        assert forall|j: int| 1 <= j < s.len() implies s[j] == s.drop_first()[j - 1] by {}
    }
}

/// A first entry named `k` at `i` is what `key_index` finds.
pub proof fn lemma_key_index_of<V>(s: Seq<(Seq<char>, V)>, k: Seq<char>, i: int)
    requires
        0 <= i <= s.len(),
        forall|j: int| 0 <= j < i ==> s[j].0 != k,
        i == s.len() || s[i].0 == k,
    ensures
        key_index(s, k) == (if i < s.len() { Some(i) } else { None }),
    decreases s.len(),
{
    if i > 0 {
        assert forall|j: int| 0 <= j < i - 1 implies s.drop_first()[j].0 != k by {
            assert(s.drop_first()[j] == s[j + 1]);
        }
        lemma_key_index_of(s.drop_first(), k, i - 1);
    }
}

/// A first waiter for `id` at `i` is what `id_index` finds.
pub proof fn lemma_id_index_of<W>(s: Seq<(u64, W)>, id: u64, i: int)
    requires
        0 <= i <= s.len(),
        forall|j: int| 0 <= j < i ==> s[j].0 != id,
        i == s.len() || s[i].0 == id,
    ensures
        id_index(s, id) == (if i < s.len() { Some(i) } else { None }),
    decreases s.len(),
{
    if i > 0 {
        assert forall|j: int| 0 <= j < i - 1 implies s.drop_first()[j].0 != id by {
            assert(s.drop_first()[j] == s[j + 1]);
        }
        lemma_id_index_of(s.drop_first(), id, i - 1);
    }
}

/// The table with `ns` present: unchanged if it is, else with a fresh
/// namespace added at the end.
pub open spec fn with_ns<H, W>(t: Seq<(Seq<char>, NsModel<H, W>)>, ns: Seq<char>) -> Seq<(Seq<char>, NsModel<H, W>)> {
    if key_index(t, ns) is Some {
        t
    } else {
        t.push((ns, fresh_ns()))
    }
}

/// The state of `ns` in the table, if it is there.
pub open spec fn ns_model<H, W>(t: Seq<(Seq<char>, NsModel<H, W>)>, ns: Seq<char>) -> Option<NsModel<H, W>> {
    match key_index(t, ns) {
        Some(i) => Some(t[i].1),
        None => None,
    }
}

/// The table with the state of `ns` (added if missing) replaced by `m`.
pub open spec fn put_ns<H, W>(t: Seq<(Seq<char>, NsModel<H, W>)>, ns: Seq<char>, m: NsModel<H, W>) -> Seq<(Seq<char>, NsModel<H, W>)> {
    let u = with_ns(t, ns);
    u.update(key_index(u, ns).unwrap(), (ns, m))
}

/// The state of `ns`, a fresh one when it is missing.
pub open spec fn ns_or_fresh<H, W>(t: Seq<(Seq<char>, NsModel<H, W>)>, ns: Seq<char>) -> NsModel<H, W> {
    match ns_model(t, ns) {
        Some(m) => m,
        None => fresh_ns(),
    }
}

/// Handlers with `h` added for `event` (after the ones already there).
pub open spec fn add_handler_model<H>(hs: Seq<(Seq<char>, Seq<H>)>, event: Seq<char>, h: H) -> Seq<(Seq<char>, Seq<H>)> {
    match key_index(hs, event) {
        Some(i) => hs.update(i, (event, hs[i].1.push(h))),
        None => hs.push((event, seq![h])),
    }
}

/// Waiters without the one for `id`.
pub open spec fn without_waiter<W>(ws: Seq<(u64, W)>, id: u64) -> Seq<(u64, W)> {
    match id_index(ws, id) {
        Some(i) => ws.remove(i),
        None => ws,
    }
}

/// The waiter of `id` in namespace `ns`.
pub open spec fn waiter_of<H, W>(t: Seq<(Seq<char>, NsModel<H, W>)>, ns: Seq<char>, id: u64) -> Option<W> {
    match ns_model(t, ns) {
        Some(m) => match id_index(m.waiters, id) {
            Some(i) => Some(m.waiters[i].1),
            None => None,
        },
        None => None,
    }
}

/// The table after `take_waiter(ns, id)`.
pub open spec fn taken_waiter<H, W>(t: Seq<(Seq<char>, NsModel<H, W>)>, ns: Seq<char>, id: u64) -> Seq<(Seq<char>, NsModel<H, W>)> {
    match ns_model(t, ns) {
        Some(m) => put_ns(t, ns, NsModel { waiters: without_waiter(m.waiters, id), ..m }),
        None => t,
    }
}

/// The table after `add_waiter(ns, id, w)`: `ns` present, its waiter for
/// `id` replaced by `w`.
pub open spec fn added_waiter<H, W>(t: Seq<(Seq<char>, NsModel<H, W>)>, ns: Seq<char>, id: u64, w: W) -> Seq<(Seq<char>, NsModel<H, W>)> {
    let m = ns_or_fresh(t, ns);
    put_ns(t, ns, NsModel { waiters: without_waiter(m.waiters, id).push((id, w)), ..m })
}

/// A namespace after the whole connection went down: not connected, no
/// session, no waiters.
pub open spec fn reset_ns<H, W>(m: NsModel<H, W>) -> NsModel<H, W> {
    NsModel { sid: None, waiters: Seq::empty(), connected: false, ..m }
}

/// The namespaces of a client and their state, in registration order.
pub struct NsTable<H, W> {
    entries: Vec<(String, NsState<H, W>)>,
}

/// The model of a table's entries.
pub open spec fn entries_model<H, W>(v: Seq<(String, NsState<H, W>)>) -> Seq<(Seq<char>, NsModel<H, W>)> {
    Seq::new(v.len(), |i: int| (v[i].0@, v[i].1.model()))
}

impl<H, W> View for NsTable<H, W> {
    type V = Seq<(Seq<char>, NsModel<H, W>)>;

    closed spec fn view(&self) -> Seq<(Seq<char>, NsModel<H, W>)> {
        entries_model(self.entries@)
    }
}

/// No namespace has two entries.
pub open spec fn unique_names<H, W>(t: Seq<(Seq<char>, NsModel<H, W>)>) -> bool {
    forall|i: int, j: int| 0 <= i < j < t.len() ==> t[i].0 != t[j].0
}

impl<H, W> NsTable<H, W> {
    /// Every namespace has exactly one entry.
    #[verifier::type_invariant]
    spec fn inv(self) -> bool {
        unique_names(entries_model(self.entries@))
    }

    /// A table holding only the namespace `/`.
    pub fn new() -> (t: Self)
        ensures
            t@ == seq![(seq!['/'], fresh_ns::<H, W>())],
    {
        let mut entries: Vec<(String, NsState<H, W>)> = Vec::new();
        entries.push((crate::text::root_string(), NsState::new()));
        let t = NsTable { entries };
        proof {
            assert(t@ =~= seq![(seq!['/'], fresh_ns::<H, W>())]);
        }
        t
    }

    /// Index of the entry for `ns`.
    fn find(&self, ns: &String) -> (r: Option<usize>)
        ensures
            self@.len() == self.entries@.len(),
            match r {
                Some(i) => i < self.entries@.len() && key_index(self@, ns@) == Some(i as int),
                None => key_index(self@, ns@) is None,
            },
    {
        let mut i: usize = 0;
        while i < self.entries.len()
            invariant
                i <= self.entries@.len(),
                forall|j: int| 0 <= j < i ==> self@[j].0 != ns@,
            decreases self.entries@.len() - i,
        {
            if self.entries[i].0 == *ns {
                proof {
                    lemma_key_index_of(self@, ns@, i as int);
                }
                return Some(i);
            }
            i = i + 1;
        }
        proof {
            lemma_key_index_of(self@, ns@, i as int);
        }
        None
    }

    /// Index of the entry for `ns`, adding a fresh entry when it is missing.
    fn ensure_index(&mut self, ns: &String) -> (i: usize)
        ensures
            final(self)@ == with_ns(old(self)@, ns@),
            i < final(self)@.len(),
            key_index(final(self)@, ns@) == Some(i as int),
    {
        match self.find(ns) {
            Some(i) => i,
            None => {
                proof {
                    use_type_invariant(&*self);
                }
                let ghost t = self@;
                let mut entries: Vec<(String, NsState<H, W>)> = Vec::new();
                std::mem::swap(&mut entries, &mut self.entries);
                entries.push((ns.clone(), NsState::new()));
                proof {
                    let e = entries_model(entries@);
                    assert(e =~= t.push((ns@, fresh_ns())));
                    lemma_key_index(t, ns@);
                    assert forall|a: int, b: int| 0 <= a < b < e.len() implies e[a].0 != e[b].0 by {
                        if b == t.len() {
                            assert(e[a] == t[a]);
                        } else {
                            assert(e[a] == t[a]);
                            assert(e[b] == t[b]);
                        }
                    }
                    lemma_key_index_of(e, ns@, t.len() as int);
                }
                self.entries = entries;
                self.entries.len() - 1
            },
        }
    }

    /// Replaces the state at index `i`.
    fn put(&mut self, i: usize, st: NsState<H, W>)
        requires
            i < old(self)@.len(),
        ensures
            final(self)@ == old(self)@.update(i as int, (old(self)@[i as int].0, st.model())),
            final(self).entries@.len() == old(self).entries@.len(),
    {
        proof {
            use_type_invariant(&*self);
        }
        let ghost t = self@;
        let mut entries: Vec<(String, NsState<H, W>)> = Vec::new();
        std::mem::swap(&mut entries, &mut self.entries);
        let (k, _old) = entries.remove(i);
        entries.insert(i, (k, st));
        proof {
            let e = entries_model(entries@);
            assert(e =~= t.update(i as int, (t[i as int].0, st.model())));
            assert forall|a: int, b: int| 0 <= a < b < e.len() implies e[a].0 != e[b].0 by {
                assert(e[a].0 == t[a].0);
                assert(e[b].0 == t[b].0);
            }
        }
        self.entries = entries;
    }

    /// Takes out the state at index `i`, leaving a fresh one in its place.
    fn take(&mut self, i: usize) -> (st: NsState<H, W>)
        requires
            i < old(self)@.len(),
        ensures
            st.model() == old(self)@[i as int].1,
            final(self).entries@.len() == old(self).entries@.len(),
            final(self)@ == old(self)@.update(i as int, (old(self)@[i as int].0, fresh_ns())),
    {
        proof {
            use_type_invariant(&*self);
        }
        let ghost t = self@;
        let mut entries: Vec<(String, NsState<H, W>)> = Vec::new();
        std::mem::swap(&mut entries, &mut self.entries);
        let (k, st) = entries.remove(i);
        entries.insert(i, (k, NsState::new()));
        proof {
            let e = entries_model(entries@);
            assert(e =~= t.update(i as int, (t[i as int].0, fresh_ns())));
            assert forall|a: int, b: int| 0 <= a < b < e.len() implies e[a].0 != e[b].0 by {
                assert(e[a].0 == t[a].0);
                assert(e[b].0 == t[b].0);
            }
        }
        self.entries = entries;
        st
    }

    /// Makes sure `ns` has an entry (a fresh one when it is new).
    pub fn ensure(&mut self, ns: &str)
        ensures
            final(self)@ == with_ns(old(self)@, ns@),
    {
        let k = ns.to_owned();
        let _ = self.ensure_index(&k);
    }

    /// The namespaces, in registration order, each once.
    pub fn namespaces(&self) -> (r: Vec<String>)
        ensures
            unique_names(self@),
            r@.len() == self@.len(),
            forall|i: int| 0 <= i < r@.len() ==> #[trigger] r@[i]@ == self@[i].0,
    {
        proof {
            use_type_invariant(self);
        }
        let mut r: Vec<String> = Vec::new();
        let mut i: usize = 0;
        while i < self.entries.len()
            invariant
                i <= self.entries@.len(),
                r@.len() == i,
                forall|j: int| 0 <= j < i ==> #[trigger] r@[j]@ == self@[j].0,
            decreases self.entries@.len() - i,
        {
            r.push(self.entries[i].0.clone());
            i = i + 1;
        }
        r
    }

    /// The state of `ns`, if it has an entry.
    pub fn get(&self, ns: &str) -> (r: Option<&NsState<H, W>>)
        ensures
            match r {
                Some(st) => ns_model(self@, ns@) == Some(st.model()),
                None => ns_model(self@, ns@) is None,
            },
    {
        let k = ns.to_owned();
        match self.find(&k) {
            Some(i) => Some(&self.entries[i].1),
            None => None,
        }
    }

    /// Sets the CONNECT auth payload of `ns`, adding the namespace if needed.
    pub fn set_auth(&mut self, ns: &str, auth: JsonValue)
        ensures
            final(self)@ == put_ns(old(self)@, ns@, NsModel { auth: Some(auth@), ..ns_or_fresh(old(self)@, ns@) }),
    {
        let k = ns.to_owned();
        let i = self.ensure_index(&k);
        let mut st = self.take(i);
        st.auth = Some(auth);
        self.put(i, st);
        proof {
            lemma_key_index(old(self)@, ns@);
            lemma_key_index(with_ns(old(self)@, ns@), ns@);
        }
    }

    /// Forgets the CONNECT auth payload of `ns` (a missing namespace stays missing).
    pub fn clear_auth(&mut self, ns: &str)
        ensures
            final(self)@ == match ns_model(old(self)@, ns@) {
                Some(m) => put_ns(old(self)@, ns@, NsModel { auth: None, ..m }),
                None => old(self)@,
            },
    {
        let k = ns.to_owned();
        match self.find(&k) {
            Some(i) => {
                let mut st = self.take(i);
                st.auth = None;
                self.put(i, st);
                proof {
                    lemma_key_index(old(self)@, ns@);
                }
            },
            None => {},
        }
    }

    /// Registers handler `h` for `event` in `ns`, after those already there.
    pub fn add_handler(&mut self, ns: &str, event: &str, h: H)
        ensures
            final(self)@ == put_ns(
                old(self)@,
                ns@,
                NsModel {
                    handlers: add_handler_model(ns_or_fresh(old(self)@, ns@).handlers, event@, h),
                    ..ns_or_fresh(old(self)@, ns@)
                },
            ),
    {
        let k = ns.to_owned();
        let i = self.ensure_index(&k);
        let mut st = self.take(i);
        let ghost m0 = st.model();
        let e = event.to_owned();
        let found = find_event(&st.handlers, &e);
        let ghost hs = m0.handlers;
        match found {
            Some(j) => {
                let (name, mut list) = st.handlers.remove(j);
                list.push(h);
                st.handlers.insert(j, (name, list));
                proof {
                    lemma_key_index(hs, event@);
                    assert(st.model().handlers =~= add_handler_model(hs, event@, h));
                }
            },
            None => {
                let mut list: Vec<H> = Vec::new();
                list.push(h);
                st.handlers.push((e, list));
                proof {
                    assert(st.model().handlers =~= add_handler_model(hs, event@, h));
                }
            },
        }
        self.put(i, st);
        proof {
            lemma_key_index(old(self)@, ns@);
            lemma_key_index(with_ns(old(self)@, ns@), ns@);
            assert(st.model() == NsModel { handlers: add_handler_model(hs, event@, h), ..m0 });
        }
    }

    /// The handlers registered for `event` in `ns`.
    pub fn handlers(&self, ns: &str, event: &str) -> (r: Option<&Vec<H>>)
        ensures
            match r {
                Some(hs) => ns_model(self@, ns@) matches Some(m) && key_index(m.handlers, event@) matches Some(j)
                    && m.handlers[j].1 == hs@,
                None => !(ns_model(self@, ns@) matches Some(m) && key_index(m.handlers, event@) is Some),
            },
    {
        match self.get(ns) {
            Some(st) => {
                let e = event.to_owned();
                match find_event(&st.handlers, &e) {
                    Some(j) => Some(&st.handlers[j].1),
                    None => None,
                }
            },
            None => None,
        }
    }

    /// Registers `w` as the waiter of ack `id` in `ns` (adding the
    /// namespace if needed); a waiter already there for `id` is dropped.
    pub fn add_waiter(&mut self, ns: &str, id: u64, w: W)
        ensures
            final(self)@ == added_waiter(old(self)@, ns@, id, w),
    {
        let k = ns.to_owned();
        let i = self.ensure_index(&k);
        let mut st = self.take(i);
        let ghost m0 = st.model();
        let _ = take_from_waiters(&mut st.ack_waiters, id);
        st.ack_waiters.push((id, w));
        self.put(i, st);
        proof {
            lemma_key_index(old(self)@, ns@);
            lemma_key_index(with_ns(old(self)@, ns@), ns@);
            assert(st.model().waiters =~= without_waiter(m0.waiters, id).push((id, w)));
            assert(st.model() == NsModel { waiters: without_waiter(m0.waiters, id).push((id, w)), ..m0 });
        }
    }

    /// Removes and returns the waiter of ack `id` in `ns`.
    pub fn take_waiter(&mut self, ns: &str, id: u64) -> (r: Option<W>)
        ensures
            r == waiter_of(old(self)@, ns@, id),
            final(self)@ == taken_waiter(old(self)@, ns@, id),
    {
        let k = ns.to_owned();
        match self.find(&k) {
            Some(i) => {
                let mut st = self.take(i);
                let ghost m0 = st.model();
                let r = take_from_waiters(&mut st.ack_waiters, id);
                self.put(i, st);
                proof {
                    lemma_key_index(old(self)@, ns@);
                    assert(st.model() == NsModel { waiters: without_waiter(m0.waiters, id), ..m0 });
                }
                r
            },
            None => None,
        }
    }

    /// Records that the server confirmed `ns` (adding it if needed), with
    /// the session id it sent.
    pub fn mark_connected(&mut self, ns: &str, sid: Option<String>)
        ensures
            final(self)@ == put_ns(
                old(self)@,
                ns@,
                NsModel {
                    sid: match sid {
                        Some(s) => Some(s@),
                        None => None,
                    },
                    connected: true,
                    ..ns_or_fresh(old(self)@, ns@)
                },
            ),
    {
        let k = ns.to_owned();
        let i = self.ensure_index(&k);
        let mut st = self.take(i);
        st.sid = sid;
        st.connected = true;
        self.put(i, st);
        proof {
            lemma_key_index(old(self)@, ns@);
            lemma_key_index(with_ns(old(self)@, ns@), ns@);
        }
    }

    /// Records that `ns` was disconnected: no longer connected, no session
    /// (a missing namespace stays missing).
    pub fn mark_disconnected(&mut self, ns: &str)
        ensures
            final(self)@ == match ns_model(old(self)@, ns@) {
                Some(m) => put_ns(old(self)@, ns@, NsModel { sid: None, connected: false, ..m }),
                None => old(self)@,
            },
    {
        let k = ns.to_owned();
        match self.find(&k) {
            Some(i) => {
                let mut st = self.take(i);
                st.sid = None;
                st.connected = false;
                self.put(i, st);
                proof {
                    lemma_key_index(old(self)@, ns@);
                }
            },
            None => {},
        }
    }

    /// Records that the server refused `ns`: no longer connected (a missing
    /// namespace stays missing).
    pub fn mark_refused(&mut self, ns: &str)
        ensures
            final(self)@ == match ns_model(old(self)@, ns@) {
                Some(m) => put_ns(old(self)@, ns@, NsModel { connected: false, ..m }),
                None => old(self)@,
            },
    {
        let k = ns.to_owned();
        match self.find(&k) {
            Some(i) => {
                let mut st = self.take(i);
                st.connected = false;
                self.put(i, st);
                proof {
                    lemma_key_index(old(self)@, ns@);
                }
            },
            None => {},
        }
    }

    /// After the connection went down: every namespace is disconnected, has
    /// no session, and its waiters are dropped.
    pub fn reset(&mut self)
        ensures
            final(self)@.len() == old(self)@.len(),
            forall|i: int| 0 <= i < old(self)@.len() ==> #[trigger] final(self)@[i] == (old(self)@[i].0, reset_ns(old(self)@[i].1)),
    {
        let mut i: usize = 0;
        while i < self.entries.len()
            invariant
                i <= self.entries@.len(),
                self@.len() == self.entries@.len(),
                self@.len() == old(self)@.len(),
                forall|j: int| 0 <= j < i ==> #[trigger] self@[j] == (old(self)@[j].0, reset_ns(old(self)@[j].1)),
                forall|j: int| i <= j < self@.len() ==> #[trigger] self@[j] == old(self)@[j],
            decreases self.entries@.len() - i,
        {
            let mut st = self.take(i);
            st.sid = None;
            st.connected = false;
            st.ack_waiters.clear();
            self.put(i, st);
            proof {
                assert(st.model().waiters =~= Seq::<(u64, W)>::empty());
            }
            i = i + 1;
        }
    }

    /// The CONNECT packet of every namespace, in registration order: one
    /// per namespace, with that namespace's auth payload.
    pub fn connect_packets(&self) -> (r: Vec<String>)
        ensures
            unique_names(self@),
            r@.len() == self@.len(),
            forall|i: int| 0 <= i < r@.len() ==> #[trigger] r@[i]@ == spec_connect_packet(self@[i].0, self@[i].1.auth),
    {
        proof {
            use_type_invariant(self);
        }
        let mut r: Vec<String> = Vec::new();
        let mut i: usize = 0;
        while i < self.entries.len()
            invariant
                i <= self.entries@.len(),
                r@.len() == i,
                forall|j: int| 0 <= j < i ==> #[trigger] r@[j]@ == spec_connect_packet(self@[j].0, self@[j].1.auth),
            decreases self.entries@.len() - i,
        {
            let p = match &self.entries[i].1.auth {
                Some(a) => connect_packet(self.entries[i].0.as_str(), Some(a)),
                None => connect_packet(self.entries[i].0.as_str(), None),
            };
            r.push(p);
            i = i + 1;
        }
        r
    }
}

/// Removes and returns the waiter for `id`.
fn take_from_waiters<W>(ws: &mut Vec<(u64, W)>, id: u64) -> (r: Option<W>)
    ensures
        r == (match id_index(old(ws)@, id) {
            Some(i) => Some(old(ws)@[i].1),
            None => None,
        }),
        final(ws)@ == without_waiter(old(ws)@, id),
{
    let mut i: usize = 0;
    while i < ws.len()
        invariant
            i <= ws@.len(),
            ws@ == old(ws)@,
            forall|j: int| 0 <= j < i ==> ws@[j].0 != id,
        decreases ws@.len() - i,
    {
        if ws[i].0 == id {
            proof {
                lemma_id_index_of(ws@, id, i as int);
            }
            let (_, w) = ws.remove(i);
            return Some(w);
        }
        i = i + 1;
    }
    proof {
        lemma_id_index_of(ws@, id, i as int);
    }
    None
}

/// No ack id has two waiters.
pub open spec fn unique_ids<W>(ws: Seq<(u64, W)>) -> bool {
    forall|i: int, j: int| 0 <= i < j < ws.len() ==> ws[i].0 != ws[j].0
}

/// In every namespace of the table, no ack id has two waiters.
pub open spec fn waiters_wf<H, W>(t: Seq<(Seq<char>, NsModel<H, W>)>) -> bool {
    forall|k: int| 0 <= k < t.len() ==> unique_ids(#[trigger] t[k].1.waiters)
}

/// Replacing the state of `ns` makes it the state found for `ns`, and
/// leaves every other entry as it was (or fresh, for a new namespace).
proof fn lemma_put_ns<H, W>(t: Seq<(Seq<char>, NsModel<H, W>)>, ns: Seq<char>, m: NsModel<H, W>)
    ensures
        ns_model(put_ns(t, ns, m), ns) == Some(m),
        forall|k: int| 0 <= k < put_ns(t, ns, m).len() ==> {
            let e = #[trigger] put_ns(t, ns, m)[k];
            e.1 == m || e.1 == fresh_ns::<H, W>() || (k < t.len() && e == t[k])
        },
{
    let u = with_ns(t, ns);
    lemma_key_index(t, ns);
    if key_index(t, ns) is None {
        lemma_key_index_of(u, ns, t.len() as int);
    }
    lemma_key_index(u, ns);
    let i = key_index(u, ns).unwrap();
    let p = u.update(i, (ns, m));
    assert forall|j: int| 0 <= j < i implies p[j].0 != ns by {
        assert(p[j] == u[j]);
    }
    lemma_key_index_of(p, ns, i);
}

/// Waiters without the one for `id`: none is left for `id` when ids were
/// unique, and ids stay unique.
proof fn lemma_without_waiter<W>(ws: Seq<(u64, W)>, id: u64)
    requires
        unique_ids(ws),
    ensures
        unique_ids(without_waiter(ws, id)),
        forall|j: int| 0 <= j < without_waiter(ws, id).len() ==> #[trigger] without_waiter(ws, id)[j].0 != id,
{
    lemma_id_index(ws, id);
    match id_index(ws, id) {
        Some(i) => {
            let r = ws.remove(i);
            assert forall|j: int| 0 <= j < r.len() implies #[trigger] r[j].0 != id by {
                if j < i {
                    assert(r[j] == ws[j]);
                } else {
                    assert(r[j] == ws[j + 1]);
                }
            }
            assert forall|a: int, b: int| 0 <= a < b < r.len() implies r[a].0 != r[b].0 by {
                let a0 = if a < i { a } else { a + 1 };
                let b0 = if b < i { b } else { b + 1 };
                assert(r[a] == ws[a0]);
                assert(r[b] == ws[b0]);
            }
        },
        None => {},
    }
}

/// The table with a fresh or replaced state for `ns` keeps unique ids when
/// that state has them.
proof fn lemma_put_ns_wf<H, W>(t: Seq<(Seq<char>, NsModel<H, W>)>, ns: Seq<char>, m: NsModel<H, W>)
    requires
        waiters_wf(t),
        unique_ids(m.waiters),
    ensures
        waiters_wf(put_ns(t, ns, m)),
{
    lemma_put_ns(t, ns, m);
    let p = put_ns(t, ns, m);
    assert forall|k: int| 0 <= k < p.len() implies unique_ids(#[trigger] p[k].1.waiters) by {
        let e = p[k];
        if e.1 == fresh_ns::<H, W>() {
        } else if e.1 == m {
        } else {
            assert(unique_ids(t[k].1.waiters));
        }
    }
}

/// The state of `ns` in a table with unique ids has unique ids.
proof fn lemma_ns_or_fresh_wf<H, W>(t: Seq<(Seq<char>, NsModel<H, W>)>, ns: Seq<char>)
    requires
        waiters_wf(t),
    ensures
        unique_ids(ns_or_fresh(t, ns).waiters),
{
    lemma_key_index(t, ns);
    match key_index(t, ns) {
        Some(i) => {
            assert(unique_ids(t[i].1.waiters));
        },
        None => {},
    }
}

/// Law: the waiter registered for an ack id is the one found for it, and
/// ack ids stay unique.
pub proof fn law_added_waiter_is_found<H, W>(t: Seq<(Seq<char>, NsModel<H, W>)>, ns: Seq<char>, id: u64, w: W)
    requires
        waiters_wf(t),
    ensures
        waiter_of(added_waiter(t, ns, id, w), ns, id) == Some(w),
        waiters_wf(added_waiter(t, ns, id, w)),
{
    let m = ns_or_fresh(t, ns);
    lemma_ns_or_fresh_wf(t, ns);
    lemma_without_waiter(m.waiters, id);
    let rest = without_waiter(m.waiters, id);
    let ws = rest.push((id, w));
    assert forall|a: int, b: int| 0 <= a < b < ws.len() implies ws[a].0 != ws[b].0 by {
        if b == rest.len() {
            assert(ws[a] == rest[a]);
        } else {
            assert(ws[a] == rest[a]);
            assert(ws[b] == rest[b]);
        }
    }
    assert forall|j: int| 0 <= j < rest.len() implies ws[j].0 != id by {
        assert(ws[j] == rest[j]);
    }
    lemma_id_index_of(ws, id, rest.len() as int);
    let m2 = NsModel { waiters: ws, ..m };
    lemma_put_ns(t, ns, m2);
    lemma_put_ns_wf(t, ns, m2);
}

/// Law: once the waiter of an ack id is taken, none is left for that id,
/// and ack ids stay unique.
pub proof fn law_taken_waiter_is_gone<H, W>(t: Seq<(Seq<char>, NsModel<H, W>)>, ns: Seq<char>, id: u64)
    requires
        waiters_wf(t),
    ensures
        waiter_of(taken_waiter(t, ns, id), ns, id) is None,
        waiters_wf(taken_waiter(t, ns, id)),
{
    lemma_key_index(t, ns);
    match ns_model(t, ns) {
        Some(m) => {
            assert(unique_ids(m.waiters));
            lemma_without_waiter(m.waiters, id);
            let rest = without_waiter(m.waiters, id);
            lemma_id_index(rest, id);
            let m2 = NsModel { waiters: rest, ..m };
            lemma_put_ns(t, ns, m2);
            lemma_put_ns_wf(t, ns, m2);
        },
        None => {},
    }
}

/// Law: a fresh table holds only `/`, with no waiters; so its ack ids are unique.
pub proof fn law_new_table_wf<H, W>()
    ensures
        waiters_wf(seq![(seq!['/'], fresh_ns::<H, W>())]),
{
}

/// Law: after a reset no namespace is connected, has a session or has a
/// waiter, and every namespace keeps its name, auth and handlers.
pub proof fn law_reset<H, W>(t: Seq<(Seq<char>, NsModel<H, W>)>, r: Seq<(Seq<char>, NsModel<H, W>)>)
    requires
        r.len() == t.len(),
        forall|i: int| 0 <= i < t.len() ==> #[trigger] r[i] == (t[i].0, reset_ns(t[i].1)),
    ensures
        waiters_wf(r),
        forall|i: int| 0 <= i < r.len() ==> {
            &&& !(#[trigger] r[i]).1.connected
            &&& r[i].1.sid is None
            &&& r[i].1.waiters.len() == 0
            &&& r[i].0 == t[i].0
            &&& r[i].1.auth == t[i].1.auth
            &&& r[i].1.handlers == t[i].1.handlers
        },
{
    assert forall|k: int| 0 <= k < r.len() implies unique_ids(#[trigger] r[k].1.waiters) by {
        assert(r[k] == (t[k].0, reset_ns(t[k].1)));
    }
    assert forall|i: int| 0 <= i < r.len() implies {
        &&& !(#[trigger] r[i]).1.connected
        &&& r[i].1.sid is None
        &&& r[i].1.waiters.len() == 0
        &&& r[i].0 == t[i].0
        &&& r[i].1.auth == t[i].1.auth
        &&& r[i].1.handlers == t[i].1.handlers
    } by {
        assert(r[i] == (t[i].0, reset_ns(t[i].1)));
    }
}

/// Law: a handler registered for an event of a namespace comes last among
/// the handlers found for that event there, after the ones already there.
pub proof fn law_added_handler_is_found<H, W>(t: Seq<(Seq<char>, NsModel<H, W>)>, ns: Seq<char>, event: Seq<char>, h: H)
    ensures
        ({
            let m = ns_or_fresh(t, ns);
            let before = match key_index(m.handlers, event) {
                Some(j) => m.handlers[j].1,
                None => Seq::<H>::empty(),
            };
            let t2 = put_ns(t, ns, NsModel { handlers: add_handler_model(m.handlers, event, h), ..m });
            ns_model(t2, ns) matches Some(m2) && key_index(m2.handlers, event) matches Some(j2)
                && m2.handlers[j2].1 == before.push(h)
        }),
{
    let m = ns_or_fresh(t, ns);
    let hs = m.handlers;
    let hs2 = add_handler_model(hs, event, h);
    lemma_put_ns(t, ns, NsModel { handlers: hs2, ..m });
    lemma_key_index(hs, event);
    match key_index(hs, event) {
        Some(j) => {
            assert forall|q: int| 0 <= q < j implies hs2[q].0 != event by {
                assert(hs2[q] == hs[q]);
            }
            lemma_key_index_of(hs2, event, j);
        },
        None => {
            assert forall|q: int| 0 <= q < hs.len() implies hs2[q].0 != event by {
                assert(hs2[q] == hs[q]);
            }
            lemma_key_index_of(hs2, event, hs.len() as int);
            assert(seq![h] =~= Seq::<H>::empty().push(h));
        },
    }
}

/// Law: registering or updating a namespace keeps one entry per namespace,
/// and that entry holds the new state.
pub proof fn law_put_ns_keeps_names_unique<H, W>(t: TableModel<H, W>, ns: Seq<char>, m: NsModel<H, W>)
    requires
        unique_names(t),
    ensures
        unique_names(put_ns(t, ns, m)),
        ns_model(put_ns(t, ns, m), ns) == Some(m),
{
    lemma_put_ns(t, ns, m);
    let u = with_ns(t, ns);
    lemma_key_index(t, ns);
    assert forall|a: int, b: int| 0 <= a < b < u.len() implies u[a].0 != u[b].0 by {
        if key_index(t, ns) is None && b == t.len() {
            assert(u[a] == t[a]);
        } else {
            assert(u[a] == t[a]);
            assert(u[b] == t[b]);
        }
    }
    if key_index(t, ns) is None {
        lemma_key_index_of(u, ns, t.len() as int);
    }
    lemma_key_index(u, ns);
    let i = key_index(u, ns).unwrap();
    let p = put_ns(t, ns, m);
    assert forall|a: int, b: int| 0 <= a < b < p.len() implies p[a].0 != p[b].0 by {
        assert(p[a].0 == u[a].0);
        assert(p[b].0 == u[b].0);
    }
}

/// Law: CONNECT packets made one per entry of a table with one entry per
/// namespace (as `NsTable::connect_packets` makes them) hold exactly one
/// packet for each registered namespace, with its auth payload, and none
/// for a namespace that is not registered.
pub proof fn law_connect_once_per_namespace<H, W>(t: TableModel<H, W>, packets: Seq<Seq<char>>)
    requires
        unique_names(t),
        packets.len() == t.len(),
        forall|i: int| 0 <= i < t.len() ==> #[trigger] packets[i] == spec_connect_packet(t[i].0, t[i].1.auth),
    ensures
        forall|ns: Seq<char>| #[trigger] ns_model(t, ns) is Some ==> exists|i: int| {
            &&& 0 <= i < packets.len()
            &&& t[i].0 == ns
            &&& packets[i] == spec_connect_packet(ns, ns_model(t, ns).unwrap().auth)
            &&& forall|j: int| 0 <= j < t.len() && #[trigger] t[j].0 == ns ==> j == i
        },
        forall|i: int| 0 <= i < packets.len() ==> #[trigger] ns_model(t, t[i].0) is Some,
{
    assert forall|ns: Seq<char>| #[trigger] ns_model(t, ns) is Some implies exists|i: int| {
        &&& 0 <= i < packets.len()
        &&& t[i].0 == ns
        &&& packets[i] == spec_connect_packet(ns, ns_model(t, ns).unwrap().auth)
        &&& forall|j: int| 0 <= j < t.len() && #[trigger] t[j].0 == ns ==> j == i
    } by {
        lemma_key_index(t, ns);
        let i = key_index(t, ns).unwrap();
        assert forall|j: int| 0 <= j < t.len() && #[trigger] t[j].0 == ns implies j == i by {
            if j < i {
            } else if j > i {
                assert(t[i].0 != t[j].0);
            }
        }
        assert(packets[i] == spec_connect_packet(t[i].0, t[i].1.auth));
    }
    assert forall|i: int| 0 <= i < packets.len() implies #[trigger] ns_model(t, t[i].0) is Some by {
        lemma_key_index(t, t[i].0);
    }
}

} // verus!
