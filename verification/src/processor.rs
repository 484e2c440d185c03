//! The decisions of the event loop: what each Engine.IO frame from the
//! server changes in the namespace table, and what the transport must do
//! about it (reply, dispatch an event to handlers, hand an ack's payload to
//! its waiter, stop).
use vstd::prelude::*;
use crate::binary_events::{attachments_encodable, substitute_placeholders, substituted};
use crate::codec::{
    parse_binary_header, parse_ns_payload, parse_ns_payload_with_id, spec_parse_binary_header,
    spec_parse_ns_payload, spec_parse_ns_payload_with_id,
};
use crate::json::{clone_json, event_parts, json_from_text, parse_json, split_event, Json, JsonValue};
use crate::namespaces::{
    ns_model, ns_or_fresh, put_ns, taken_waiter, waiter_of, NsModel, NsTable, TableModel,
};
use crate::socket_io_client::{Frame, SYS_CONNECT, SYS_CONNECT_ERROR, SYS_DISCONNECT, SYS_ERROR};
use crate::text::{chars_of, digit_run, is_digit, root_ns};
use crate::codec::{
    ack_payload, is_packet_ns, law_encode_then_parse_ns_payload, law_encode_then_parse_with_id,
    spec_encode_with_namespace, spec_encode_with_namespace_with_id,
};
use crate::namespaces::{added_waiter, law_added_waiter_is_found, law_taken_waiter_is_gone, waiters_wf};

verus! {

/// A binary event or ack whose attachments are still arriving.
pub struct PendingBinary {
    pub ns: String,
    pub is_ack: bool,
    pub ack_id: Option<u64>,
    pub template: JsonValue,
    pub num_expected: usize,
    pub attachments: Vec<Vec<u8>>,
}

/// The model of a pending binary packet.
pub struct PendingModel {
    pub ns: Seq<char>,
    pub is_ack: bool,
    pub ack_id: Option<u64>,
    pub template: Json,
    pub expected: usize,
    pub attachments: Seq<Seq<u8>>,
}

impl View for PendingBinary {
    type V = PendingModel;

    open spec fn view(&self) -> PendingModel {
        PendingModel {
            ns: self.ns@,
            is_ack: self.is_ack,
            ack_id: self.ack_id,
            template: self.template@,
            expected: self.num_expected,
            attachments: self.attachments.deep_view(),
        }
    }
}

/// A decoded Socket.IO packet.
pub enum Packet {
    /// CONNECT: the server confirmed a namespace (with a session id).
    Connect { ns: String, sid: Option<String> },
    /// DISCONNECT of a namespace.
    Disconnect { ns: String },
    /// EVENT: an event name, its arguments and the ack id the server waits on.
    Event { ns: String, event: String, args: JsonValue, ack_id: Option<u64> },
    /// ACK of an event this client emitted.
    Ack { ns: String, id: Option<u64>, payload: JsonValue },
    /// CONNECT_ERROR: the server refused a namespace.
    ConnectError { ns: String, error: JsonValue },
    /// BINARY_EVENT / BINARY_ACK header, waiting for its attachments.
    Binary(PendingBinary),
    /// Anything else (or a payload that is not what the packet type needs).
    Ignored,
}

/// The model of a decoded packet.
pub enum PacketModel {
    Connect { ns: Seq<char>, sid: Option<Seq<char>> },
    Disconnect { ns: Seq<char> },
    Event { ns: Seq<char>, event: Seq<char>, args: Json, ack_id: Option<u64> },
    Ack { ns: Seq<char>, id: Option<u64>, payload: Json },
    ConnectError { ns: Seq<char>, error: Json },
    Binary(PendingModel),
    Ignored,
}

impl View for Packet {
    type V = PacketModel;

    open spec fn view(&self) -> PacketModel {
        match self {
            Packet::Connect { ns, sid } => PacketModel::Connect {
                ns: ns@,
                sid: match sid {
                    Some(s) => Some(s@),
                    None => None,
                },
            },
            Packet::Disconnect { ns } => PacketModel::Disconnect { ns: ns@ },
            Packet::Event { ns, event, args, ack_id } => PacketModel::Event {
                ns: ns@,
                event: event@,
                args: args@,
                ack_id: *ack_id,
            },
            Packet::Ack { ns, id, payload } => PacketModel::Ack { ns: ns@, id: *id, payload: payload@ },
            Packet::ConnectError { ns, error } => PacketModel::ConnectError { ns: ns@, error: error@ },
            Packet::Binary(pb) => PacketModel::Binary(pb@),
            Packet::Ignored => PacketModel::Ignored,
        }
    }
}

/// The session id in a CONNECT payload `{"sid": "..."}`.
pub open spec fn sid_of(payload: Seq<char>) -> Option<Seq<char>> {
    match json_from_text(payload) {
        Some(v) => match v.get("sid"@) {
            Some(s) => s.as_str(),
            None => None,
        },
        None => None,
    }
}

/// What a Socket.IO packet of type `t` with body `rest` is.
pub open spec fn spec_decode_packet(t: char, rest: Seq<char>) -> PacketModel {
    if t == '0' {
        let (ns, p) = spec_parse_ns_payload(rest);
        PacketModel::Connect { ns, sid: sid_of(p) }
    } else if t == '1' {
        PacketModel::Disconnect { ns: spec_parse_ns_payload(rest).0 }
    } else if t == '2' {
        let (ns, id, p) = spec_parse_ns_payload_with_id(rest);
        match json_from_text(p) {
            Some(v) => match event_parts(v) {
                Some((e, args)) => PacketModel::Event { ns, event: e, args, ack_id: id },
                None => PacketModel::Ignored,
            },
            None => PacketModel::Ignored,
        }
    } else if t == '3' {
        let (ns, id, p) = spec_parse_ns_payload_with_id(rest);
        PacketModel::Ack {
            ns,
            id,
            payload: match json_from_text(p) {
                Some(v) => v,
                None => Json::Null,
            },
        }
    } else if t == '4' {
        let (ns, p) = spec_parse_ns_payload(rest);
        PacketModel::ConnectError {
            ns,
            error: match json_from_text(p) {
                Some(v) => v,
                None => Json::Str(p),
            },
        }
    } else if t == '5' || t == '6' {
        let (n, after) = spec_parse_binary_header(rest);
        let (ns, id, p) = spec_parse_ns_payload_with_id(after);
        match json_from_text(p) {
            Some(v) => PacketModel::Binary(
                PendingModel {
                    ns,
                    is_ack: t == '6',
                    ack_id: id,
                    template: v,
                    expected: n,
                    attachments: Seq::empty(),
                },
            ),
            None => PacketModel::Ignored,
        }
    } else {
        PacketModel::Ignored
    }
}

/// Decodes the Socket.IO packet of type `t` whose body is `rest`.
pub fn decode_packet(t: char, rest: &str) -> (p: Packet)
    ensures
        p@ == spec_decode_packet(t, rest@),
{
    if t == '0' {
        let (ns, payload) = parse_ns_payload(rest);
        let sid = match parse_json(payload) {
            Some(v) => match v.get("sid") {
                Some(s) => match s.as_str() {
                    Some(x) => Some(x.clone()),
                    None => None,
                },
                None => None,
            },
            None => None,
        };
        Packet::Connect { ns, sid }
    } else if t == '1' {
        let (ns, _) = parse_ns_payload(rest);
        Packet::Disconnect { ns }
    } else if t == '2' {
        let (ns, ack_id, payload) = parse_ns_payload_with_id(rest);
        match parse_json(payload) {
            Some(v) => match split_event(v) {
                Some((event, args)) => Packet::Event { ns, event, args, ack_id },
                None => Packet::Ignored,
            },
            None => Packet::Ignored,
        }
    } else if t == '3' {
        let (ns, id, payload) = parse_ns_payload_with_id(rest);
        let value = match parse_json(payload) {
            Some(v) => v,
            None => JsonValue::Null,
        };
        Packet::Ack { ns, id, payload: value }
    } else if t == '4' {
        let (ns, payload) = parse_ns_payload(rest);
        let error = match parse_json(payload) {
            Some(v) => v,
            None => JsonValue::Str(payload.to_owned()),
        };
        Packet::ConnectError { ns, error }
    } else if t == '5' || t == '6' {
        let (n, after) = parse_binary_header(rest);
        let (ns, ack_id, payload) = parse_ns_payload_with_id(after);
        match parse_json(payload) {
            Some(template) => {
                let pb = PendingBinary {
                    ns,
                    is_ack: t == '6',
                    ack_id,
                    template,
                    num_expected: n,
                    attachments: Vec::new(),
                };
                proof {
                    assert(pb.attachments.deep_view() =~= Seq::<Seq<u8>>::empty());
                }
                Packet::Binary(pb)
            },
            None => Packet::Ignored,
        }
    } else {
        Packet::Ignored
    }
}

/// What the transport must do after a frame.
pub enum Effect<W> {
    /// Send this text packet to the server.
    Reply(String),
    /// The server's heartbeat arrived.
    PingSeen,
    /// Run the handlers of `event` in `ns` with this event.
    Dispatch { event: String, incoming: crate::socket_io_client::IncomingEvent },
    /// Run the handlers of `event` in every namespace, each with its own namespace.
    Broadcast { event: String, data: JsonValue },
    /// Hand the payload of an ack to the task waiting for it.
    Resolve { waiter: W, payload: JsonValue },
    /// The server closed the session: stop reading.
    Stop,
}

/// The model of an effect.
pub enum EffectModel<W> {
    Reply(Seq<char>),
    PingSeen,
    Dispatch { ns: Seq<char>, event: Seq<char>, data: Json, ack_id: Option<u64> },
    Broadcast { event: Seq<char>, data: Json },
    Resolve { waiter: W, payload: Json },
    Stop,
}

impl<W> View for Effect<W> {
    type V = EffectModel<W>;

    open spec fn view(&self) -> EffectModel<W> {
        match self {
            Effect::Reply(s) => EffectModel::Reply(s@),
            Effect::PingSeen => EffectModel::PingSeen,
            Effect::Dispatch { event, incoming } => EffectModel::Dispatch {
                ns: incoming.namespace@,
                event: event@,
                data: incoming.data@,
                ack_id: incoming.ack_id,
            },
            Effect::Broadcast { event, data } => EffectModel::Broadcast { event: event@, data: data@ },
            Effect::Resolve { waiter, payload } => EffectModel::Resolve { waiter: *waiter, payload: payload@ },
            Effect::Stop => EffectModel::Stop,
        }
    }
}

/// The models of a sequence of effects.
pub open spec fn effects_model<W>(v: Seq<Effect<W>>) -> Seq<EffectModel<W>> {
    v.map_values(|e: Effect<W>| e@)
}

/// Dispatching an event to the handlers of a namespace.
pub open spec fn dispatch<W>(ns: Seq<char>, event: Seq<char>, data: Json, ack_id: Option<u64>) -> EffectModel<W> {
    EffectModel::Dispatch { ns, event, data, ack_id }
}

/// The outcome of a binary packet whose attachments have all arrived: the
/// placeholders are replaced; an ack hands the result to its waiter (taken
/// from the table), an event is dispatched when its payload names one.
pub open spec fn finalize_step<H, W>(t: TableModel<H, W>, pb: PendingModel) -> (TableModel<H, W>, Seq<EffectModel<W>>) {
    let v = substituted(pb.template, pb.attachments);
    if pb.is_ack {
        match pb.ack_id {
            Some(id) => (
                taken_waiter(t, pb.ns, id),
                match waiter_of(t, pb.ns, id) {
                    Some(w) => seq![EffectModel::Resolve { waiter: w, payload: v }],
                    None => Seq::empty(),
                },
            ),
            None => (t, Seq::empty()),
        }
    } else {
        match event_parts(v) {
            Some((e, args)) => (t, seq![dispatch(pb.ns, e, args, pb.ack_id)]),
            None => (t, Seq::empty()),
        }
    }
}

/// What a decoded packet changes in the table and in the pending binary
/// packet, and the effects it has.
pub open spec fn packet_step<H, W>(
    t: TableModel<H, W>,
    pending: Option<PendingModel>,
    p: PacketModel,
) -> (TableModel<H, W>, Option<PendingModel>, Seq<EffectModel<W>>) {
    match p {
        PacketModel::Connect { ns, sid } => (
            put_ns(t, ns, NsModel { sid, connected: true, ..ns_or_fresh(t, ns) }),
            pending,
            seq![dispatch(ns, SYS_CONNECT@, Json::Null, None)],
        ),
        PacketModel::Disconnect { ns } => (
            match ns_model(t, ns) {
                Some(m) => put_ns(t, ns, NsModel { sid: None, connected: false, ..m }),
                None => t,
            },
            pending,
            seq![dispatch(ns, SYS_DISCONNECT@, Json::Null, None)],
        ),
        PacketModel::Event { ns, event, args, ack_id } => (t, pending, seq![dispatch(ns, event, args, ack_id)]),
        PacketModel::Ack { ns, id, payload } => match id {
            Some(i) => (
                taken_waiter(t, ns, i),
                pending,
                match waiter_of(t, ns, i) {
                    Some(w) => seq![EffectModel::Resolve { waiter: w, payload }],
                    None => Seq::empty(),
                },
            ),
            None => (t, pending, Seq::empty()),
        },
        PacketModel::ConnectError { ns, error } => (
            match ns_model(t, ns) {
                Some(m) => put_ns(t, ns, NsModel { connected: false, ..m }),
                None => t,
            },
            pending,
            seq![dispatch(ns, SYS_CONNECT_ERROR@, error, None), dispatch(ns, SYS_ERROR@, error, None)],
        ),
        PacketModel::Binary(pb) => if pb.expected == 0 {
            let (t2, fx) = finalize_step(t, pb);
            (t2, pending, fx)
        } else {
            (t, Some(pb), Seq::empty())
        },
        PacketModel::Ignored => (t, pending, Seq::empty()),
    }
}

/// An event for dispatch.
fn dispatch_effect<W>(ns: &String, event: String, data: JsonValue, ack_id: Option<u64>) -> (e: Effect<W>)
    ensures
        e@ == dispatch::<W>(ns@, event@, data@, ack_id),
{
    Effect::Dispatch {
        event,
        incoming: crate::socket_io_client::IncomingEvent { data, ack_id, namespace: ns.clone() },
    }
}

/// Completes a binary packet whose attachments have all arrived.
pub fn finalize_binary<H, W>(table: &mut NsTable<H, W>, pb: PendingBinary) -> (r: Vec<Effect<W>>)
    requires
        attachments_encodable(pb.attachments@),
    ensures
        (final(table)@, effects_model(r@)) == finalize_step(old(table)@, pb@),
{
    let v = substitute_placeholders(&pb.template, &pb.attachments);
    let mut out: Vec<Effect<W>> = Vec::new();
    if pb.is_ack {
        match pb.ack_id {
            Some(id) => {
                let w = table.take_waiter(pb.ns.as_str(), id);
                match w {
                    Some(w) => {
                        out.push(Effect::Resolve { waiter: w, payload: v });
                    },
                    None => {},
                }
            },
            None => {},
        }
    } else {
        match split_event(v) {
            Some((event, args)) => {
                let e = dispatch_effect(&pb.ns, event, args, pb.ack_id);
                out.push(e);
            },
            None => {},
        }
    }
    proof {
        let (_, fx) = finalize_step(old(table)@, pb@);
        assert(effects_model(out@) =~= fx);
    }
    out
}

/// Applies a Socket.IO packet of type `sio_type` with body `rest`: updates
/// the namespace table and the pending binary packet, and returns the
/// effects for the transport.
pub fn handle_socketio_packet<H, W>(
    table: &mut NsTable<H, W>,
    sio_type: char,
    rest: &str,
    pending: &mut Option<PendingBinary>,
) -> (r: Vec<Effect<W>>)
    ensures
        (final(table)@, pending_model(*final(pending)), effects_model(r@)) == packet_step(
            old(table)@,
            pending_model(*old(pending)),
            spec_decode_packet(sio_type, rest@),
        ),
{
    let p = decode_packet(sio_type, rest);
    let mut out: Vec<Effect<W>> = Vec::new();
    match p {
        Packet::Connect { ns, sid } => {
            table.mark_connected(ns.as_str(), sid);
            let e = dispatch_effect(&ns, SYS_CONNECT.to_owned(), JsonValue::Null, None);
            out.push(e);
        },
        Packet::Disconnect { ns } => {
            table.mark_disconnected(ns.as_str());
            let e = dispatch_effect(&ns, SYS_DISCONNECT.to_owned(), JsonValue::Null, None);
            out.push(e);
        },
        Packet::Event { ns, event, args, ack_id } => {
            let e = dispatch_effect(&ns, event, args, ack_id);
            out.push(e);
        },
        Packet::Ack { ns, id, payload } => {
            match id {
                Some(i) => {
                    let w = table.take_waiter(ns.as_str(), i);
                    match w {
                        Some(w) => {
                            out.push(Effect::Resolve { waiter: w, payload });
                        },
                        None => {},
                    }
                },
                None => {},
            }
        },
        Packet::ConnectError { ns, error } => {
            table.mark_refused(ns.as_str());
            let copy = clone_json(&error);
            let e1 = dispatch_effect(&ns, SYS_CONNECT_ERROR.to_owned(), copy, None);
            let e2 = dispatch_effect(&ns, SYS_ERROR.to_owned(), error, None);
            out.push(e1);
            out.push(e2);
        },
        Packet::Binary(pb) => {
            if pb.num_expected == 0 {
                proof {
                    assert(pb.attachments.deep_view().len() == pb.attachments@.len());
                    assert(attachments_encodable(pb.attachments@));
                }
                out = finalize_binary(table, pb);
            } else {
                *pending = Some(pb);
            }
        },
        Packet::Ignored => {},
    }
    proof {
        let (_, _, fx) = packet_step(old(table)@, pending_model(*old(pending)), spec_decode_packet(sio_type, rest@));
        assert(effects_model(out@) =~= fx);
    }
    out
}

/// The model of an optional pending binary packet.
pub open spec fn pending_model(p: Option<PendingBinary>) -> Option<PendingModel> {
    match p {
        Some(pb) => Some(pb@),
        None => None,
    }
}

/// Attachments (as byte sequences) whose base64 text fits in a `usize`.
pub open spec fn encodable_bytes(atts: Seq<Seq<u8>>) -> bool {
    forall|i: int| 0 <= i < atts.len() ==> (#[trigger] atts[i]).len() / 3 * 4 + 4 <= usize::MAX
}

/// The deep view of bytes is their view.
pub proof fn lemma_bytes_deep_view(v: Vec<u8>)
    ensures
        v.deep_view() == v@,
{
    assert(v.deep_view() =~= v@);
}

/// Attachments are encodable exactly when their byte sequences are.
pub proof fn lemma_encodable_deep(atts: Vec<Vec<u8>>)
    ensures
        attachments_encodable(atts@) <==> encodable_bytes(atts.deep_view()),
{
    let d = atts.deep_view();
    assert forall|i: int| 0 <= i < atts@.len() implies d[i] == atts@[i]@ by {
        lemma_bytes_deep_view(atts@[i]);
    }
    if attachments_encodable(atts@) {
        assert forall|i: int| 0 <= i < d.len() implies (#[trigger] d[i]).len() / 3 * 4 + 4 <= usize::MAX by {
            assert(d[i] == atts@[i]@);
        }
    }
    if encodable_bytes(d) {
        assert forall|i: int| 0 <= i < atts@.len() implies (#[trigger] atts@[i])@.len() / 3 * 4 + 4 <= usize::MAX by {
            assert(d[i] == atts@[i]@);
        }
    }
}

/// The state the event loop keeps between frames.
pub struct ProcessorModel {
    pub pending: Option<PendingModel>,
    pub disconnected: bool,
}

/// What a text frame does: `2<x>` (a ping) is answered by `3<x>`; `1`
/// (close) tells every namespace it is disconnected and stops the loop;
/// `4<t><body>` is a Socket.IO packet of type `t`; the rest is ignored.
pub open spec fn text_step<H, W>(t: TableModel<H, W>, st: ProcessorModel, s: Seq<char>) -> (TableModel<H, W>, ProcessorModel, Seq<EffectModel<W>>) {
    if s.len() == 0 {
        (t, st, Seq::empty())
    } else if s[0] == '2' {
        (t, st, seq![EffectModel::PingSeen, EffectModel::Reply(seq!['3'] + s.skip(1))])
    } else if s[0] == '1' {
        (
            t,
            ProcessorModel { disconnected: true, ..st },
            seq![EffectModel::Broadcast { event: SYS_DISCONNECT@, data: Json::Null }, EffectModel::Stop],
        )
    } else if s[0] == '4' {
        if s.len() < 2 {
            (t, st, Seq::empty())
        } else {
            let (t2, p2, fx) = packet_step(t, st.pending, spec_decode_packet(s[1], s.skip(2)));
            (t2, ProcessorModel { pending: p2, ..st }, fx)
        }
    } else {
        (t, st, Seq::empty())
    }
}

/// A text frame the loop can read: a Socket.IO message whose packet type is
/// not an ASCII character would make the packet body start inside that
/// character, which the loop does not accept.
pub open spec fn text_frame_ok(s: Seq<char>) -> bool {
    !(s.len() >= 2 && s[0] == '4' && (s[1] as u32) >= 128)
}

/// What a binary frame does: it is the next attachment of the pending
/// binary packet, which completes once all its attachments have arrived;
/// without a pending packet it is ignored.
pub open spec fn binary_step<H, W>(t: TableModel<H, W>, st: ProcessorModel, bin: Seq<u8>) -> (TableModel<H, W>, ProcessorModel, Seq<EffectModel<W>>) {
    match st.pending {
        Some(pb) => {
            let pb2 = PendingModel { attachments: pb.attachments.push(bin), ..pb };
            if pb2.attachments.len() >= pb2.expected {
                let (t2, fx) = finalize_step(t, pb2);
                (t2, ProcessorModel { pending: None, ..st }, fx)
            } else {
                (t, ProcessorModel { pending: Some(pb2), ..st }, Seq::empty())
            }
        },
        None => (t, st, Seq::empty()),
    }
}

/// What the end of the frame stream does: unless the server closed the
/// session, every namespace is told it is disconnected.
pub open spec fn end_effects<W>(st: ProcessorModel) -> Seq<EffectModel<W>> {
    if st.disconnected {
        Seq::empty()
    } else {
        seq![EffectModel::Broadcast { event: SYS_DISCONNECT@, data: Json::Null }]
    }
}

/// The event loop of one connection, between frames.
pub struct FrameProcessor {
    pending: Option<PendingBinary>,
    disconnected: bool,
}

impl View for FrameProcessor {
    type V = ProcessorModel;

    closed spec fn view(&self) -> ProcessorModel {
        ProcessorModel { pending: pending_model(self.pending), disconnected: self.disconnected }
    }
}

impl FrameProcessor {
    /// Pending attachments can always be written as base64.
    #[verifier::type_invariant]
    spec fn inv(self) -> bool {
        match pending_model(self.pending) {
            Some(pb) => encodable_bytes(pb.attachments),
            None => true,
        }
    }

    /// The state at the start of a connection.
    pub fn new() -> (p: Self)
        ensures
            p@ == (ProcessorModel { pending: None, disconnected: false }),
    {
        FrameProcessor { pending: None, disconnected: false }
    }

    /// Handles a text frame.
    pub fn on_text<H, W>(&mut self, table: &mut NsTable<H, W>, s: &str) -> (r: Vec<Effect<W>>)
        requires
            text_frame_ok(s@),
        ensures
            (final(table)@, final(self)@, effects_model(r@)) == text_step(old(table)@, old(self)@, s@),
    {
        proof {
            use_type_invariant(&*self);
        }
        let v = chars_of(s);
        let mut out: Vec<Effect<W>> = Vec::new();
        if v.len() == 0 {
            proof {
                assert(effects_model(out@) =~= Seq::<EffectModel<W>>::empty());
            }
            return out;
        }
        if v[0] == '2' {
            let mut reply: Vec<char> = Vec::new();
            reply.push('3');
            crate::text::push_str(&mut reply, s.substring_char(1, v.len()));
            out.push(Effect::PingSeen);
            out.push(Effect::Reply(crate::text::string_from_chars(&reply)));
            proof {
                assert(effects_model(out@) =~= text_step(old(table)@, old(self)@, s@).2);
            }
            return out;
        }
        if v[0] == '1' {
            self.disconnected = true;
            out.push(Effect::Broadcast { event: SYS_DISCONNECT.to_owned(), data: JsonValue::Null });
            out.push(Effect::Stop);
            proof {
                assert(effects_model(out@) =~= text_step(old(table)@, old(self)@, s@).2);
            }
            return out;
        }
        if v[0] == '4' && v.len() >= 2 {
            let mut pending: Option<PendingBinary> = None;
            std::mem::swap(&mut pending, &mut self.pending);
            let fx = handle_socketio_packet(table, v[1], s.substring_char(2, v.len()), &mut pending);
            proof {
                if pending is Some && pending_model(pending) != old(self)@.pending {
                    assert(pending_model(pending).unwrap().attachments.len() == 0);
                }
            }
            self.pending = pending;
            return fx;
        }
        proof {
            assert(effects_model(out@) =~= Seq::<EffectModel<W>>::empty());
        }
        out
    }

    /// Handles a binary frame.
    pub fn on_binary<H, W>(&mut self, table: &mut NsTable<H, W>, bin: Vec<u8>) -> (r: Vec<Effect<W>>)
        requires
            bin@.len() / 3 * 4 + 4 <= usize::MAX,
        ensures
            (final(table)@, final(self)@, effects_model(r@)) == binary_step(old(table)@, old(self)@, bin@),
    {
        proof {
            use_type_invariant(&*self);
        }
        let mut pending: Option<PendingBinary> = None;
        std::mem::swap(&mut pending, &mut self.pending);
        match pending {
            Some(mut pb) => {
                let ghost before = pb.attachments.deep_view();
                proof {
                    lemma_bytes_deep_view(bin);
                }
                pb.attachments.push(bin);
                proof {
                    assert(pb.attachments.deep_view() =~= before.push(bin@));
                    lemma_encodable_deep(pb.attachments);
                }
                if pb.attachments.len() >= pb.num_expected {
                    finalize_binary(table, pb)
                } else {
                    self.pending = Some(pb);
                    let out: Vec<Effect<W>> = Vec::new();
                    proof {
                        assert(effects_model(out@) =~= Seq::<EffectModel<W>>::empty());
                    }
                    out
                }
            },
            None => {
                let out: Vec<Effect<W>> = Vec::new();
                proof {
                    assert(effects_model(out@) =~= Seq::<EffectModel<W>>::empty());
                }
                out
            },
        }
    }

    /// The effects of the end of the frame stream.
    pub fn on_end<W>(&self) -> (r: Vec<Effect<W>>)
        ensures
            effects_model(r@) == end_effects::<W>(self@),
    {
        let mut out: Vec<Effect<W>> = Vec::new();
        if !self.disconnected {
            out.push(Effect::Broadcast { event: SYS_DISCONNECT.to_owned(), data: JsonValue::Null });
        }
        proof {
            assert(effects_model(out@) =~= end_effects::<W>(self@));
        }
        out
    }
}

/// Law: when the server acknowledges an event this client emitted with ack
/// id `id` in namespace `ns` (the frame `43[<ns>,]<id><payload>`), the
/// waiter registered for that id receives the payload (`null` when it is not
/// JSON), and no waiter is left for that id.
pub proof fn law_server_ack_resolves_waiter<H, W>(
    t: TableModel<H, W>,
    st: ProcessorModel,
    ns: Seq<char>,
    id: u64,
    w: W,
    payload: Seq<char>,
)
    requires
        waiters_wf(t),
        is_packet_ns(ns),
        payload.len() == 0 || !is_digit(payload[0]),
    ensures
        ({
            let frame = spec_encode_with_namespace_with_id(ns, "43"@, id, payload);
            let (t2, st2, fx) = text_step(added_waiter(t, ns, id, w), st, frame);
            &&& text_frame_ok(frame)
            &&& fx == seq![
                EffectModel::Resolve {
                    waiter: w,
                    payload: match json_from_text(ack_payload(payload)) {
                        Some(v) => v,
                        None => Json::Null,
                    },
                },
            ]
            &&& waiter_of(t2, ns, id) is None
            &&& st2 == st
        }),
{
    reveal_strlit("43");
    let frame = spec_encode_with_namespace_with_id(ns, "43"@, id, payload);
    let t1 = added_waiter(t, ns, id, w);
    law_added_waiter_is_found(t, ns, id, w);
    law_taken_waiter_is_gone(t1, ns, id);
    law_encode_then_parse_with_id(ns, "43"@, id, payload);
    assert(frame[0] == '4');
    assert(frame[1] == '3');
    assert(frame.skip(2) == frame.skip("43"@.len() as int));
}

/// Law: an event the server emits in namespace `ns` (the frame
/// `42[<ns>,]<payload>` whose payload is the JSON array
/// `[<event>, <args>...]`) is dispatched to the handlers of `event` in `ns`
/// with `args`, and changes nothing else. Under `/` the payload must not
/// start with `/`; a payload never starts with a digit (it is a JSON array).
pub proof fn law_server_event_is_dispatched<H, W>(
    t: TableModel<H, W>,
    st: ProcessorModel,
    ns: Seq<char>,
    payload: Seq<char>,
    value: Json,
    event: Seq<char>,
    args: Json,
)
    requires
        is_packet_ns(ns),
        payload.len() == 0 || !is_digit(payload[0]),
        ns == root_ns() ==> payload.len() == 0 || payload[0] != '/',
        json_from_text(payload) == Some(value),
        event_parts(value) == Some((event, args)),
    ensures
        ({
            let frame = spec_encode_with_namespace(ns, "42"@, payload);
            &&& text_frame_ok(frame)
            &&& text_step::<H, W>(t, st, frame) == (t, st, seq![dispatch::<W>(ns, event, args, None)])
        }),
{
    reveal_strlit("42");
    let frame = spec_encode_with_namespace(ns, "42"@, payload);
    law_encode_then_parse_ns_payload(ns, "42"@, payload);
    assert(frame[0] == '4');
    assert(frame[1] == '2');
    assert(frame.skip(2) == frame.skip("42"@.len() as int));
    assert(digit_run(payload) == 0);
    assert(payload.skip(0) =~= payload);
}

/// Law: an event the server emits in namespace `ns` asking for ack `id`
/// (the frame `42[<ns>,]<id><payload>` whose payload is the JSON array
/// `[<event>, <args>...]`) is dispatched to the handlers of `event` in `ns`
/// with `args` and with ack id `id`, so that a handler can answer it; it
/// changes nothing else.
pub proof fn law_server_event_with_ack_is_dispatched<H, W>(
    t: TableModel<H, W>,
    st: ProcessorModel,
    ns: Seq<char>,
    id: u64,
    payload: Seq<char>,
    value: Json,
    event: Seq<char>,
    args: Json,
)
    requires
        is_packet_ns(ns),
        payload.len() > 0,
        !is_digit(payload[0]),
        json_from_text(payload) == Some(value),
        event_parts(value) == Some((event, args)),
    ensures
        ({
            let frame = spec_encode_with_namespace_with_id(ns, "42"@, id, payload);
            &&& text_frame_ok(frame)
            &&& text_step::<H, W>(t, st, frame) == (
                t,
                st,
                seq![EffectModel::<W>::Dispatch { ns, event, data: args, ack_id: Some(id) }],
            )
        }),
{
    reveal_strlit("42");
    let frame = spec_encode_with_namespace_with_id(ns, "42"@, id, payload);
    law_encode_then_parse_with_id(ns, "42"@, id, payload);
    assert(frame[0] == '4');
    assert(frame[1] == '2');
    assert(frame.skip(2) == frame.skip("42"@.len() as int));
    assert(ack_payload(payload) == payload);
}

/// Law: a ping `2<x>` from the server is answered with the pong `3<x>`
/// (after noting the heartbeat), and changes neither the table nor the
/// state of the loop.
pub proof fn law_ping_is_answered<H, W>(t: TableModel<H, W>, st: ProcessorModel, s: Seq<char>)
    requires
        s.len() > 0,
        s[0] == '2',
    ensures
        text_frame_ok(s),
        text_step::<H, W>(t, st, s) == (t, st, seq![EffectModel::<W>::PingSeen, EffectModel::Reply(seq!['3'] + s.skip(1))]),
{
}

/// What any frame does.
pub open spec fn frame_step<H, W>(t: TableModel<H, W>, st: ProcessorModel, f: Frame) -> (TableModel<H, W>, ProcessorModel, Seq<EffectModel<W>>) {
    match f {
        Frame::Text(s) => text_step(t, st, s),
        Frame::Binary(b) => binary_step(t, st, b),
    }
}

/// The close frame `1...`: the last frame the loop reads.
pub open spec fn is_close_frame(f: Frame) -> bool {
    f matches Frame::Text(s) && s.len() > 0 && s[0] == '1'
}

/// The effects of the event loop of one connection over the frames it
/// reads: each frame in turn up to and including the first close frame; if
/// the frames run out before one, the effects of the end of the stream.
pub open spec fn run_effects<H, W>(t: TableModel<H, W>, st: ProcessorModel, frames: Seq<Frame>) -> Seq<EffectModel<W>>
    decreases frames.len(),
{
    if frames.len() == 0 {
        end_effects(st)
    } else {
        let (t2, st2, fx) = frame_step(t, st, frames[0]);
        if is_close_frame(frames[0]) {
            fx
        } else {
            fx + run_effects(t2, st2, frames.drop_first())
        }
    }
}

/// Whether an effect is the broadcast of `__disconnect__`.
pub open spec fn is_disconnect_broadcast<W>(e: EffectModel<W>) -> bool {
    e matches EffectModel::Broadcast { event, .. } && event == SYS_DISCONNECT@
}

/// How many `__disconnect__` broadcasts a sequence of effects holds.
pub open spec fn count_disconnects<W>(fx: Seq<EffectModel<W>>) -> nat
    decreases fx.len(),
{
    if fx.len() == 0 {
        0
    } else {
        (if is_disconnect_broadcast(fx[0]) { 1nat } else { 0nat }) + count_disconnects(fx.drop_first())
    }
}

/// The heartbeat effects (noting a ping, sending a reply) of a sequence of
/// effects, in order.
pub open spec fn heartbeats<W>(fx: Seq<EffectModel<W>>) -> Seq<EffectModel<W>>
    decreases fx.len(),
{
    if fx.len() == 0 {
        Seq::empty()
    } else {
        (if fx[0] is PingSeen || fx[0] is Reply { seq![fx[0]] } else { Seq::empty() }) + heartbeats(fx.drop_first())
    }
}

/// The answer owed to one frame: a ping `2<x>` is noted and answered with
/// `3<x>`; any other frame is owed nothing.
pub open spec fn ping_answer<W>(f: Frame) -> Seq<EffectModel<W>> {
    match f {
        Frame::Text(s) => if s.len() > 0 && s[0] == '2' {
            seq![EffectModel::PingSeen, EffectModel::Reply(seq!['3'] + s.skip(1))]
        } else {
            Seq::empty()
        },
        Frame::Binary(_) => Seq::empty(),
    }
}

/// The answers owed to the frames the loop reads (those before the first
/// close frame), in order.
pub open spec fn ping_answers<W>(frames: Seq<Frame>) -> Seq<EffectModel<W>>
    decreases frames.len(),
{
    if frames.len() == 0 || is_close_frame(frames[0]) {
        Seq::empty()
    } else {
        ping_answer(frames[0]) + ping_answers(frames.drop_first())
    }
}

/// Effects that neither note nor answer a ping nor broadcast anything.
pub open spec fn quiet<W>(fx: Seq<EffectModel<W>>) -> bool {
    forall|i: int| 0 <= i < fx.len() ==> !(#[trigger] fx[i] is PingSeen) && !(fx[i] is Reply) && !(fx[i] is Broadcast)
}

proof fn lemma_quiet<W>(fx: Seq<EffectModel<W>>)
    requires
        quiet(fx),
    ensures
        heartbeats(fx) == Seq::<EffectModel<W>>::empty(),
        count_disconnects(fx) == 0,
    decreases fx.len(),
{
    if fx.len() > 0 {
        assert(!(fx[0] is PingSeen) && !(fx[0] is Reply) && !(fx[0] is Broadcast));
        assert forall|i: int| 0 <= i < fx.drop_first().len() implies {
            &&& !(#[trigger] fx.drop_first()[i] is PingSeen)
            &&& !(fx.drop_first()[i] is Reply)
            &&& !(fx.drop_first()[i] is Broadcast)
        } by {
            assert(fx.drop_first()[i] == fx[i + 1]);
        }
        lemma_quiet(fx.drop_first());
        assert(heartbeats(fx) =~= Seq::<EffectModel<W>>::empty());
    }
}

proof fn lemma_heartbeats_add<W>(a: Seq<EffectModel<W>>, b: Seq<EffectModel<W>>)
    ensures
        heartbeats(a + b) == heartbeats(a) + heartbeats(b),
        count_disconnects(a + b) == count_disconnects(a) + count_disconnects(b),
    decreases a.len(),
{
    if a.len() == 0 {
        assert(a + b =~= b);
        assert(heartbeats(a) + heartbeats(b) =~= heartbeats(b));
    } else {
        assert((a + b).drop_first() =~= a.drop_first() + b);
        assert((a + b)[0] == a[0]);
        lemma_heartbeats_add(a.drop_first(), b);
        let h = if a[0] is PingSeen || a[0] is Reply { seq![a[0]] } else { Seq::<EffectModel<W>>::empty() };
        assert(heartbeats(a + b) == h + heartbeats(a.drop_first() + b));
        assert(h + (heartbeats(a.drop_first()) + heartbeats(b)) =~= (h + heartbeats(a.drop_first())) + heartbeats(b));
    }
}

proof fn lemma_finalize_quiet<H, W>(t: TableModel<H, W>, pb: PendingModel)
    ensures
        quiet(finalize_step(t, pb).1),
{
}

proof fn lemma_packet_quiet<H, W>(t: TableModel<H, W>, pending: Option<PendingModel>, p: PacketModel)
    ensures
        quiet(packet_step(t, pending, p).2),
{
    match p {
        PacketModel::Binary(pb) => {
            lemma_finalize_quiet(t, pb);
        },
        _ => {},
    }
}

/// Every frame other than a ping or a close frame has quiet effects.
proof fn lemma_frame_quiet<H, W>(t: TableModel<H, W>, st: ProcessorModel, f: Frame)
    requires
        !is_close_frame(f),
        !(f matches Frame::Text(s) && s.len() > 0 && s[0] == '2'),
    ensures
        quiet(frame_step(t, st, f).2),
        frame_step(t, st, f).1.disconnected == st.disconnected,
{
    match f {
        Frame::Text(s) => {
            if s.len() >= 2 && s[0] == '4' {
                lemma_packet_quiet(t, st.pending, spec_decode_packet(s[1], s.skip(2)));
            }
        },
        Frame::Binary(b) => {
            match st.pending {
                Some(pb) => {
                    lemma_finalize_quiet(t, PendingModel { attachments: pb.attachments.push(b), ..pb });
                },
                None => {},
            }
        },
    }
}

/// Law: over any sequence of frames, the loop notes and answers each ping
/// `2<x>` it reads with `3<x>`, in the order the pings came, and sends no
/// other reply; frames after the close frame are not read.
pub proof fn law_every_ping_is_answered<H, W>(t: TableModel<H, W>, st: ProcessorModel, frames: Seq<Frame>)
    ensures
        heartbeats(run_effects::<H, W>(t, st, frames)) == ping_answers::<W>(frames),
    decreases frames.len(),
{
    if frames.len() == 0 {
        reveal_with_fuel(heartbeats, 2);
        let e = end_effects::<W>(st);
        if !st.disconnected {
            assert(e.drop_first() =~= Seq::<EffectModel<W>>::empty());
        }
        assert(heartbeats(e) =~= Seq::<EffectModel<W>>::empty());
    } else {
        let f = frames[0];
        let (t2, st2, fx) = frame_step::<H, W>(t, st, f);
        if is_close_frame(f) {
            reveal_with_fuel(heartbeats, 3);
            assert(fx == seq![EffectModel::<W>::Broadcast { event: SYS_DISCONNECT@, data: Json::Null }, EffectModel::<W>::Stop]);
            assert(fx.drop_first().drop_first() =~= Seq::<EffectModel<W>>::empty());
            assert(heartbeats(fx) =~= Seq::<EffectModel<W>>::empty());
        } else {
            law_every_ping_is_answered(t2, st2, frames.drop_first());
            lemma_heartbeats_add(fx, run_effects::<H, W>(t2, st2, frames.drop_first()));
            if f matches Frame::Text(s) && s.len() > 0 && s[0] == '2' {
                reveal_with_fuel(heartbeats, 3);
                assert(fx.drop_first().drop_first() =~= Seq::<EffectModel<W>>::empty());
                assert(heartbeats(fx) =~= fx);
            } else {
                lemma_frame_quiet(t, st, f);
                lemma_quiet(fx);
                assert(ping_answer::<W>(f) =~= Seq::<EffectModel<W>>::empty());
            }
        }
    }
}

/// Law: however the frames go, a loop that starts connected tells every
/// namespace exactly once that it is disconnected: on the first close frame,
/// or at the end of the stream when none came.
pub proof fn law_disconnect_broadcast_once<H, W>(t: TableModel<H, W>, st: ProcessorModel, frames: Seq<Frame>)
    requires
        !st.disconnected,
    ensures
        count_disconnects(run_effects::<H, W>(t, st, frames)) == 1,
    decreases frames.len(),
{
    if frames.len() == 0 {
        reveal_with_fuel(count_disconnects, 2);
        let e = end_effects::<W>(st);
        assert(e.drop_first() =~= Seq::<EffectModel<W>>::empty());
    } else {
        let f = frames[0];
        let (t2, st2, fx) = frame_step::<H, W>(t, st, f);
        if is_close_frame(f) {
            reveal_with_fuel(count_disconnects, 3);
            assert(fx.drop_first().drop_first() =~= Seq::<EffectModel<W>>::empty());
        } else {
            if f matches Frame::Text(s) && s.len() > 0 && s[0] == '2' {
                reveal_with_fuel(count_disconnects, 3);
                assert(fx.drop_first().drop_first() =~= Seq::<EffectModel<W>>::empty());
                assert(st2 == st);
            } else {
                lemma_frame_quiet(t, st, f);
                lemma_quiet(fx);
            }
            law_disconnect_broadcast_once(t2, st2, frames.drop_first());
            lemma_heartbeats_add(fx, run_effects::<H, W>(t2, st2, frames.drop_first()));
        }
    }
}

} // verus!
