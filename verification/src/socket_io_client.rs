//! Engine.IO framing and the small pure pieces of the transport: namespace
//! normalisation, CONNECT packets, the long-polling body format, the
//! handshake's open packet and the transport URLs.
use vstd::prelude::*;
use vstd::string::StringExecFns;
use crate::binary::{base64_decoded, base64_text, decode_base64, encode_base64};
use crate::codec::ns_prefix;
use crate::json::{json_to_text, render_json, Json, JsonValue};
use crate::text::{
    chars_of, find_char_from, is_root, lemma_run_until, push_str, root_ns, root_string, run_until,
    string_from_chars,
};

verus! {

/// Event name of the system event sent when a namespace is connected.
pub const SYS_CONNECT: &'static str = "__connect__";
/// Event name of the system event sent when a namespace or the connection goes down.
pub const SYS_DISCONNECT: &'static str = "__disconnect__";
/// Event name of the system event sent on errors.
pub const SYS_ERROR: &'static str = "__error__";
/// Event name of the system event sent when the server refuses a namespace.
pub const SYS_CONNECT_ERROR: &'static str = "__connect_error__";
/// Event name of the system event sent when the client gives up reconnecting.
pub const SYS_CLOSED: &'static str = "__closed__";
/// Event name of the system event sent before each reconnection attempt.
pub const SYS_RECONNECT_ATTEMPT: &'static str = "__reconnect_attempt__";
/// Event name of the system event sent when a reconnection succeeded.
pub const SYS_RECONNECT: &'static str = "__reconnect__";

/// The transport a connection runs over.
#[derive(Clone, Copy, Debug, PartialEq, Eq, Structural)]
pub enum TransportMode {
    Polling,
    WebSocket,
}

/// A raw Engine.IO packet handed to the writer.
#[derive(Debug)]
pub enum OutgoingPacket {
    /// A complete Engine.IO text packet, such as `42[...]`.
    Text(String),
    /// A binary attachment (it follows a `45` / `46` header).
    Binary(Vec<u8>),
}

/// A raw Engine.IO frame read from the transport.
#[derive(Debug)]
pub enum IncomingFrame {
    Text(String),
    Binary(Vec<u8>),
}

/// The model of an incoming frame.
pub enum Frame {
    Text(Seq<char>),
    Binary(Seq<u8>),
}

impl View for IncomingFrame {
    type V = Frame;

    open spec fn view(&self) -> Frame {
        match self {
            IncomingFrame::Text(s) => Frame::Text(s@),
            IncomingFrame::Binary(b) => Frame::Binary(b@),
        }
    }
}

/// An event as delivered to handlers: its arguments (or the value a system
/// event carries), the ack id the server waits on, and its namespace.
#[derive(Debug)]
pub struct IncomingEvent {
    pub data: JsonValue,
    pub ack_id: Option<u64>,
    pub namespace: String,
}

/// The record separator between packets of a long-polling body.
pub open spec fn record_separator() -> char {
    '\u{1e}'
}

/// `ns` with a leading `/`: empty and `/` give `/`, a name without the
/// slash gains one.
pub open spec fn spec_normalize_ns(ns: Seq<char>) -> Seq<char> {
    if ns.len() == 0 || ns == root_ns() {
        root_ns()
    } else if ns[0] == '/' {
        ns
    } else {
        seq!['/'] + ns
    }
}

/// Normalises a namespace so that it starts with `/`.
pub fn normalize_ns(ns: &str) -> (r: String)
    ensures
        r@ == spec_normalize_ns(ns@),
{
    let v = chars_of(ns);
    if v.len() == 0 || is_root(ns) {
        root_string()
    } else if v[0] == '/' {
        ns.to_owned()
    } else {
        let mut out: Vec<char> = Vec::new();
        out.push('/');
        push_str(&mut out, ns);
        proof {
            assert(out@ =~= seq!['/'] + ns@);
        }
        string_from_chars(&out)
    }
}

/// Law: a normalised namespace starts with `/`, and normalising it again
/// changes nothing.
pub proof fn law_normalize_ns(ns: Seq<char>)
    ensures
        spec_normalize_ns(ns).len() > 0,
        spec_normalize_ns(ns)[0] == '/',
        spec_normalize_ns(spec_normalize_ns(ns)) == spec_normalize_ns(ns),
{
    let r = spec_normalize_ns(ns);
    if !(ns.len() == 0 || ns == root_ns()) && ns[0] != '/' {
        assert(r[0] == '/');
        assert(r.len() > 0);
    }
}

/// The text of an auth payload in a CONNECT packet: the JSON, or nothing.
pub open spec fn auth_text(auth: Option<Json>) -> Seq<char> {
    match auth {
        Some(v) => json_to_text(v),
        None => Seq::empty(),
    }
}

/// `40[<ns>,][<auth>]`: the CONNECT packet for a namespace.
pub open spec fn spec_connect_packet(ns: Seq<char>, auth: Option<Json>) -> Seq<char> {
    seq!['4', '0'] + ns_prefix(ns) + auth_text(auth)
}

/// The CONNECT packet for `ns`, with the auth payload as JSON when there is one.
pub fn connect_packet(ns: &str, auth: Option<&JsonValue>) -> (r: String)
    ensures
        r@ == spec_connect_packet(
            ns@,
            match auth {
                Some(v) => Some(v@),
                None => None,
            },
        ),
{
    let mut out: Vec<char> = Vec::new();
    out.push('4');
    out.push('0');
    if !is_root(ns) {
        push_str(&mut out, ns);
        out.push(',');
    }
    match auth {
        Some(v) => {
            let t = render_json(v);
            push_str(&mut out, t.as_str());
        },
        None => {},
    }
    proof {
        let a = match auth {
            Some(v) => Some(v@),
            None => None,
        };
        assert(out@ =~= spec_connect_packet(ns@, a));
    }
    string_from_chars(&out)
}

/// Formats the CONNECT packet `40[<ns>,][<auth>]` sent to join a namespace.
pub fn format_connect_packet(ns: &str, auth: Option<JsonValue>) -> (r: String)
    ensures
        r@ == spec_connect_packet(
            ns@,
            match auth {
                Some(v) => Some(v@),
                None => None,
            },
        ),
{
    match auth {
        Some(v) => connect_packet(ns, Some(&v)),
        None => connect_packet(ns, None),
    }
}

/// `41[<ns>,]`: the DISCONNECT packet for a namespace.
pub open spec fn spec_disconnect_packet(ns: Seq<char>) -> Seq<char> {
    seq!['4', '1'] + ns_prefix(ns)
}

/// The DISCONNECT packet for `ns`.
pub fn disconnect_packet(ns: &str) -> (r: String)
    ensures
        r@ == spec_disconnect_packet(ns@),
{
    let mut out: Vec<char> = Vec::new();
    out.push('4');
    out.push('1');
    if !is_root(ns) {
        push_str(&mut out, ns);
        out.push(',');
    }
    proof {
        assert(out@ =~= spec_disconnect_packet(ns@));
    }
    string_from_chars(&out)
}

/// The text of a packet in a long-polling body: a text packet as it is, a
/// binary one as `b` followed by its base64.
pub open spec fn polling_text(p: OutgoingPacket) -> Seq<char> {
    match p {
        OutgoingPacket::Text(s) => s@,
        OutgoingPacket::Binary(b) => seq!['b'] + base64_text(b@),
    }
}

/// A packet whose base64 text has a length that fits in a `usize`.
pub open spec fn encodable(p: OutgoingPacket) -> bool {
    match p {
        OutgoingPacket::Text(_) => true,
        OutgoingPacket::Binary(b) => b@.len() / 3 * 4 + 4 <= usize::MAX,
    }
}

/// Appends a packet to a long-polling request body.
pub fn append_polling_packet(p: &OutgoingPacket, out: &mut String)
    requires
        encodable(*p),
    ensures
        final(out)@ == old(out)@ + polling_text(*p),
{
    match p {
        OutgoingPacket::Text(s) => {
            out.append(s.as_str());
        },
        OutgoingPacket::Binary(b) => {
            proof {
                reveal_strlit("b");
            }
            out.append("b");
            let t = encode_base64(b.as_slice());
            out.append(t.as_str());
            proof {
                assert(out@ =~= old(out)@ + (seq!['b'] + base64_text(b@)));
            }
        },
    }
}

/// The packets of a long-polling body, separated by the record separator.
pub open spec fn join_records(texts: Seq<Seq<char>>) -> Seq<char>
    decreases texts.len(),
{
    if texts.len() == 0 {
        Seq::empty()
    } else if texts.len() == 1 {
        texts[0]
    } else {
        join_records(texts.drop_last()).push(record_separator()) + texts.last()
    }
}

/// The body of one long-polling POST carrying `packets`, in order.
pub open spec fn spec_polling_body(packets: Seq<OutgoingPacket>) -> Seq<char> {
    join_records(packets.map_values(|p: OutgoingPacket| polling_text(p)))
}

/// Builds the body of one long-polling POST that carries `packets`, in order.
pub fn polling_body(packets: &Vec<OutgoingPacket>) -> (r: String)
    requires
        forall|i: int| 0 <= i < packets@.len() ==> encodable(#[trigger] packets@[i]),
    ensures
        r@ == spec_polling_body(packets@),
{
    let ghost texts = packets@.map_values(|p: OutgoingPacket| polling_text(p));
    let mut body = String::new();
    let mut i: usize = 0;
    while i < packets.len()
        invariant
            i <= packets@.len(),
            texts == packets@.map_values(|p: OutgoingPacket| polling_text(p)),
            forall|j: int| 0 <= j < packets@.len() ==> encodable(#[trigger] packets@[j]),
            body@ == join_records(texts.take(i as int)),
        decreases packets@.len() - i,
    {
        if i > 0 {
            proof {
                reveal_strlit("\u{1e}");
            }
            body.append("\u{1e}");
        }
        append_polling_packet(&packets[i], &mut body);
        proof {
            let t = texts.take(i + 1);
            assert(t.drop_last() =~= texts.take(i as int));
            assert(t.last() == polling_text(packets@[i as int]));
            if i == 0 {
                assert(texts.take(0) =~= Seq::<Seq<char>>::empty());
                assert(body@ =~= t[0]);
            }
        }
        i = i + 1;
    }
    proof {
        assert(texts.take(i as int) =~= texts);
    }
    body
}

/// The records of a long-polling body: the pieces between separators.
pub open spec fn records(s: Seq<char>) -> Seq<Seq<char>>
    decreases s.len(),
{
    let i = run_until(s, record_separator());
    if i < s.len() {
        seq![s.take(i as int)] + records(s.skip(i as int + 1))
    } else {
        seq![s]
    }
}

/// The frame a record of a long-polling body carries: nothing for an empty
/// record or for `b` followed by text that is not base64; the decoded bytes
/// for other `b` records; the text itself otherwise.
pub open spec fn record_frame(r: Seq<char>) -> Seq<Frame> {
    if r.len() == 0 {
        Seq::empty()
    } else if r[0] == 'b' {
        match base64_decoded(r.skip(1)) {
            Some(b) => seq![Frame::Binary(b)],
            None => Seq::empty(),
        }
    } else {
        seq![Frame::Text(r)]
    }
}

/// The frames carried by a sequence of records, in order.
pub open spec fn records_frames(rs: Seq<Seq<char>>) -> Seq<Frame>
    decreases rs.len(),
{
    if rs.len() == 0 {
        Seq::empty()
    } else {
        record_frame(rs[0]) + records_frames(rs.drop_first())
    }
}

/// The frames of a long-polling response body.
pub open spec fn spec_polling_frames(body: Seq<char>) -> Seq<Frame> {
    records_frames(records(body))
}

/// Splits a long-polling response body into frames: records are separated
/// by `\u{1e}`; empty records are skipped; a record `b<base64>` is a binary
/// frame (skipped when it does not decode); any other record is a text frame.
pub fn split_polling_body(body: &str) -> (r: Vec<IncomingFrame>)
    ensures
        r@.map_values(|f: IncomingFrame| f@) == spec_polling_frames(body@),
{
    let v = chars_of(body);
    let n = v.len();
    let mut out: Vec<IncomingFrame> = Vec::new();
    let mut start: usize = 0;
    proof {
        assert(v@.skip(0) =~= v@);
        assert(out@.map_values(|f: IncomingFrame| f@) =~= Seq::<Frame>::empty());
    }
    loop
        invariant
            start <= n,
            n == v@.len(),
            v@ == body@,
            records_frames(records(v@)) == out@.map_values(|f: IncomingFrame| f@)
                + records_frames(records(v@.skip(start as int))),
        decreases n - start,
    {
        let end = find_char_from(&v, '\u{1e}', start);
        let ghost rest = v@.skip(start as int);
        let ghost rec = v@.subrange(start as int, end as int);
        proof {
            assert(rest.take(end - start) =~= rec);
            lemma_run_until(rest, record_separator());
        }
        let ghost before = out@.map_values(|f: IncomingFrame| f@);
        if end > start {
            let first = v[start];
            let piece = body.substring_char(start, end);
            if first == 'b' {
                let enc = body.substring_char(start + 1, end);
                proof {
                    assert(enc@ =~= rec.skip(1));
                }
                match decode_base64(enc) {
                    Some(bytes) => {
                        out.push(IncomingFrame::Binary(bytes));
                    },
                    None => {},
                }
            } else {
                out.push(IncomingFrame::Text(piece.to_owned()));
            }
        }
        proof {
            assert(out@.map_values(|f: IncomingFrame| f@) =~= before + record_frame(rec));
        }
        if end == n {
            proof {
                assert(records(rest) == seq![rest]);
                assert(rest =~= rec);
                assert(seq![rest].drop_first() =~= Seq::<Seq<char>>::empty());
                assert(records_frames(Seq::<Seq<char>>::empty()) == Seq::<Frame>::empty());
                assert(records_frames(seq![rest]) =~= record_frame(rest));
                assert(out@.map_values(|f: IncomingFrame| f@) + Seq::<Frame>::empty()
                    =~= out@.map_values(|f: IncomingFrame| f@));
            }
            return out;
        }
        proof {
            assert(records(rest) == seq![rec] + records(rest.skip(end - start + 1)));
            assert(rest.skip(end - start + 1) =~= v@.skip(end + 1));
            let later = records(v@.skip(end + 1));
            assert((seq![rec] + later)[0] == rec);
            assert((seq![rec] + later).drop_first() =~= later);
            assert(records_frames(records(rest)) == record_frame(rec) + records_frames(later));
        }
        start = end + 1;
    }
}

/// `a`, a separator, then `b` (with no separator in `b`) splits into the
/// records of `a` followed by `b`.
proof fn lemma_records_push(a: Seq<char>, b: Seq<char>)
    requires
        !b.contains(record_separator()),
    ensures
        records(a.push(record_separator()) + b) == records(a).push(b),
    decreases a.len(),
{
    let rs = record_separator();
    let s = a.push(rs) + b;
    lemma_run_until(a, rs);
    lemma_run_until(s, rs);
    let i = run_until(a, rs) as int;
    if i < a.len() {
        assert forall|j: int| 0 <= j < i implies s[j] != rs by {
            assert(s[j] == a[j]);
        }
        assert(s[i] == a[i]);
        crate::text::lemma_run_until_of(s, rs, i);
        assert(s.take(i) =~= a.take(i));
        let a2 = a.skip(i + 1);
        assert(s.skip(i + 1) =~= a2.push(rs) + b);
        lemma_records_push(a2, b);
        assert(records(a) == seq![a.take(i)] + records(a2));
        assert(records(s) =~= records(a).push(b));
    } else {
        assert forall|j: int| 0 <= j < a.len() implies s[j] != rs by {
            assert(s[j] == a[j]);
        }
        assert(s[a.len() as int] == rs);
        crate::text::lemma_run_until_of(s, rs, a.len() as int);
        assert(s.take(a.len() as int) =~= a);
        assert(s.skip(a.len() as int + 1) =~= b);
        lemma_run_until(b, rs);
        if run_until(b, rs) < b.len() {
            assert(b.contains(rs));
        }
        assert(records(b) == seq![b]);
        assert(records(s) =~= records(a).push(b));
    }
}

/// The frames of records followed by one more record.
proof fn lemma_records_frames_push(rs: Seq<Seq<char>>, r: Seq<char>)
    ensures
        records_frames(rs.push(r)) == records_frames(rs) + record_frame(r),
    decreases rs.len(),
{
    if rs.len() == 0 {
        assert(rs.push(r).drop_first() =~= Seq::<Seq<char>>::empty());
        assert(records_frames(Seq::<Seq<char>>::empty()) == Seq::<Frame>::empty());
        assert(records_frames(rs.push(r)) =~= record_frame(r));
    } else {
        assert(rs.push(r).drop_first() =~= rs.drop_first().push(r));
        lemma_records_frames_push(rs.drop_first(), r);
        assert(records_frames(rs.push(r)) =~= records_frames(rs) + record_frame(r));
    }
}

/// A packet that crosses a long-polling body unchanged: a text packet that
/// is not empty, does not start with `b` (which marks binary) and holds no
/// separator; any binary packet.
pub open spec fn crosses_polling_body(p: OutgoingPacket) -> bool {
    match p {
        OutgoingPacket::Text(s) => s@.len() > 0 && s@[0] != 'b' && !s@.contains(record_separator()),
        OutgoingPacket::Binary(_) => true,
    }
}

/// The frame the reader makes of a packet: a text packet as a text frame,
/// a binary one as a binary frame of the same bytes.
pub open spec fn packet_frame(p: OutgoingPacket) -> Frame {
    match p {
        OutgoingPacket::Text(s) => Frame::Text(s@),
        OutgoingPacket::Binary(b) => Frame::Binary(b@),
    }
}

/// The record of a packet that crosses a body holds no separator and reads
/// back as that packet's frame.
proof fn lemma_packet_record(p: OutgoingPacket)
    requires
        crosses_polling_body(p),
    ensures
        !polling_text(p).contains(record_separator()),
        record_frame(polling_text(p)) == seq![packet_frame(p)],
{
    match p {
        OutgoingPacket::Text(s) => {},
        OutgoingPacket::Binary(b) => {
            let r = polling_text(p);
            let t = base64_text(b@);
            crate::binary::lemma_base64_text_no_separator(b@);
            if r.contains(record_separator()) {
                let i = choose|i: int| 0 <= i < r.len() && r[i] == record_separator();
                assert(i > 0);
                assert(t[i - 1] == r[i]);
            }
            assert(r.skip(1) =~= t);
            assert(base64_text(b@) == t);
            let c = choose|c: Seq<u8>| #[trigger] base64_text(c) == t;
            crate::binary::lemma_base64_text_injective(c, b@);
        },
    }
}

/// Law: the reader of a long-polling body recovers, as frames in the same
/// order, the packets that the writer put into it: text packets as text
/// frames, binary packets as binary frames of the same bytes.
pub proof fn law_polling_body_roundtrip(packets: Seq<OutgoingPacket>)
    requires
        forall|i: int| 0 <= i < packets.len() ==> crosses_polling_body(#[trigger] packets[i]),
    ensures
        spec_polling_frames(spec_polling_body(packets)) == packets.map_values(
            |p: OutgoingPacket| packet_frame(p),
        ),
    decreases packets.len(),
{
    let texts = packets.map_values(|p: OutgoingPacket| polling_text(p));
    let frames = packets.map_values(|p: OutgoingPacket| packet_frame(p));
    if packets.len() == 0 {
        assert(texts =~= Seq::<Seq<char>>::empty());
        let e = Seq::<char>::empty();
        lemma_run_until(e, record_separator());
        assert(records(e) == seq![e]);
        assert(seq![e].drop_first() =~= Seq::<Seq<char>>::empty());
        assert(records_frames(Seq::<Seq<char>>::empty()) == Seq::<Frame>::empty());
        assert(frames =~= Seq::<Frame>::empty());
    } else {
        let init = packets.drop_last();
        assert forall|i: int| 0 <= i < init.len() implies crosses_polling_body(#[trigger] init[i]) by {
            assert(init[i] == packets[i]);
        }
        law_polling_body_roundtrip(init);
        let lp = packets.last();
        let last = polling_text(lp);
        assert(crosses_polling_body(packets[packets.len() - 1]));
        lemma_packet_record(lp);
        assert(texts.drop_last() =~= init.map_values(|p: OutgoingPacket| polling_text(p)));
        assert(texts.last() == last);
        let front = join_records(texts.drop_last());
        lemma_records_frames_push(records(front), last);
        if packets.len() == 1 {
            assert(spec_polling_body(packets) == last);
            lemma_run_until(last, record_separator());
            if run_until(last, record_separator()) < last.len() {
                assert(last.contains(record_separator()));
            }
            assert(records(last) == seq![last]);
            assert(seq![last].drop_first() =~= Seq::<Seq<char>>::empty());
            assert(records_frames(Seq::<Seq<char>>::empty()) == Seq::<Frame>::empty());
            assert(records_frames(seq![last]) =~= record_frame(last));
            assert(frames =~= seq![packet_frame(lp)]);
        } else {
            assert(spec_polling_body(packets) == front.push(record_separator()) + last);
            lemma_records_push(front, last);
            assert(frames.drop_last() =~= init.map_values(|p: OutgoingPacket| packet_frame(p)));
            assert(frames =~= frames.drop_last() + seq![packet_frame(lp)]);
        }
    }
}

/// The JSON part of the handshake response: its first record, which must
/// be an Engine.IO OPEN packet `0<json>`.
pub open spec fn spec_open_packet_json(body: Seq<char>) -> Option<Seq<char>> {
    let first = body.take(run_until(body, record_separator()) as int);
    if first.len() > 0 && first[0] == '0' {
        Some(first.skip(1))
    } else {
        None
    }
}

/// Takes the JSON of the OPEN packet that starts a handshake response;
/// nothing when the first packet is not an OPEN packet.
pub fn open_packet_json(body: &str) -> (r: Option<&str>)
    ensures
        match r {
            Some(t) => spec_open_packet_json(body@) == Some(t@),
            None => spec_open_packet_json(body@) is None,
        },
{
    let v = chars_of(body);
    let end = find_char_from(&v, '\u{1e}', 0);
    proof {
        assert(v@.skip(0) =~= v@);
    }
    if end > 0 && v[0] == '0' {
        let t = body.substring_char(1, end);
        proof {
            assert(t@ =~= v@.take(end as int).skip(1));
        }
        Some(t)
    } else {
        None
    }
}

/// Whether the server accepted the WebSocket probe: it answered `3probe`,
/// or it opened a WebSocket-only session with an OPEN packet.
pub open spec fn spec_probe_accepted(reply: Seq<char>) -> bool {
    reply == seq!['3', 'p', 'r', 'o', 'b', 'e'] || (reply.len() > 0 && reply[0] == '0')
}

/// Judges the server's reply to the WebSocket probe `2probe`.
pub fn probe_accepted(reply: &str) -> (b: bool)
    ensures
        b == spec_probe_accepted(reply@),
{
    let v = chars_of(reply);
    if v.len() > 0 && v[0] == '0' {
        return true;
    }
    let b = v.len() == 6 && v[0] == '3' && v[1] == 'p' && v[2] == 'r' && v[3] == 'o' && v[4] == 'b'
        && v[5] == 'e';
    proof {
        if b {
            assert(v@ =~= seq!['3', 'p', 'r', 'o', 'b', 'e']);
        }
    }
    b
}

/// The index of the first occurrence of `pat` in `s` at or after `from`.
pub open spec fn find_sub(s: Seq<char>, pat: Seq<char>, from: int) -> Option<int>
    decreases s.len() + 1 - from,
{
    if from < 0 || from + pat.len() > s.len() {
        None
    } else if s.subrange(from, from + pat.len()) == pat {
        Some(from)
    } else {
        find_sub(s, pat, from + 1)
    }
}

/// `s` with its first occurrence of `pat` replaced by `rep` (as `replacen(pat, rep, 1)`).
pub open spec fn replace_first(s: Seq<char>, pat: Seq<char>, rep: Seq<char>) -> Seq<char> {
    match find_sub(s, pat, 0) {
        Some(i) => s.take(i) + rep + s.skip(i + pat.len()),
        None => s,
    }
}

/// Whether `pat` occurs in `v` at `at`.
fn occurs_at(v: &Vec<char>, pat: &Vec<char>, at: usize) -> (b: bool)
    requires
        at + pat@.len() <= v@.len(),
    ensures
        b == (v@.subrange(at as int, at + pat@.len()) == pat@),
{
    let mut j: usize = 0;
    let total = v.len();
    assert(total == v@.len());
    while j < pat.len()
        invariant
            at + pat@.len() <= v@.len(),
            v@.len() <= usize::MAX,
            j <= pat@.len(),
            forall|k: int| 0 <= k < j ==> v@[at + k] == pat@[k],
        decreases pat@.len() - j,
    {
        if v[at + j] != pat[j] {
            proof {
                assert(v@.subrange(at as int, at + pat@.len())[j as int] != pat@[j as int]);
            }
            return false;
        }
        j = j + 1;
    }
    proof {
        assert(v@.subrange(at as int, at + pat@.len()) =~= pat@);
    }
    true
}

/// Replaces the first occurrence of `pat` in `s` by `rep`.
fn replace_first_exec(s: &str, pat: &str, rep: &str) -> (r: String)
    ensures
        r@ == replace_first(s@, pat@, rep@),
{
    let v = chars_of(s);
    let p = chars_of(pat);
    let mut i: usize = 0;
    while i <= v.len() && p.len() <= v.len() - i
        invariant
            i <= v@.len(),
            v@ == s@,
            p@ == pat@,
            find_sub(v@, p@, 0) == find_sub(v@, p@, i as int),
        decreases v@.len() + 1 - i,
    {
        let hit = occurs_at(&v, &p, i);
        proof {
            if p@.len() == 0 {
                assert(v@.subrange(i as int, i as int) =~= p@);
            }
        }
        if hit {
            let mut out: Vec<char> = Vec::new();
            push_str(&mut out, s.substring_char(0, i));
            push_str(&mut out, rep);
            push_str(&mut out, s.substring_char(i + p.len(), v.len()));
            proof {
                assert(out@ =~= replace_first(s@, pat@, rep@));
            }
            return string_from_chars(&out);
        }
        i = i + 1;
    }
    s.to_owned()
}

/// The WebSocket base of a server URL: `https://` becomes `wss://` when the
/// URL starts with it; otherwise the first `http://` becomes `ws://`.
pub open spec fn spec_websocket_base(base: Seq<char>) -> Seq<char> {
    if base.len() >= 8 && base.take(8) == "https://"@ {
        replace_first(base, "https://"@, "wss://"@)
    } else {
        replace_first(base, "http://"@, "ws://"@)
    }
}

/// `<ws base>/socket.io/?EIO=4&transport=websocket&sid=<sid>`.
pub open spec fn spec_websocket_url(base: Seq<char>, sid: Seq<char>) -> Seq<char> {
    spec_websocket_base(base) + "/socket.io/?EIO=4&transport=websocket&sid="@ + sid
}

/// The URL that upgrades session `sid` of the server at `base` to WebSocket.
pub fn websocket_url(base: &str, sid: &str) -> (r: String)
    ensures
        r@ == spec_websocket_url(base@, sid@),
{
    let https = "https://";
    let v = chars_of(base);
    let h = chars_of(https);
    let starts = h.len() <= v.len() && occurs_at(&v, &h, 0);
    let ws_base = if starts {
        replace_first_exec(base, https, "wss://")
    } else {
        replace_first_exec(base, "http://", "ws://")
    };
    proof {
        reveal_strlit("https://");
        if v@.len() >= 8 && v@.take(8) == "https://"@ {
            assert(v@.subrange(0, 8) =~= v@.take(8));
        }
        if starts {
            assert(v@.take(8) =~= v@.subrange(0, 8));
        }
    }
    let mut out: Vec<char> = Vec::new();
    push_str(&mut out, ws_base.as_str());
    push_str(&mut out, "/socket.io/?EIO=4&transport=websocket&sid=");
    push_str(&mut out, sid);
    string_from_chars(&out)
}

/// `<base>/socket.io/?EIO=4&transport=polling[&sid=<sid>]`.
pub open spec fn spec_polling_url(base: Seq<char>, sid: Option<Seq<char>>) -> Seq<char> {
    base + "/socket.io/?EIO=4&transport=polling"@ + match sid {
        Some(s) => "&sid="@ + s,
        None => Seq::empty(),
    }
}

/// The long-polling URL of the server at `base`: the handshake URL without
/// a session, the session's URL with one.
pub fn polling_url(base: &str, sid: Option<&str>) -> (r: String)
    ensures
        r@ == spec_polling_url(
            base@,
            match sid {
                Some(s) => Some(s@),
                None => None,
            },
        ),
{
    let mut out: Vec<char> = Vec::new();
    push_str(&mut out, base);
    push_str(&mut out, "/socket.io/?EIO=4&transport=polling");
    let ghost mid = out@;
    match sid {
        Some(s) => {
            push_str(&mut out, "&sid=");
            push_str(&mut out, s);
            proof {
                assert(out@ =~= mid + ("&sid="@ + s@));
            }
        },
        None => {
            proof {
                assert(out@ =~= mid + Seq::<char>::empty());
            }
        },
    }
    string_from_chars(&out)
}

} // verus!
