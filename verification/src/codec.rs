//! Socket.IO packet codec.
//!
//! A Socket.IO packet travels as
//! `<packet type>[<# of binary attachments>-][<namespace>,][<ack id>]<JSON payload>`.
//! The functions here split such a text into its parts and build it back.
use vstd::prelude::*;
use crate::text::{
    all_digits, chars_of, count_digits, decimal, decimal_value, digit_run, find_char, is_root,
    lemma_decimal, lemma_decimal_then, lemma_digit_run, lemma_run_until_of, is_digit, parse_decimal, push_decimal, push_str, root_ns, root_string, run_until,
    string_from_chars,
};

verus! {

/// Namespace and payload of a packet body: a body that starts with `/`
/// names its namespace up to the first `,`; any other body belongs to `/`.
pub open spec fn spec_parse_ns_payload(s: Seq<char>) -> (Seq<char>, Seq<char>) {
    if s.len() == 0 {
        (root_ns(), s)
    } else if s[0] == '/' {
        let i = run_until(s, ',');
        if i < s.len() {
            (s.take(i as int), s.skip(i as int + 1))
        } else {
            (s, Seq::empty())
        }
    } else {
        (root_ns(), s)
    }
}

/// Namespace, ack id and payload of a packet body: after the namespace, a
/// run of digits is the ack id (absent when it does not fit in a `u64`).
pub open spec fn spec_parse_ns_payload_with_id(s: Seq<char>) -> (Seq<char>, Option<u64>, Seq<char>) {
    let (ns, rest) = spec_parse_ns_payload(s);
    let k = digit_run(rest);
    if k > 0 {
        let v = decimal_value(rest.take(k as int));
        (ns, if v <= u64::MAX { Some(v as u64) } else { None }, rest.skip(k as int))
    } else {
        (ns, None, rest)
    }
}

/// Attachment count and remainder of a binary packet body `<N>-...`; a body
/// without such a prefix, or whose count does not fit in a `usize`, cannot
/// be parsed and gives `(0, body)`.
pub open spec fn spec_parse_binary_header(s: Seq<char>) -> (usize, Seq<char>) {
    let k = digit_run(s);
    if k > 0 && k < s.len() && s[k as int] == '-' && decimal_value(s.take(k as int)) <= usize::MAX {
        (decimal_value(s.take(k as int)) as usize, s.skip(k as int + 1))
    } else {
        (0, s)
    }
}

/// The namespace part of an encoded packet: nothing for `/`, else `<ns>,`.
pub open spec fn ns_prefix(ns: Seq<char>) -> Seq<char> {
    if ns == root_ns() {
        Seq::empty()
    } else {
        ns.push(',')
    }
}

/// `<type>[<ns>,]<payload>`.
pub open spec fn spec_encode_with_namespace(ns: Seq<char>, typ: Seq<char>, payload: Seq<char>) -> Seq<char> {
    typ + ns_prefix(ns) + payload
}

/// The payload written after an ack id: an empty payload becomes `[]`.
pub open spec fn ack_payload(payload: Seq<char>) -> Seq<char> {
    if payload.len() == 0 {
        seq!['[', ']']
    } else {
        payload
    }
}

/// `<type>[<ns>,]<id><payload>`, with `[]` for an empty payload.
pub open spec fn spec_encode_with_namespace_with_id(
    ns: Seq<char>,
    typ: Seq<char>,
    id: u64,
    payload: Seq<char>,
) -> Seq<char> {
    typ + ns_prefix(ns) + decimal(id as nat) + ack_payload(payload)
}

/// The ack id part of a binary header: its numeral, or nothing.
pub open spec fn id_part(id: Option<u64>) -> Seq<char> {
    match id {
        Some(i) => decimal(i as nat),
        None => Seq::empty(),
    }
}

/// `<type><N>-[<ns>,][<id>]<payload>`.
pub open spec fn spec_encode_binary_header(
    ns: Seq<char>,
    typ: Seq<char>,
    num_attachments: usize,
    id: Option<u64>,
    payload: Seq<char>,
) -> Seq<char> {
    typ + decimal(num_attachments as nat) + seq!['-'] + ns_prefix(ns) + id_part(id) + payload
}

/// Parses the namespace and the remaining payload of a Socket.IO packet body.
///
/// A body that starts with `/` names its namespace, which ends at the first
/// `,`; the payload follows that comma. A body starting with `/` that holds
/// no comma is all namespace. Any other body belongs to `/`.
pub fn parse_ns_payload(s: &str) -> (r: (String, &str))
    ensures
        r.0@ == spec_parse_ns_payload(s@).0,
        r.1@ == spec_parse_ns_payload(s@).1,
{
    let v = chars_of(s);
    let n = v.len();
    if n == 0 {
        return (root_string(), s);
    }
    if v[0] == '/' {
        let i = find_char(&v, ',');
        if i < n {
            let ns = s.substring_char(0, i).to_owned();
            (ns, s.substring_char(i + 1, n))
        } else {
            (s.to_owned(), s.substring_char(n, n))
        }
    } else {
        (root_string(), s)
    }
}

/// Parses the namespace, then the ack id that may follow it, then the payload.
///
/// The ack id is the run of decimal digits right after the namespace; it is
/// `None` when there is no digit or when the number does not fit in a `u64`
/// (the digits are consumed either way).
pub fn parse_ns_payload_with_id(s: &str) -> (r: (String, Option<u64>, &str))
    ensures
        r.0@ == spec_parse_ns_payload_with_id(s@).0,
        r.1 == spec_parse_ns_payload_with_id(s@).1,
        r.2@ == spec_parse_ns_payload_with_id(s@).2,
{
    let (ns, rest) = parse_ns_payload(s);
    let v = chars_of(rest);
    let k = count_digits(&v, 0);
    proof {
        assert(v@.skip(0) =~= v@);
    }
    if k > 0 {
        proof {
            lemma_digit_run(v@);
            assert(v@.subrange(0, k as int) =~= v@.take(k as int));
        }
        let id = parse_decimal(&v, 0, k);
        let payload = rest.substring_char(k, v.len());
        (ns, id, payload)
    } else {
        (ns, None, rest)
    }
}

/// Parses the attachment count prefix `<N>-` of a BINARY_EVENT / BINARY_ACK
/// packet body, returning the count and the rest of the body. A body without
/// that prefix, or whose count does not fit in a `usize`, gives `(0, body)`.
pub fn parse_binary_header(s: &str) -> (r: (usize, &str))
    ensures
        r.0 == spec_parse_binary_header(s@).0,
        r.1@ == spec_parse_binary_header(s@).1,
{
    let v = chars_of(s);
    let k = count_digits(&v, 0);
    proof {
        assert(v@.skip(0) =~= v@);
    }
    if k > 0 && k < v.len() && v[k] == '-' {
        proof {
            lemma_digit_run(v@);
            assert(v@.subrange(0, k as int) =~= v@.take(k as int));
        }
        let parsed = parse_decimal(&v, 0, k);
        match parsed {
            Some(x) => {
                if x <= usize::MAX as u64 {
                    return (x as usize, s.substring_char(k + 1, v.len()));
                }
            },
            None => {},
        }
        (0, s)
    } else {
        (0, s)
    }
}

/// Appends the namespace part of a packet: nothing for `/`, else `<ns>,`.
fn push_ns_prefix(out: &mut Vec<char>, ns: &str)
    ensures
        final(out)@ == old(out)@ + ns_prefix(ns@),
{
    if !is_root(ns) {
        let ghost before = out@;
        push_str(out, ns);
        out.push(',');
        proof {
            assert(out@ =~= before + ns@.push(','));
        }
    } else {
        proof {
            assert(out@ =~= old(out)@ + Seq::<char>::empty());
        }
    }
}

/// Encodes a text packet `<type>[<ns>,]<payload>`; the namespace is left
/// out when it is `/`.
pub fn encode_with_namespace(ns: &str, typ: &str, payload: &str) -> (r: String)
    ensures
        r@ == spec_encode_with_namespace(ns@, typ@, payload@),
{
    let mut out: Vec<char> = Vec::new();
    push_str(&mut out, typ);
    push_ns_prefix(&mut out, ns);
    push_str(&mut out, payload);
    proof {
        assert(out@ =~= spec_encode_with_namespace(ns@, typ@, payload@));
    }
    string_from_chars(&out)
}

/// Encodes a text packet that carries an ack id:
/// `<type>[<ns>,]<id><payload>`, where an empty payload is sent as `[]`.
pub fn encode_with_namespace_with_id(ns: &str, typ: &str, id: u64, payload: &str) -> (r: String)
    ensures
        r@ == spec_encode_with_namespace_with_id(ns@, typ@, id, payload@),
{
    let mut out: Vec<char> = Vec::new();
    push_str(&mut out, typ);
    push_ns_prefix(&mut out, ns);
    push_decimal(&mut out, id);
    let ghost before = out@;
    if payload.is_empty() {
        out.push('[');
        out.push(']');
        proof {
            assert(out@ =~= before + seq!['[', ']']);
        }
    } else {
        push_str(&mut out, payload);
    }
    proof {
        assert(out@ =~= spec_encode_with_namespace_with_id(ns@, typ@, id, payload@));
    }
    string_from_chars(&out)
}

/// Encodes the text header of a packet with binary attachments:
/// `<type><N>-[<ns>,][<id>]<payload>`.
pub fn encode_binary_header(
    ns: &str,
    typ: &str,
    num_attachments: usize,
    id: Option<u64>,
    payload: &str,
) -> (r: String)
    ensures
        r@ == spec_encode_binary_header(ns@, typ@, num_attachments, id, payload@),
{
    let mut out: Vec<char> = Vec::new();
    push_str(&mut out, typ);
    push_decimal(&mut out, num_attachments as u64);
    out.push('-');
    push_ns_prefix(&mut out, ns);
    let ghost before = out@;
    match id {
        Some(i) => {
            push_decimal(&mut out, i);
        },
        None => {
            proof {
                assert(out@ =~= before + Seq::<char>::empty());
            }
        },
    }
    push_str(&mut out, payload);
    proof {
        assert(out@ =~= spec_encode_binary_header(ns@, typ@, num_attachments, id, payload@));
    }
    string_from_chars(&out)
}

/// A namespace that an encoded packet carries faithfully: `/`, or a name
/// that starts with `/` and holds no comma.
pub open spec fn is_packet_ns(ns: Seq<char>) -> bool {
    ns == root_ns() || (ns.len() > 0 && ns[0] == '/' && !ns.contains(','))
}

/// Splitting `<ns>,<rest>` at its first comma gives back `ns` and `rest`.
proof fn lemma_parse_prefixed(ns: Seq<char>, rest: Seq<char>)
    requires
        is_packet_ns(ns),
        ns != root_ns(),
    ensures
        spec_parse_ns_payload(ns_prefix(ns) + rest) == (ns, rest),
{
    let body = ns.push(',') + rest;
    assert(body[0] == ns[0]);
    assert forall|i: int| 0 <= i < ns.len() implies body[i] != ',' by {
        assert(body[i] == ns[i]);
        if ns[i] == ',' {
            assert(ns.contains(','));
        }
    }
    assert(body[ns.len() as int] == ',');
    lemma_run_until_of(body, ',', ns.len() as int);
    assert(body.take(ns.len() as int) =~= ns);
    assert(body.skip(ns.len() as int + 1) =~= rest);
}

/// Law: decoding the body of a packet built by `encode_with_namespace`
/// (what follows its type) gives back the namespace and the payload. Under
/// `/` a payload that starts with `/` would read as a namespace, so it is
/// left out.
pub proof fn law_encode_then_parse_ns_payload(ns: Seq<char>, typ: Seq<char>, payload: Seq<char>)
    requires
        is_packet_ns(ns),
        ns == root_ns() ==> payload.len() == 0 || payload[0] != '/',
    ensures
        spec_parse_ns_payload(spec_encode_with_namespace(ns, typ, payload).skip(typ.len() as int))
            == (ns, payload),
{
    let body = ns_prefix(ns) + payload;
    assert(spec_encode_with_namespace(ns, typ, payload).skip(typ.len() as int) =~= body);
    if ns == root_ns() {
        assert(body =~= payload);
    } else {
        lemma_parse_prefixed(ns, payload);
    }
}

/// Law: decoding the body of a packet built by
/// `encode_with_namespace_with_id` gives back the namespace, the ack id and
/// the payload (`[]` in place of an empty one), provided the payload does
/// not itself start with a digit.
pub proof fn law_encode_then_parse_with_id(ns: Seq<char>, typ: Seq<char>, id: u64, payload: Seq<char>)
    requires
        is_packet_ns(ns),
        payload.len() == 0 || !is_digit(payload[0]),
    ensures
        spec_parse_ns_payload_with_id(
            spec_encode_with_namespace_with_id(ns, typ, id, payload).skip(typ.len() as int),
        ) == (ns, Some(id), ack_payload(payload)),
{
    let ap = ack_payload(payload);
    let tail = decimal(id as nat) + ap;
    let body = ns_prefix(ns) + tail;
    assert(spec_encode_with_namespace_with_id(ns, typ, id, payload).skip(typ.len() as int)
        =~= body);
    lemma_decimal(id as nat);
    assert(ap.len() == 0 || !is_digit(ap[0]));
    lemma_decimal_then(id as nat, ap);
    if ns == root_ns() {
        assert(body =~= tail);
        assert(tail[0] == decimal(id as nat)[0]);
        assert(is_digit(decimal(id as nat)[0]));
    } else {
        lemma_parse_prefixed(ns, tail);
    }
}

/// Law: the body of a header built by `encode_binary_header` decodes, by
/// `parse_binary_header` and then `parse_ns_payload_with_id`, back to the
/// attachment count, the namespace, the ack id and the payload. The payload
/// must not start with a digit (it would read as an ack id), nor, with no
/// ack id under `/`, with `/` (it would read as a namespace).
pub proof fn law_encode_then_parse_binary_header(
    ns: Seq<char>,
    typ: Seq<char>,
    num_attachments: usize,
    id: Option<u64>,
    payload: Seq<char>,
)
    requires
        is_packet_ns(ns),
        payload.len() == 0 || !is_digit(payload[0]),
        id is None && ns == root_ns() ==> payload.len() == 0 || payload[0] != '/',
    ensures
        ({
            let body = spec_encode_binary_header(ns, typ, num_attachments, id, payload).skip(
                typ.len() as int,
            );
            let (n, rest) = spec_parse_binary_header(body);
            &&& n == num_attachments
            &&& rest == ns_prefix(ns) + id_part(id) + payload
            &&& spec_parse_ns_payload_with_id(rest) == (ns, id, payload)
        }),
{
    let rest = ns_prefix(ns) + id_part(id) + payload;
    let after = seq!['-'] + rest;
    let body = decimal(num_attachments as nat) + after;
    assert(spec_encode_binary_header(ns, typ, num_attachments, id, payload).skip(typ.len() as int)
        =~= body);
    lemma_decimal(num_attachments as nat);
    lemma_decimal_then(num_attachments as nat, after);
    let k = decimal(num_attachments as nat).len() as int;
    assert(body[k] == '-');
    assert(body.skip(k + 1) =~= rest);
    let tail = id_part(id) + payload;
    match id {
        Some(i) => {
            lemma_decimal(i as nat);
            lemma_decimal_then(i as nat, payload);
            if ns == root_ns() {
                assert(rest =~= tail);
                assert(tail[0] == decimal(i as nat)[0]);
                assert(is_digit(decimal(i as nat)[0]));
            } else {
                assert(rest =~= ns_prefix(ns) + tail);
                lemma_parse_prefixed(ns, tail);
            }
        },
        None => {
            assert(tail =~= payload);
            if ns == root_ns() {
                assert(rest =~= payload);
            } else {
                assert(rest =~= ns_prefix(ns) + payload);
                lemma_parse_prefixed(ns, payload);
            }
            if payload.len() > 0 {
                assert(!is_digit(payload[0]));
            }
        },
    }
}

} // verus!
