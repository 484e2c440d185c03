//! Base64 text for binary attachments, through the `base64` crate's
//! standard engine (standard alphabet, `=` padding).
use vstd::prelude::*;
use base64::Engine;

verus! {

/// The standard base64 alphabet: `A`-`Z`, `a`-`z`, `0`-`9`, `+`, `/`.
pub open spec fn base64_digit(i: nat) -> char {
    if i < 26 {
        (i + 'A' as nat) as char
    } else if i < 52 {
        ((i - 26) + 'a' as nat) as char
    } else if i < 62 {
        ((i - 52) + '0' as nat) as char
    } else if i == 62 {
        '+'
    } else {
        '/'
    }
}

/// Standard padded base64 (RFC 4648): each group of three bytes becomes
/// four digits; a last group of one or two bytes is padded with `=`.
pub open spec fn base64_text(b: Seq<u8>) -> Seq<char>
    decreases b.len(),
{
    if b.len() == 0 {
        Seq::empty()
    } else if b.len() == 1 {
        seq![base64_digit(b[0] as nat / 4), base64_digit((b[0] as nat % 4) * 16), '=', '=']
    } else if b.len() == 2 {
        seq![
            base64_digit(b[0] as nat / 4),
            base64_digit((b[0] as nat % 4) * 16 + b[1] as nat / 16),
            base64_digit((b[1] as nat % 16) * 4),
            '=',
        ]
    } else {
        seq![
            base64_digit(b[0] as nat / 4),
            base64_digit((b[0] as nat % 4) * 16 + b[1] as nat / 16),
            base64_digit((b[1] as nat % 16) * 4 + b[2] as nat / 64),
            base64_digit(b[2] as nat % 64),
        ] + base64_text(b.skip(3))
    }
}

/// Distinct digits of the alphabet are distinct characters, and none is `=`.
proof fn lemma_base64_digit(i: nat, j: nat)
    requires
        i < 64,
        j < 64,
    ensures
        base64_digit(i) == base64_digit(j) ==> i == j,
        base64_digit(i) != '=',
        base64_digit(i) != '\u{1e}',
{
    let ci = base64_digit(i) as u32;
    let cj = base64_digit(j) as u32;
    assert(i < 26 ==> ci == i + 65);
    assert(26 <= i < 52 ==> ci == i + 71);
    assert(52 <= i < 62 ==> ci == i - 4);
    assert(j < 26 ==> cj == j + 65);
    assert(26 <= j < 52 ==> cj == j + 71);
    assert(52 <= j < 62 ==> cj == j - 4);
}

/// A group of three bytes is fixed by its four digits.
proof fn lemma_group3(a0: u8, a1: u8, a2: u8, c0: u8, c1: u8, c2: u8)
    requires
        a0 / 4 == c0 / 4,
        (a0 % 4) * 16 + a1 / 16 == (c0 % 4) * 16 + c1 / 16,
        (a1 % 16) * 4 + a2 / 64 == (c1 % 16) * 4 + c2 / 64,
        a2 % 64 == c2 % 64,
    ensures
        a0 == c0 && a1 == c1 && a2 == c2,
{
    assert(a0 == c0 && a1 == c1 && a2 == c2) by (bit_vector)
        requires
            a0 / 4 == c0 / 4,
            (a0 % 4) * 16 + a1 / 16 == (c0 % 4) * 16 + c1 / 16,
            (a1 % 16) * 4 + a2 / 64 == (c1 % 16) * 4 + c2 / 64,
            a2 % 64 == c2 % 64,
    ;
}

/// A last group of two bytes is fixed by its three digits.
proof fn lemma_group2(a0: u8, a1: u8, c0: u8, c1: u8)
    requires
        a0 / 4 == c0 / 4,
        (a0 % 4) * 16 + a1 / 16 == (c0 % 4) * 16 + c1 / 16,
        (a1 % 16) * 4 == (c1 % 16) * 4,
    ensures
        a0 == c0 && a1 == c1,
{
    assert(a0 == c0 && a1 == c1) by (bit_vector)
        requires
            a0 / 4 == c0 / 4,
            (a0 % 4) * 16 + a1 / 16 == (c0 % 4) * 16 + c1 / 16,
            (a1 % 16) * 4 == (c1 % 16) * 4,
    ;
}

/// A last group of one byte is fixed by its two digits.
proof fn lemma_group1(a0: u8, c0: u8)
    requires
        a0 / 4 == c0 / 4,
        (a0 % 4) * 16 == (c0 % 4) * 16,
    ensures
        a0 == c0,
{
    assert(a0 == c0) by (bit_vector)
        requires
            a0 / 4 == c0 / 4,
            (a0 % 4) * 16 == (c0 % 4) * 16,
    ;
}

/// Different bytes have different base64 texts.
pub proof fn lemma_base64_text_injective(a: Seq<u8>, b: Seq<u8>)
    requires
        base64_text(a) == base64_text(b),
    ensures
        a == b,
    decreases a.len(),
{
    let t = base64_text(a);
    if a.len() == 0 {
        if b.len() > 0 {
            assert(base64_text(b).len() >= 4);
        }
        assert(a =~= b);
    } else if a.len() == 1 {
        lemma_base64_digit(a[0] as nat / 4, 0);
        if b.len() == 1 {
            lemma_base64_digit(a[0] as nat / 4, b[0] as nat / 4);
            lemma_base64_digit((a[0] as nat % 4) * 16, (b[0] as nat % 4) * 16);
            lemma_group1(a[0], b[0]);
            assert(a =~= b);
        } else if b.len() == 2 {
            lemma_base64_digit((b[1] as nat % 16) * 4, 0);
        } else if b.len() >= 3 {
            lemma_base64_digit((b[1] as nat % 16) * 4 + b[2] as nat / 64, 0);
            assert(base64_text(b)[2] == base64_digit((b[1] as nat % 16) * 4 + b[2] as nat / 64));
        }
    } else if a.len() == 2 {
        lemma_base64_digit((a[1] as nat % 16) * 4, 0);
        if b.len() == 1 {
        } else if b.len() == 2 {
            lemma_base64_digit(a[0] as nat / 4, b[0] as nat / 4);
            lemma_base64_digit((a[0] as nat % 4) * 16 + a[1] as nat / 16, (b[0] as nat % 4) * 16 + b[1] as nat / 16);
            lemma_base64_digit((a[1] as nat % 16) * 4, (b[1] as nat % 16) * 4);
            lemma_group2(a[0], a[1], b[0], b[1]);
            assert(a =~= b);
        } else if b.len() >= 3 {
            lemma_base64_digit(b[2] as nat % 64, 0);
            assert(base64_text(b)[3] == base64_digit(b[2] as nat % 64));
        }
    } else {
        lemma_base64_digit(a[2] as nat % 64, 0);
        assert(t[3] == base64_digit(a[2] as nat % 64));
        assert(t[2] == base64_digit((a[1] as nat % 16) * 4 + a[2] as nat / 64));
        lemma_base64_digit((a[1] as nat % 16) * 4 + a[2] as nat / 64, 0);
        if b.len() == 1 {
        } else if b.len() == 2 {
        } else if b.len() >= 3 {
            let u = base64_text(b);
            assert(u[0] == base64_digit(b[0] as nat / 4));
            assert(u[1] == base64_digit((b[0] as nat % 4) * 16 + b[1] as nat / 16));
            assert(u[2] == base64_digit((b[1] as nat % 16) * 4 + b[2] as nat / 64));
            assert(u[3] == base64_digit(b[2] as nat % 64));
            assert(t[0] == base64_digit(a[0] as nat / 4));
            assert(t[1] == base64_digit((a[0] as nat % 4) * 16 + a[1] as nat / 16));
            lemma_base64_digit(a[0] as nat / 4, b[0] as nat / 4);
            lemma_base64_digit((a[0] as nat % 4) * 16 + a[1] as nat / 16, (b[0] as nat % 4) * 16 + b[1] as nat / 16);
            lemma_base64_digit((a[1] as nat % 16) * 4 + a[2] as nat / 64, (b[1] as nat % 16) * 4 + b[2] as nat / 64);
            lemma_base64_digit(a[2] as nat % 64, b[2] as nat % 64);
            lemma_group3(a[0], a[1], a[2], b[0], b[1], b[2]);
            assert(t.skip(4) =~= base64_text(a.skip(3)));
            assert(u.skip(4) =~= base64_text(b.skip(3)));
            lemma_base64_text_injective(a.skip(3), b.skip(3));
            assert(a =~= b.take(3) + b.skip(3));
            assert(b =~= b.take(3) + b.skip(3));
        }
    }
}

/// Standard base64 text holds no record separator.
pub proof fn lemma_base64_text_no_separator(b: Seq<u8>)
    ensures
        !base64_text(b).contains('\u{1e}'),
    decreases b.len(),
{
    let t = base64_text(b);
    if b.len() == 1 {
        lemma_base64_digit(b[0] as nat / 4, 0);
        lemma_base64_digit((b[0] as nat % 4) * 16, 0);
        assert forall|i: int| 0 <= i < t.len() implies t[i] != '\u{1e}' by {}
    } else if b.len() == 2 {
        lemma_base64_digit(b[0] as nat / 4, 0);
        lemma_base64_digit((b[0] as nat % 4) * 16 + b[1] as nat / 16, 0);
        lemma_base64_digit((b[1] as nat % 16) * 4, 0);
        assert forall|i: int| 0 <= i < t.len() implies t[i] != '\u{1e}' by {}
    } else if b.len() >= 3 {
        lemma_base64_digit(b[0] as nat / 4, 0);
        lemma_base64_digit((b[0] as nat % 4) * 16 + b[1] as nat / 16, 0);
        lemma_base64_digit((b[1] as nat % 16) * 4 + b[2] as nat / 64, 0);
        lemma_base64_digit(b[2] as nat % 64, 0);
        lemma_base64_text_no_separator(b.skip(3));
        let rest = base64_text(b.skip(3));
        assert forall|i: int| 0 <= i < t.len() implies t[i] != '\u{1e}' by {
            if i >= 4 {
                assert(t[i] == rest[i - 4]);
            }
        }
    }
}

/// What the standard engine decodes a text to: the bytes whose standard
/// padded base64 the text is, or nothing when no bytes have it.
pub open spec fn base64_decoded(text: Seq<char>) -> Option<Seq<u8>> {
    if exists|b: Seq<u8>| #[trigger] base64_text(b) == text {
        Some(choose|b: Seq<u8>| #[trigger] base64_text(b) == text)
    } else {
        None
    }
}

/// Encodes bytes with `base64::engine::general_purpose::STANDARD.encode`.
/// Claimed: the text is the standard padded base64 of the bytes. The crate
/// panics when the length of the text would overflow a `usize`; such inputs
/// are left out.
#[verifier::external_body]
pub(crate) fn encode_base64(bytes: &[u8]) -> (s: String)
    requires
        bytes@.len() / 3 * 4 + 4 <= usize::MAX,
    ensures
        s@ == base64_text(bytes@),
{
    base64::engine::general_purpose::STANDARD.encode(bytes)
}

/// Decodes text with `base64::engine::general_purpose::STANDARD.decode`.
/// Claimed: the engine (standard alphabet, canonical `=` padding required,
/// no trailing bits allowed) accepts exactly the texts that are the
/// standard padded base64 of some bytes, and gives back those bytes.
#[verifier::external_body]
fn decode_standard(text: &str) -> (r: Option<Vec<u8>>)
    ensures
        match r {
            Some(b) => base64_text(b@) == text@,
            None => forall|b: Seq<u8>| #[trigger] base64_text(b) != text@,
        },
{
    match base64::engine::general_purpose::STANDARD.decode(text) {
        Ok(b) => Some(b),
        Err(_) => None,
    }
}

/// Decodes standard padded base64: the bytes, or nothing when the text is
/// not the base64 of any bytes.
pub fn decode_base64(text: &str) -> (r: Option<Vec<u8>>)
    ensures
        match r {
            Some(b) => base64_decoded(text@) == Some(b@),
            None => base64_decoded(text@) is None,
        },
{
    let r = decode_standard(text);
    proof {
        if r is Some {
            let b = r.unwrap()@;
            assert(base64_text(b) == text@);
            let c = choose|c: Seq<u8>| #[trigger] base64_text(c) == text@;
            lemma_base64_text_injective(c, b);
        }
    }
    r
}

} // verus!
