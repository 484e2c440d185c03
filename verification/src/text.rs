//! Character-level helpers shared by the codec modules: copying the
//! characters of a string, scanning runs of characters, and decimal
//! numerals.
use vstd::prelude::*;

verus! {

/// The namespace every packet belongs to when it names none.
pub open spec fn root_ns() -> Seq<char> {
    seq!['/']
}

/// A decimal digit `0`-`9`.
pub open spec fn is_digit(c: char) -> bool {
    '0' <= c && c <= '9'
}

/// The value of a decimal digit.
pub open spec fn digit_value(c: char) -> nat {
    (c as int - '0' as int) as nat
}

/// The digit character for a value below ten.
pub open spec fn digit_char(d: nat) -> char {
    (d + '0' as nat) as char
}

/// Number of leading decimal digits of `s`.
pub open spec fn digit_run(s: Seq<char>) -> nat
    decreases s.len(),
{
    if s.len() == 0 || !is_digit(s[0]) {
        0
    } else {
        1 + digit_run(s.drop_first())
    }
}

/// Number of leading characters of `s` that differ from `c`; equal to
/// `s.len()` when `c` does not occur in `s`.
pub open spec fn run_until(s: Seq<char>, c: char) -> nat
    decreases s.len(),
{
    if s.len() == 0 || s[0] == c {
        0
    } else {
        1 + run_until(s.drop_first(), c)
    }
}

/// The value of a numeral made of decimal digits (leading zeros allowed).
pub open spec fn decimal_value(s: Seq<char>) -> nat
    decreases s.len(),
{
    if s.len() == 0 {
        0
    } else {
        decimal_value(s.drop_last()) * 10 + digit_value(s.last())
    }
}

/// The shortest decimal numeral of `n`, as `u64::to_string` writes it.
pub open spec fn decimal(n: nat) -> Seq<char>
    decreases n,
{
    if n < 10 {
        seq![digit_char(n)]
    } else {
        decimal(n / 10).push(digit_char(n % 10))
    }
}

/// Every character of `s` is a decimal digit.
pub open spec fn all_digits(s: Seq<char>) -> bool {
    forall|i: int| 0 <= i < s.len() ==> #[trigger] is_digit(s[i])
}

/// `digit_run` counts exactly the leading digits.
pub proof fn lemma_digit_run(s: Seq<char>)
    ensures
        digit_run(s) <= s.len(),
        all_digits(s.take(digit_run(s) as int)),
        digit_run(s) < s.len() ==> !is_digit(s[digit_run(s) as int]),
    decreases s.len(),
{
    if s.len() > 0 && is_digit(s[0]) {
        lemma_digit_run(s.drop_first());
        let k = digit_run(s.drop_first()) as int;
        assert forall|i: int| 0 <= i < k + 1 implies #[trigger] is_digit(s.take(k + 1)[i]) by {
            if i > 0 {
                assert(s.take(k + 1)[i] == s.drop_first().take(k)[i - 1]);
            }
        }
    }
}

/// A run of digits followed by a non-digit (or nothing) is exactly `digit_run`.
pub proof fn lemma_digit_run_of(s: Seq<char>, k: int)
    requires
        0 <= k <= s.len(),
        all_digits(s.take(k)),
        k == s.len() || !is_digit(s[k]),
    ensures
        digit_run(s) == k,
    decreases s.len(),
{
    if k > 0 {
        assert(is_digit(s.take(k)[0]));
        assert forall|i: int| 0 <= i < k - 1 implies #[trigger] is_digit(
            s.drop_first().take(k - 1)[i],
        ) by {
            assert(is_digit(s.take(k)[i + 1]));
        }
        lemma_digit_run_of(s.drop_first(), k - 1);
    }
}

/// `run_until` stops at the first occurrence of `c`.
pub proof fn lemma_run_until(s: Seq<char>, c: char)
    ensures
        run_until(s, c) <= s.len(),
        forall|i: int| 0 <= i < run_until(s, c) ==> s[i] != c,
        run_until(s, c) < s.len() ==> s[run_until(s, c) as int] == c,
    decreases s.len(),
{
    if s.len() > 0 && s[0] != c {
        lemma_run_until(s.drop_first(), c);
        assert forall|i: int| 0 <= i < run_until(s, c) implies s[i] != c by {
            if i > 0 {
                assert(s[i] == s.drop_first()[i - 1]);
            }
        }
    }
}

/// A prefix free of `c` followed by `c` (or by nothing) is exactly `run_until`.
pub proof fn lemma_run_until_of(s: Seq<char>, c: char, k: int)
    requires
        0 <= k <= s.len(),
        forall|i: int| 0 <= i < k ==> s[i] != c,
        k == s.len() || s[k] == c,
    ensures
        run_until(s, c) == k,
    decreases s.len(),
{
    if k > 0 {
        assert(s[0] != c);
        assert forall|i: int| 0 <= i < k - 1 implies s.drop_first()[i] != c by {
            assert(s[i + 1] != c);
        }
        lemma_run_until_of(s.drop_first(), c, k - 1);
    }
}

/// Digit characters and digit values correspond.
pub proof fn lemma_digit_char(d: nat)
    requires
        d < 10,
    ensures
        is_digit(digit_char(d)),
        digit_value(digit_char(d)) == d,
{
    assert(digit_char(d) as int == d + 48);
}

/// The numeral of `n` is made of digits, is not empty, and reads back as `n`.
pub proof fn lemma_decimal(n: nat)
    ensures
        decimal(n).len() > 0,
        all_digits(decimal(n)),
        decimal_value(decimal(n)) == n,
    decreases n,
{
    lemma_digit_char(n % 10);
    if n < 10 {
        assert(decimal(n).drop_last() =~= Seq::<char>::empty());
        assert(decimal(n).last() == digit_char(n));
        assert(n % 10 == n);
        assert(decimal_value(Seq::<char>::empty()) == 0);
        assert(decimal_value(decimal(n)) == n);
    } else {
        lemma_decimal(n / 10);
        assert(n == (n / 10) * 10 + n % 10);
        let d = decimal(n);
        assert(d.drop_last() =~= decimal(n / 10));
        assert(d.last() == digit_char(n % 10));
        assert(decimal_value(d) == decimal_value(decimal(n / 10)) * 10 + digit_value(
            digit_char(n % 10),
        ));
        assert(decimal_value(d) == n);
        assert forall|i: int| 0 <= i < d.len() implies #[trigger] is_digit(d[i]) by {
            if i < d.len() - 1 {
                assert(d[i] == decimal(n / 10)[i]);
            }
        }
    }
}

/// A numeral followed by a text that does not start with a digit: the
/// digit run is exactly the numeral.
pub proof fn lemma_decimal_then(n: nat, t: Seq<char>)
    requires
        t.len() == 0 || !is_digit(t[0]),
    ensures
        digit_run(decimal(n) + t) == decimal(n).len(),
        (decimal(n) + t).take(decimal(n).len() as int) =~= decimal(n),
        (decimal(n) + t).skip(decimal(n).len() as int) =~= t,
{
    lemma_decimal(n);
    let s = decimal(n) + t;
    let k = decimal(n).len() as int;
    assert(s.take(k) =~= decimal(n));
    if k < s.len() {
        assert(s[k] == t[0]);
    }
    lemma_digit_run_of(s, k);
}

/// Reading a longer numeral never gives a smaller value.
pub proof fn lemma_decimal_value_prefix(s: Seq<char>, k: int)
    requires
        0 <= k <= s.len(),
    ensures
        decimal_value(s.take(k)) <= decimal_value(s),
    decreases s.len() - k,
{
    if k < s.len() {
        lemma_decimal_value_prefix(s, k + 1);
        assert(s.take(k + 1).drop_last() =~= s.take(k));
    } else {
        assert(s.take(k) =~= s);
    }
}

/// Copies the characters of `s`, in order, into a vector.
pub fn chars_of(s: &str) -> (v: Vec<char>)
    ensures
        v@ == s@,
{
    let mut v: Vec<char> = Vec::new();
    for c in it: s.chars()
        invariant
            v@ == it.seq().take(it.index() as int),
    {
        v.push(c);
    }
    v
}

/// Appends the characters of `s` to `out`.
pub fn push_str(out: &mut Vec<char>, s: &str)
    ensures
        final(out)@ == old(out)@ + s@,
{
    let ghost start = out@;
    for c in it: s.chars()
        invariant
            out@ == start + it.seq().take(it.index() as int),
    {
        out.push(c);
        proof {
            assert(it.seq().take(it.index() + 1) =~= it.seq().take(it.index() as int).push(c));
        }
    }
}

/// The digit character for `d`.
fn digit_to_char(d: u64) -> (c: char)
    requires
        d < 10,
    ensures
        c == digit_char(d as nat),
        is_digit(c),
{
    let b: u8 = d as u8 + 48u8;
    b as char
}

/// Appends the decimal numeral of `n` to `out`.
pub fn push_decimal(out: &mut Vec<char>, n: u64)
    ensures
        final(out)@ == old(out)@ + decimal(n as nat),
    decreases n,
{
    if n >= 10 {
        push_decimal(out, n / 10);
    }
    let c = digit_to_char(n % 10);
    out.push(c);
    proof {
        if n >= 10 {
            assert(decimal(n as nat) == decimal((n / 10) as nat).push(digit_char((n % 10) as nat)));
        }
    }
}

/// Number of leading characters of `v`, from index `from` on, that are digits.
pub fn count_digits(v: &Vec<char>, from: usize) -> (k: usize)
    requires
        from <= v@.len(),
    ensures
        from + k <= v@.len(),
        k == digit_run(v@.skip(from as int)),
{
    let mut i = from;
    while i < v.len() && '0' <= v[i] && v[i] <= '9'
        invariant
            from <= i <= v@.len(),
            all_digits(v@.skip(from as int).take(i - from)),
        decreases v@.len() - i,
    {
        proof {
            let t = v@.skip(from as int);
            assert forall|j: int| 0 <= j < i + 1 - from implies #[trigger] is_digit(
                t.take(i + 1 - from)[j],
            ) by {
                if j < i - from {
                    assert(t.take(i + 1 - from)[j] == t.take(i - from)[j]);
                }
            }
        }
        i = i + 1;
    }
    proof {
        lemma_digit_run_of(v@.skip(from as int), i - from);
    }
    i - from
}

/// Index of the first `c` in `v`, or `v.len()` when there is none.
pub fn find_char(v: &Vec<char>, c: char) -> (k: usize)
    ensures
        k == run_until(v@, c),
{
    let mut i: usize = 0;
    while i < v.len() && v[i] != c
        invariant
            i <= v@.len(),
            forall|j: int| 0 <= j < i ==> v@[j] != c,
        decreases v@.len() - i,
    {
        i = i + 1;
    }
    proof {
        lemma_run_until_of(v@, c, i as int);
    }
    i
}

/// Index of the first `c` in `v` at or after `from`, or `v.len()` when
/// there is none.
pub fn find_char_from(v: &Vec<char>, c: char, from: usize) -> (k: usize)
    requires
        from <= v@.len(),
    ensures
        from <= k <= v@.len(),
        k - from == run_until(v@.skip(from as int), c),
        forall|j: int| from <= j < k ==> v@[j] != c,
        k < v@.len() ==> v@[k as int] == c,
{
    let mut i: usize = from;
    while i < v.len() && v[i] != c
        invariant
            from <= i <= v@.len(),
            forall|j: int| from <= j < i ==> v@[j] != c,
        decreases v@.len() - i,
    {
        i = i + 1;
    }
    proof {
        let t = v@.skip(from as int);
        assert forall|j: int| 0 <= j < i - from implies t[j] != c by {
            assert(t[j] == v@[from + j]);
        }
        if i < v@.len() {
            assert(t[i - from] == v@[i as int]);
        }
        lemma_run_until_of(t, c, i - from);
    }
    i
}

/// The value of the numeral `v[from..to]`, when it fits in a `u64`.
pub fn parse_decimal(v: &Vec<char>, from: usize, to: usize) -> (r: Option<u64>)
    requires
        from <= to <= v@.len(),
        all_digits(v@.subrange(from as int, to as int)),
    ensures
        r == (if decimal_value(v@.subrange(from as int, to as int)) <= u64::MAX {
            Some(decimal_value(v@.subrange(from as int, to as int)) as u64)
        } else {
            None
        }),
{
    let ghost s = v@.subrange(from as int, to as int);
    let mut acc: u64 = 0;
    let mut i = from;
    while i < to
        invariant
            from <= i <= to <= v@.len(),
            s == v@.subrange(from as int, to as int),
            all_digits(s),
            acc as nat == decimal_value(s.take(i - from)),
        decreases to - i,
    {
        assert(is_digit(s[i - from]));
        assert(s[i - from] == v@[i as int]);
        let d: u64 = (v[i] as u32 - 48u32) as u64;
        proof {
            assert(s.take(i + 1 - from).drop_last() =~= s.take(i - from));
        }
        if acc > (u64::MAX - d) / 10 {
            proof {
                lemma_decimal_value_prefix(s, i + 1 - from);
            }
            return None;
        }
        acc = acc * 10 + d;
        i = i + 1;
    }
    proof {
        assert(s.take(to - from) =~= s);
    }
    Some(acc)
}

/// Collects characters into a string (std's `FromIterator<char> for String`):
/// the string holds exactly those characters, in order.
#[verifier::external_body]
pub(crate) fn string_from_chars(v: &Vec<char>) -> (s: String)
    ensures
        s@ == v@,
{
    v.iter().collect()
}

/// A string holding the single character `/`.
pub fn root_string() -> (s: String)
    ensures
        s@ == root_ns(),
{
    let mut v: Vec<char> = Vec::new();
    v.push('/');
    proof {
        assert(v@ =~= root_ns());
    }
    string_from_chars(&v)
}

/// Whether `s` is exactly `/`.
pub fn is_root(s: &str) -> (b: bool)
    ensures
        b == (s@ == root_ns()),
{
    let v = chars_of(s);
    let b = v.len() == 1 && v[0] == '/';
    proof {
        if b {
            assert(v@ =~= root_ns());
        }
    }
    b
}

} // verus!
