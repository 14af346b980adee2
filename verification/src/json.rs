//! JSON rendering of an [`crate::classify::ErrorResponse`] and the strict
//! parser that inverts it.
//!
//! The body schema is fixed: `{"status_code":<number>,"message":"<text>"}`.
//! The encoder escapes quotes, backslashes, and control characters; the
//! parser accepts the encoder's shape, with any canonical two-hex-digit
//! `\u00..` escape in the message, so that a serialized response parses
//! back to a structurally identical record.

use crate::classify::{classify, spec_message, spec_status_code, ErrorResponse, FailureReason};
use vstd::prelude::*;
use vstd::string::StringExecFns;
use vstd::string::StrSliceExecFns;

verus! {

/// Relies on `String::push`, which the standard library documents as
/// appending the given character to the end of the string.
pub assume_specification[ String::push ](s: &mut String, c: char)
    ensures
        final(s)@ == old(s)@.push(c),
;

/// Whether `c` is a decimal digit.
pub open spec fn is_digit_char(c: char) -> bool {
    48 <= c as u32 && c as u32 <= 57
}

/// The numeric value of a decimal digit.
pub open spec fn digit_val(c: char) -> nat {
    (c as u32 - 48) as nat
}

/// The decimal digit with value `d`.
pub open spec fn digit_char(d: nat) -> char {
    (48 + d) as char
}

/// The lower-case hexadecimal digit with value `d`.
pub open spec fn hex_digit_char(d: nat) -> char {
    if d < 10 {
        (48 + d) as char
    } else {
        (87 + d) as char
    }
}

/// Whether `c` is a lower-case hexadecimal digit.
pub open spec fn is_hex_digit_char(c: char) -> bool {
    (48 <= c as u32 && c as u32 <= 57) || (97 <= c as u32 && c as u32 <= 102)
}

/// The numeric value of a lower-case hexadecimal digit.
pub open spec fn hex_val(c: char) -> nat {
    if 48 <= c as u32 && c as u32 <= 57 {
        (c as u32 - 48) as nat
    } else {
        (c as u32 - 87) as nat
    }
}

/// The decimal rendering of `n`, most significant digit first, no leading
/// zeros (`0` renders as `"0"`).
pub open spec fn dec_seq(n: nat) -> Seq<char>
    decreases n,
{
    if n < 10 {
        seq![digit_char(n)]
    } else {
        dec_seq(n / 10).push(digit_char(n % 10))
    }
}

/// The JSON escape of one character: quote and backslash get a two-character
/// escape, control characters a `\u00..` escape, everything else stands as
/// itself.
pub open spec fn escape_char(c: char) -> Seq<char> {
    if c == '"' {
        seq!['\\', '"']
    } else if c == '\\' {
        seq!['\\', '\\']
    } else if (c as u32) < 32 {
        seq![
            '\\',
            'u',
            '0',
            '0',
            hex_digit_char(((c as u32) / 16) as nat),
            hex_digit_char(((c as u32) % 16) as nat),
        ]
    } else {
        seq![c]
    }
}

/// The JSON escape of a whole string.
pub open spec fn escape_seq(s: Seq<char>) -> Seq<char>
    decreases s.len(),
{
    if s.len() == 0 {
        Seq::<char>::empty()
    } else {
        escape_char(s[0]) + escape_seq(s.drop_first())
    }
}

/// The JSON text for a response with status `status` and message `message`.
pub open spec fn spec_encode(status: u16, message: Seq<char>) -> Seq<char> {
    "{\"status_code\":"@ + dec_seq(status as nat) + ",\"message\":\""@ + escape_seq(message)
        + "\"}"@
}

/// Consumes the leading run of decimal digits of `s`, folding them onto the
/// accumulator `acc`, and returns the folded value with the rest of `s`.
pub open spec fn parse_digits(s: Seq<char>, acc: nat) -> (nat, Seq<char>)
    decreases s.len(),
{
    if s.len() > 0 && is_digit_char(s[0]) {
        parse_digits(s.drop_first(), acc * 10 + digit_val(s[0]))
    } else {
        (acc, s)
    }
}

/// Reads an escaped string body up to and including its closing quote, and
/// returns the unescaped text with the rest of the input.
pub open spec fn parse_string_body(s: Seq<char>) -> Option<(Seq<char>, Seq<char>)>
    decreases s.len(),
{
    if s.len() == 0 {
        None
    } else if s[0] == '"' {
        Some((Seq::<char>::empty(), s.drop_first()))
    } else if s[0] == '\\' {
        if s.len() >= 2 && (s[1] == '"' || s[1] == '\\') {
            match parse_string_body(s.skip(2)) {
                Some(p) => Some((seq![s[1]] + p.0, p.1)),
                None => None,
            }
        } else if s.len() >= 6 && s[1] == 'u' && s[2] == '0' && s[3] == '0' && is_hex_digit_char(
            s[4],
        ) && is_hex_digit_char(s[5]) {
            match parse_string_body(s.skip(6)) {
                Some(p) => Some(
                    (seq![((hex_val(s[4]) * 16 + hex_val(s[5])) as u32) as char] + p.0, p.1),
                ),
                None => None,
            }
        } else {
            None
        }
    } else {
        match parse_string_body(s.drop_first()) {
            Some(p) => Some((seq![s[0]] + p.0, p.1)),
            None => None,
        }
    }
}

/// The strict parse of a whole response body: `None` unless `s` has exactly
/// the encoder's shape, else the status value and the unescaped message.
pub open spec fn spec_parse(s: Seq<char>) -> Option<(u16, Seq<char>)> {
    let pre = "{\"status_code\":"@;
    let mid = ",\"message\":\""@;
    if s.len() < pre.len() || s.take(pre.len() as int) != pre {
        None
    } else {
        let t = s.skip(pre.len() as int);
        if t.len() == 0 || !is_digit_char(t[0]) {
            None
        } else {
            let vr = parse_digits(t, 0);
            if vr.0 > 65535 {
                None
            } else if vr.1.len() < mid.len() || vr.1.take(mid.len() as int) != mid {
                None
            } else {
                match parse_string_body(vr.1.skip(mid.len() as int)) {
                    Some(p) => if p.1 == seq!['}'] {
                        Some((vr.0 as u16, p.0))
                    } else {
                        None
                    },
                    None => None,
                }
            }
        }
    }
}

/// The value of a run of decimal digits folded left onto `acc`.
spec fn seq_val(digits: Seq<char>, acc: nat) -> nat
    decreases digits.len(),
{
    if digits.len() == 0 {
        acc
    } else {
        seq_val(digits.drop_first(), acc * 10 + digit_val(digits[0]))
    }
}

/// A decimal digit character holds its own value.
proof fn lemma_digit_char(d: nat)
    requires
        d < 10,
    ensures
        is_digit_char(digit_char(d)),
        digit_val(digit_char(d)) == d,
{
}

/// A decimal rendering is never empty and holds digits alone.
proof fn lemma_dec_seq_wf(n: nat)
    ensures
        dec_seq(n).len() >= 1,
        forall|i: int| 0 <= i < dec_seq(n).len() ==> is_digit_char(#[trigger] dec_seq(n)[i]),
    decreases n,
{
    if n < 10 {
        lemma_digit_char(n);
    } else {
        lemma_dec_seq_wf(n / 10);
        lemma_digit_char(n % 10);
    }
}

/// Folding one more digit onto a run multiplies the run's value by ten and
/// adds the digit.
proof fn lemma_seq_val_push(digits: Seq<char>, c: char, acc: nat)
    ensures
        seq_val(digits.push(c), acc) == seq_val(digits, acc) * 10 + digit_val(c),
    decreases digits.len(),
{
    if digits.len() == 0 {
        let one = digits.push(c);
        assert(one[0] == c);
        assert(one.drop_first() =~= Seq::<char>::empty());
        assert(seq_val(one.drop_first(), acc * 10 + digit_val(c)) == acc * 10 + digit_val(c));
    } else {
        assert(digits.push(c)[0] == digits[0]);
        assert(digits.push(c).drop_first() =~= digits.drop_first().push(c));
        lemma_seq_val_push(digits.drop_first(), c, acc * 10 + digit_val(digits[0]));
    }
}

/// Parsing a digit run followed by anything folds exactly that run, then
/// goes on with the rest.
proof fn lemma_parse_digits_append(digits: Seq<char>, rest: Seq<char>, acc: nat)
    requires
        forall|i: int| 0 <= i < digits.len() ==> is_digit_char(#[trigger] digits[i]),
    ensures
        parse_digits(digits + rest, acc) == parse_digits(rest, seq_val(digits, acc)),
    decreases digits.len(),
{
    if digits.len() == 0 {
        assert(digits + rest =~= rest);
    } else {
        assert((digits + rest)[0] == digits[0]);
        assert((digits + rest).drop_first() =~= digits.drop_first() + rest);
        lemma_parse_digits_append(digits.drop_first(), rest, acc * 10 + digit_val(digits[0]));
    }
}

/// The parsed value of a run never falls below the accumulator it started
/// from.
proof fn lemma_parse_digits_ge(s: Seq<char>, acc: nat)
    ensures
        parse_digits(s, acc).0 >= acc,
    decreases s.len(),
{
    if s.len() > 0 && is_digit_char(s[0]) {
        lemma_parse_digits_ge(s.drop_first(), acc * 10 + digit_val(s[0]));
    }
}

/// The decimal rendering of `n` folds back to `n`.
proof fn lemma_dec_seq_val(n: nat)
    ensures
        seq_val(dec_seq(n), 0) == n,
    decreases n,
{
    if n < 10 {
        lemma_digit_char(n);
        let s = seq![digit_char(n)];
        assert(s[0] == digit_char(n));
        assert(s.drop_first() =~= Seq::<char>::empty());
        assert(seq_val(s.drop_first(), digit_val(digit_char(n))) == digit_val(digit_char(n)));
        assert(seq_val(s, 0) == digit_val(digit_char(n)));
    } else {
        lemma_dec_seq_val(n / 10);
        lemma_digit_char(n % 10);
        lemma_seq_val_push(dec_seq(n / 10), digit_char(n % 10), 0);
    }
}

/// A lower-case hexadecimal digit character holds its own value.
proof fn lemma_hex_digit_char(d: nat)
    requires
        d < 16,
    ensures
        is_hex_digit_char(hex_digit_char(d)),
        hex_val(hex_digit_char(d)) == d,
{
}

/// Escaping one more character appends that character's escape.
proof fn lemma_escape_snoc(s: Seq<char>, c: char)
    ensures
        escape_seq(s.push(c)) == escape_seq(s) + escape_char(c),
    decreases s.len(),
{
    if s.len() == 0 {
        let one = s.push(c);
        assert(one[0] == c);
        assert(one.drop_first() =~= Seq::<char>::empty());
        assert(escape_seq(one.drop_first()) =~= Seq::<char>::empty());
        assert(escape_seq(one) =~= escape_char(c));
        assert(escape_seq(s) + escape_char(c) =~= escape_char(c));
    } else {
        assert(s.push(c)[0] == s[0]);
        assert(s.push(c).drop_first() =~= s.drop_first().push(c));
        lemma_escape_snoc(s.drop_first(), c);
        assert(escape_char(s[0]) + (escape_seq(s.drop_first()) + escape_char(c)) =~= (escape_char(
            s[0],
        ) + escape_seq(s.drop_first())) + escape_char(c));
    }
}

/// Reading an escaped text followed by a closing quote yields exactly that
/// text back, with the input past the quote left over.
proof fn lemma_parse_string_escape(m: Seq<char>, rest: Seq<char>)
    ensures
        parse_string_body(escape_seq(m) + seq!['"'] + rest) == Some((m, rest)),
    decreases m.len(),
{
    let s = escape_seq(m) + seq!['"'] + rest;
    if m.len() == 0 {
        assert(escape_seq(m) =~= Seq::<char>::empty());
        assert(s[0] == '"');
        assert(s.drop_first() =~= rest);
        assert(parse_string_body(s) == Some((Seq::<char>::empty(), rest)));
        assert(m =~= Seq::<char>::empty());
    } else {
        let c = m[0];
        let m2 = m.drop_first();
        lemma_parse_string_escape(m2, rest);
        let t = escape_seq(m2) + seq!['"'] + rest;
        assert(escape_seq(m) =~= escape_char(c) + escape_seq(m2));
        assert(s =~= escape_char(c) + t);
        if c == '"' {
            assert(s[0] == '\\' && s[1] == '"');
            assert(s.skip(2) =~= t);
            assert(seq![s[1]] + m2 =~= m);
        } else if c == '\\' {
            assert(s[0] == '\\' && s[1] == '\\');
            assert(s.skip(2) =~= t);
            assert(seq![s[1]] + m2 =~= m);
        } else if (c as u32) < 32 {
            let hi = ((c as u32) / 16) as nat;
            let lo = ((c as u32) % 16) as nat;
            lemma_hex_digit_char(hi);
            lemma_hex_digit_char(lo);
            assert(s[0] == '\\' && s[1] == 'u' && s[2] == '0' && s[3] == '0');
            assert(s[4] == hex_digit_char(hi) && s[5] == hex_digit_char(lo));
            assert(s.skip(6) =~= t);
            assert(hex_val(s[4]) * 16 + hex_val(s[5]) == c as u32) by {
                assert(hi * 16 + lo == c as u32);
            }
            assert(((hex_val(s[4]) * 16 + hex_val(s[5])) as u32) == c as u32);
            vstd::utf8::char_u32_cast(c, c as u32);
            assert(((hex_val(s[4]) * 16 + hex_val(s[5])) as u32) as char == c);
            assert(seq![((hex_val(s[4]) * 16 + hex_val(s[5])) as u32) as char] + m2 =~= m);
        } else {
            assert(s[0] == c);
            assert(s[0] != '"' && s[0] != '\\');
            assert(s.drop_first() =~= t);
            assert(seq![s[0]] + m2 =~= m);
        }
    }
}

/// The lower-case hexadecimal digit character with value `v`.
fn hex_char_of(v: u32) -> (c: char)
    requires
        v < 16,
    ensures
        c == hex_digit_char(v as nat),
{
    if v < 10 {
        (48 + v as u8) as char
    } else {
        (87 + v as u8) as char
    }
}

/// Appends the decimal rendering of `n` to `out`.
fn push_decimal(out: &mut String, n: u16)
    ensures
        final(out)@ == old(out)@ + dec_seq(n as nat),
    decreases n,
{
    if n >= 10 {
        push_decimal(out, n / 10);
    }
    let d: u8 = (n % 10) as u8;
    out.push((48 + d) as char);
    proof {
        assert((48 + d) as char == digit_char((n % 10) as nat));
        if n < 10 {
            assert(old(out)@.push(digit_char(n as nat)) =~= old(out)@ + dec_seq(n as nat));
        } else {
            assert((old(out)@ + dec_seq((n / 10) as nat)).push(digit_char((n % 10) as nat)) =~= old(
                out,
            )@ + dec_seq((n / 10) as nat).push(digit_char((n % 10) as nat)));
            assert(dec_seq(n as nat) == dec_seq((n as nat) / 10).push(digit_char((n as nat) % 10)));
        }
    }
}

/// Appends the JSON escape of `text` to `out`.
fn push_escaped(out: &mut String, text: &str)
    ensures
        final(out)@ == old(out)@ + escape_seq(text@),
{
    let n = text.unicode_len();
    let mut i: usize = 0;
    while i < n
        invariant
            i <= n,
            n == text@.len(),
            out@ == old(out)@ + escape_seq(text@.take(i as int)),
        decreases n - i,
    {
        let c = text.get_char(i);
        proof {
            lemma_escape_snoc(text@.take(i as int), c);
            assert(text@.take(i as int).push(c) =~= text@.take(i as int + 1));
        }
        let ghost before = out@;
        let u = c as u32;
        if c == '"' {
            out.push('\\');
            out.push('"');
            proof {
                assert(out@ =~= before + escape_char(c));
            }
        } else if c == '\\' {
            out.push('\\');
            out.push('\\');
            proof {
                assert(out@ =~= before + escape_char(c));
            }
        } else if u < 32 {
            out.push('\\');
            out.push('u');
            out.push('0');
            out.push('0');
            out.push(hex_char_of(u / 16));
            out.push(hex_char_of(u % 16));
            proof {
                assert(out@ =~= before + escape_char(c));
            }
        } else {
            out.push(c);
            proof {
                assert(escape_char(c) == seq![c]);
                assert(out@ =~= before + escape_char(c));
            }
        }
        proof {
            assert(out@ =~= old(out)@ + escape_seq(text@.take(i as int + 1)));
        }
        i += 1;
    }
    proof {
        assert(text@.take(n as int) =~= text@);
    }
}

/// Renders a response as JSON text: exactly the encoder's fixed shape, with
/// the message escaped.
pub fn to_json(response: &ErrorResponse) -> (r: String)
    ensures
        r@ == spec_encode(response.status_code, response.message@),
{
    let mut out = String::from_str("{\"status_code\":");
    push_decimal(&mut out, response.status_code);
    out.append(",\"message\":\"");
    push_escaped(&mut out, response.message.as_str());
    out.append("\"}");
    proof {
        assert(out@ =~= spec_encode(response.status_code, response.message@));
    }
    out
}

/// Builds the outward pieces of an HTTP error reply in one step: the status
/// line's code and the JSON body text, as the response boundary writes them.
pub fn error_response(reason: FailureReason) -> (r: (u16, String))
    ensures
        r.0 == spec_status_code(reason),
        r.1@ == spec_encode(spec_status_code(reason), spec_message(reason)),
{
    let (code, body) = classify(reason);
    let text = to_json(&body);
    (code, text)
}

/// Round trip: the encoding of any status and message parses back to
/// exactly that status and that message.
pub proof fn lemma_round_trip(status: u16, message: Seq<char>)
    ensures
        spec_parse(spec_encode(status, message)) == Some((status, message)),
{
    reveal_strlit("{\"status_code\":");
    reveal_strlit(",\"message\":\"");
    reveal_strlit("\"}");
    let pre = "{\"status_code\":"@;
    let mid = ",\"message\":\""@;
    let tail = "\"}"@;
    let dd = dec_seq(status as nat);
    let esc = escape_seq(message);
    let s = spec_encode(status, message);
    lemma_dec_seq_wf(status as nat);
    assert(s =~= pre + dd + (mid + esc + tail));
    assert(s.len() >= pre.len());
    assert(s.take(pre.len() as int) =~= pre);
    let t = s.skip(pre.len() as int);
    let r1 = mid + esc + tail;
    assert(t =~= dd + r1);
    assert(t[0] == dd[0]);
    assert(is_digit_char(t[0]));
    lemma_parse_digits_append(dd, r1, 0);
    lemma_dec_seq_val(status as nat);
    assert(r1[0] == mid[0]);
    assert(mid[0] == ',');
    assert(!is_digit_char(','));
    assert(parse_digits(r1, status as nat) == ((status as nat), r1));
    assert(parse_digits(t, 0) == ((status as nat), r1));
    assert((status as nat) <= 65535);
    assert(r1.len() >= mid.len());
    assert(r1.take(mid.len() as int) =~= mid);
    let t3 = r1.skip(mid.len() as int);
    assert(tail =~= seq!['"'] + seq!['}']);
    assert(t3 =~= esc + seq!['"'] + seq!['}']);
    lemma_parse_string_escape(message, seq!['}']);
    assert(parse_string_body(t3) == Some((message, seq!['}'])));
    assert((status as nat) as u16 == status);
    assert(spec_parse(s) == Some((status, message)));
}

/// Whether the characters of `lit` stand in `s` starting at position `i`.
fn matches_at(s: &str, i: usize, lit: &str) -> (b: bool)
    requires
        i <= s@.len(),
    ensures
        b <==> (i + lit@.len() <= s@.len() && s@.subrange(i as int, i as int + lit@.len()) == lit@),
{
    let n = s.unicode_len();
    let m = lit.unicode_len();
    if m > n - i {
        return false;
    }
    let mut j: usize = 0;
    while j < m
        invariant
            j <= m,
            i + m <= n,
            n == s@.len(),
            m == lit@.len(),
            forall|k: int| 0 <= k < j ==> s@[i + k] == lit@[k],
        decreases m - j,
    {
        if s.get_char(i + j) != lit.get_char(j) {
            proof {
                assert(s@.subrange(i as int, i as int + m as int)[j as int] == s@[i + j]);
            }
            return false;
        }
        j += 1;
    }
    proof {
        assert(s@.subrange(i as int, i as int + m as int) =~= lit@);
    }
    true
}

/// Folds the run of decimal digits of `s` that starts at `j` onto `acc`,
/// rejecting any value that leaves sixteen bits.
fn scan_digits(s: &str, j: usize, acc: u32) -> (r: Option<(u32, usize)>)
    requires
        j <= s@.len(),
        acc <= 65535,
    ensures
        match r {
            Some(p) => {
                &&& parse_digits(s@.skip(j as int), acc as nat) == (
                    (p.0 as nat),
                    s@.skip(p.1 as int),
                )
                &&& p.0 <= 65535
                &&& j <= p.1 <= s@.len()
            },
            None => parse_digits(s@.skip(j as int), acc as nat).0 > 65535,
        },
    decreases s@.len() - j,
{
    let n = s.unicode_len();
    if j == n {
        proof {
            assert(s@.skip(j as int).len() == 0);
        }
        return Some((acc, j));
    }
    let c = s.get_char(j);
    let u = c as u32;
    proof {
        assert(s@.skip(j as int)[0] == c);
        assert(s@.skip(j as int).drop_first() =~= s@.skip(j as int + 1));
    }
    if 48 <= u && u <= 57 {
        let d = u - 48;
        let next = acc * 10 + d;
        proof {
            assert(is_digit_char(c));
            assert(digit_val(c) == d as nat);
            assert(parse_digits(s@.skip(j as int), acc as nat) == parse_digits(
                s@.skip(j as int + 1),
                (acc as nat) * 10 + digit_val(c),
            ));
        }
        if next > 65535 {
            proof {
                lemma_parse_digits_ge(s@.skip(j as int + 1), next as nat);
            }
            return None;
        }
        scan_digits(s, j + 1, next)
    } else {
        proof {
            assert(!is_digit_char(c));
        }
        Some((acc, j))
    }
}

/// Reads an escaped string body from position `start` up to and including
/// its closing quote; yields the unescaped text and the position after the
/// quote.
fn scan_string(s: &str, start: usize) -> (r: Option<(String, usize)>)
    requires
        start <= s@.len(),
    ensures
        match r {
            Some(p) => {
                &&& parse_string_body(s@.skip(start as int)) == Some(
                    (p.0@, s@.skip(p.1 as int)),
                )
                &&& start < p.1 <= s@.len()
            },
            None => parse_string_body(s@.skip(start as int)) is None,
        },
    decreases s@.len() - start,
{
    let n = s.unicode_len();
    if start == n {
        proof {
            assert(s@.skip(start as int).len() == 0);
        }
        return None;
    }
    let c = s.get_char(start);
    proof {
        assert(s@.skip(start as int)[0] == c);
        assert(s@.skip(start as int).drop_first() =~= s@.skip(start as int + 1));
    }
    if c == '"' {
        return Some((String::new(), start + 1));
    }
    if c == '\\' {
        if n - start < 2 {
            proof {
                assert(s@.skip(start as int).len() < 2);
            }
            return None;
        }
        let e = s.get_char(start + 1);
        proof {
            assert(s@.skip(start as int)[1] == e);
        }
        if e == '"' || e == '\\' {
            proof {
                assert(s@.skip(start as int).skip(2) =~= s@.skip(start as int + 2));
            }
            match scan_string(s, start + 2) {
                Some(p) => {
                    let mut out = String::new();
                    out.push(e);
                    out.append(p.0.as_str());
                    proof {
                        assert(out@ =~= seq![e] + p.0@);
                    }
                    Some((out, p.1))
                },
                None => None,
            }
        } else if e == 'u' {
            if n - start < 6 {
                proof {
                    assert(s@.skip(start as int).len() < 6);
                }
                return None;
            }
            proof {
                assert(s@.skip(start as int)[2] == s@[start as int + 2]);
                assert(s@.skip(start as int)[3] == s@[start as int + 3]);
                assert(s@.skip(start as int)[4] == s@[start as int + 4]);
                assert(s@.skip(start as int)[5] == s@[start as int + 5]);
            }
            if s.get_char(start + 2) != '0' || s.get_char(start + 3) != '0' {
                return None;
            }
            let h1 = s.get_char(start + 4);
            let h2 = s.get_char(start + 5);
            let u1 = h1 as u32;
            let u2 = h2 as u32;
            let v1 = if 48 <= u1 && u1 <= 57 {
                u1 - 48
            } else if 97 <= u1 && u1 <= 102 {
                u1 - 87
            } else {
                return None;
            };
            proof {
                assert(is_hex_digit_char(h1) && hex_val(h1) == v1 as nat);
            }
            let v2 = if 48 <= u2 && u2 <= 57 {
                u2 - 48
            } else if 97 <= u2 && u2 <= 102 {
                u2 - 87
            } else {
                return None;
            };
            proof {
                assert(is_hex_digit_char(h2) && hex_val(h2) == v2 as nat);
                assert(s@.skip(start as int).skip(6) =~= s@.skip(start as int + 6));
            }
            let v = v1 * 16 + v2;
            match scan_string(s, start + 6) {
                Some(p) => {
                    let mut out = String::new();
                    out.push((v as u8) as char);
                    out.append(p.0.as_str());
                    proof {
                        assert((v as u8) as char == ((hex_val(s@.skip(start as int)[4]) * 16
                            + hex_val(s@.skip(start as int)[5])) as u32) as char);
                        assert(out@ =~= seq![
                            ((hex_val(s@.skip(start as int)[4]) * 16 + hex_val(
                                s@.skip(start as int)[5],
                            )) as u32) as char,
                        ] + p.0@);
                    }
                    Some((out, p.1))
                },
                None => None,
            }
        } else {
            proof {
                assert(parse_string_body(s@.skip(start as int)) is None);
            }
            None
        }
    } else {
        match scan_string(s, start + 1) {
            Some(p) => {
                let mut out = String::new();
                out.push(c);
                out.append(p.0.as_str());
                proof {
                    assert(out@ =~= seq![c] + p.0@);
                }
                Some((out, p.1))
            },
            None => None,
        }
    }
}

/// Parses a JSON error body of exactly the encoder's shape back into a
/// response record; any other input is rejected.
pub fn parse_json(s: &str) -> (r: Option<ErrorResponse>)
    ensures
        match r {
            Some(response) => spec_parse(s@) == Some(
                (response.status_code, response.message@),
            ),
            None => spec_parse(s@) is None,
        },
{
    let pre = "{\"status_code\":";
    let mid = ",\"message\":\"";
    let n = s.unicode_len();
    let pre_len = pre.unicode_len();
    if !matches_at(s, 0, pre) {
        proof {
            if s@.len() >= pre@.len() {
                assert(s@.subrange(0, pre@.len() as int) =~= s@.take(pre@.len() as int));
            }
        }
        return None;
    }
    proof {
        assert(s@.subrange(0, pre@.len() as int) =~= s@.take(pre@.len() as int));
    }
    if pre_len == n {
        proof {
            assert(s@.skip(pre_len as int).len() == 0);
        }
        return None;
    }
    let c0 = s.get_char(pre_len);
    let u0 = c0 as u32;
    proof {
        assert(s@.skip(pre_len as int)[0] == c0);
    }
    if !(48 <= u0 && u0 <= 57) {
        proof {
            assert(!is_digit_char(s@.skip(pre_len as int)[0]));
        }
        return None;
    }
    match scan_digits(s, pre_len, 0) {
        None => None,
        Some(vp) => {
            let value = vp.0;
            let j = vp.1;
            if !matches_at(s, j, mid) {
                proof {
                    if j as int + mid@.len() <= s@.len() {
                        assert(s@.skip(j as int).take(mid@.len() as int) =~= s@.subrange(
                            j as int,
                            j as int + mid@.len(),
                        ));
                    }
                    assert(s@.skip(j as int).len() == s@.len() - j);
                }
                return None;
            }
            let mid_len = mid.unicode_len();
            proof {
                assert(s@.skip(j as int).take(mid@.len() as int) =~= s@.subrange(
                    j as int,
                    j as int + mid@.len(),
                ));
                assert(s@.skip(j as int).skip(mid@.len() as int) =~= s@.skip(
                    j as int + mid@.len(),
                ));
            }
            match scan_string(s, j + mid_len) {
                None => None,
                Some(p) => {
                    let end = p.1;
                    if end < n && s.get_char(end) == '}' && end + 1 == n {
                        proof {
                            assert(s@.skip(end as int)[0] == '}');
                            assert(s@.skip(end as int) =~= seq!['}']);
                        }
                        Some(ErrorResponse::new(value as u16, p.0))
                    } else {
                        proof {
                            if end == n {
                                assert(s@.skip(end as int).len() == 0);
                                assert(s@.skip(end as int) != seq!['}']);
                            } else if s@.skip(end as int)[0] != '}' {
                                assert(s@.skip(end as int) != seq!['}']);
                            } else {
                                assert(s@.skip(end as int).len() >= 2);
                                assert(s@.skip(end as int) != seq!['}']);
                            }
                        }
                        None
                    }
                },
            }
        },
    }
}

} // verus!
