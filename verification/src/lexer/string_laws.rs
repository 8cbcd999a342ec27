//! What holds of every decoding of a string literal's text.
use vstd::prelude::*;
use crate::text::{utf8_len, byte_offset, lemma_byte_offset_bound, lemma_byte_offset_end, lemma_byte_offset_step, lemma_byte_offset_concat, lemma_byte_offset_mono, lemma_utf8_len_concat};
use crate::token::ByteIndex;
use crate::numeral::{digit_value, digits_value, unsigned_value};
use crate::text::lemma_utf8_len_ascii;
use super::string_parser::{State, escape_value, string_run, string_value, lemma_string_run_wf};

verus! {

/// Text in which no brace occurs.
pub open spec fn has_no_braces(s: Seq<char>) -> bool {
    forall|k: int| 0 <= k < s.len() ==> #[trigger] s[k] != '{' && s[k] != '}'
}

/// Text without braces decodes to itself.
pub proof fn law_text_without_braces_is_unchanged(s: Seq<char>)
    requires
        has_no_braces(s),
    ensures
        string_value(s) == Ok::<Seq<char>, (ByteIndex, ByteIndex)>(s),
{
    lemma_plain_run(s, s.len() as int);
    assert(s.take(s.len() as int) =~= s);
}

proof fn lemma_plain_run(s: Seq<char>, n: int)
    requires
        has_no_braces(s),
        0 <= n <= s.len(),
    ensures
        string_run(s, n) == Ok::<(State, Seq<char>), (ByteIndex, ByteIndex)>((State::Main, s.take(n))),
    decreases n,
{
    if n > 0 {
        lemma_plain_run(s, n - 1);
        assert(s.take(n - 1).push(s[n - 1]) =~= s.take(n));
    } else {
        assert(s.take(0) =~= Seq::<char>::empty());
    }
}

/// `(a, b)` spans the text between the braces of the escape whose `{` is
/// at `j` and whose `}` is at `k`, and that escape is not valid.
pub open spec fn is_invalid_escape(s: Seq<char>, j: int, k: int, a: ByteIndex, b: ByteIndex) -> bool {
    &&& 0 <= j < k < s.len()
    &&& s[j] == '{'
    &&& s[k] == '}'
    &&& (forall|m: int| j < m < k ==> #[trigger] s[m] != '}')
    &&& escape_value(s.subrange(j + 1, k)) is None
    &&& a.0 == byte_offset(s, j + 1)
    &&& b.0 == byte_offset(s, k)
}

/// `(a, b)` spans an escape from its `{` at `j` to the end of the text,
/// with no `}` after it.
pub open spec fn is_unterminated_escape(s: Seq<char>, j: int, a: ByteIndex, b: ByteIndex) -> bool {
    &&& 0 <= j < s.len()
    &&& s[j] == '{'
    &&& (forall|m: int| j < m < s.len() ==> #[trigger] s[m] != '}')
    &&& a.0 == byte_offset(s, j)
    &&& b.0 == utf8_len(s)
}

/// `(a, b)` spans a `}` at `j` that closes no escape.
pub open spec fn is_unmatched_close(s: Seq<char>, j: int, a: ByteIndex, b: ByteIndex) -> bool {
    &&& 0 <= j < s.len()
    &&& s[j] == '}'
    &&& a.0 == byte_offset(s, j)
    &&& b.0 == byte_offset(s, j) + 1
}

/// Every error of the decoder names an invalid escape without its braces,
/// an unterminated escape from its `{` to the end, or a stray `}`; the
/// result gives the index of that `{` or `}` (and of the closing `}` of an
/// invalid escape).
pub proof fn law_error_spans(s: Seq<char>) -> (w: (int, int))
    requires
        utf8_len(s) <= usize::MAX,
    ensures
        string_value(s) matches Err((a, b)) ==> {
            ||| is_invalid_escape(s, w.0, w.1, a, b)
            ||| is_unterminated_escape(s, w.0, a, b)
            ||| is_unmatched_close(s, w.0, a, b)
        },
{
    let n = s.len() as int;
    let w = lemma_run_error_spans(s, n);
    lemma_string_run_wf(s, n);
    lemma_byte_offset_end(s);
    if let Ok((State::Escape { start, at }, _)) = string_run(s, n) {
        lemma_byte_offset_bound(s, at as int);
        (at as int, 0)
    } else {
        w
    }
}

proof fn lemma_run_error_spans(s: Seq<char>, n: int) -> (w: (int, int))
    requires
        utf8_len(s) <= usize::MAX,
        0 <= n <= s.len(),
    ensures
        string_run(s, n) matches Err((a, b)) ==> {
            ||| is_invalid_escape(s, w.0, w.1, a, b)
            ||| is_unmatched_close(s, w.0, a, b)
        },
    decreases n,
{
    if n == 0 {
        return (0, 0);
    }
    let i = n - 1;
    let w = lemma_run_error_spans(s, i);
    lemma_string_run_wf(s, i);
    lemma_byte_offset_bound(s, n);
    lemma_byte_offset_bound(s, 0);
    lemma_byte_offset_step(s, i);
    if let Ok((st, out)) = string_run(s, i) {
        match st {
            State::Main => (i, 0),
            State::Escape { start, at } => {
                lemma_byte_offset_step(s, at as int);
                lemma_byte_offset_bound(s, at + 1);
                (at as int, i)
            },
        }
    } else {
        w
    }
}

/// A state of the decoder of `y`, seen as a state of the decoder of a text
/// that has `chars` characters (`bytes` bytes) before `y`.
pub open spec fn shift_state(st: State, chars: int, bytes: nat) -> State {
    match st {
        State::Main => State::Main,
        State::Escape { start, at } => State::Escape {
            start: ByteIndex((start.0 + bytes) as usize),
            at: (at + chars) as usize,
        },
    }
}

/// A span in `y`, seen as a span in a text with `bytes` bytes before `y`.
pub open spec fn shift_span(e: (ByteIndex, ByteIndex), bytes: nat) -> (ByteIndex, ByteIndex) {
    (ByteIndex((e.0.0 + bytes) as usize), ByteIndex((e.1.0 + bytes) as usize))
}

/// The decoder reads a prefix of a text as it reads that prefix alone.
proof fn lemma_string_run_prefix(x: Seq<char>, y: Seq<char>, m: int)
    requires
        0 <= m <= x.len(),
        utf8_len(x + y) <= usize::MAX,
    ensures
        string_run(x + y, m) == string_run(x, m),
    decreases m,
{
    if m > 0 {
        let i = m - 1;
        lemma_string_run_prefix(x, y, i);
        lemma_utf8_len_concat(x, y);
        lemma_string_run_wf(x, i);
        assert((x + y).take(i) =~= x.take(i));
        assert((x + y)[i] == x[i]);
        if let Ok((State::Escape { start, at }, out)) = string_run(x, i) {
            assert((x + y).subrange(at + 1, i) =~= x.subrange(at + 1, i));
        }
    }
}

/// After a prefix `x` that it reads to the main state with text `u`, the
/// decoder reads `y` as it reads `y` alone, shifted.
#[verifier::spinoff_prover]
#[verifier::rlimit(40)]
proof fn lemma_string_run_suffix(x: Seq<char>, y: Seq<char>, u: Seq<char>, k: int)
    requires
        0 <= k <= y.len(),
        utf8_len(x + y) <= usize::MAX,
        string_run(x, x.len() as int) == Ok::<(State, Seq<char>), (ByteIndex, ByteIndex)>((State::Main, u)),
    ensures
        string_run(x + y, x.len() + k) == match string_run(y, k) {
            Ok((st, v)) => Ok::<(State, Seq<char>), (ByteIndex, ByteIndex)>(
                (shift_state(st, x.len() as int, utf8_len(x)), u + v),
            ),
            Err(e) => Err(shift_span(e, utf8_len(x))),
        },
    decreases k,
{
    lemma_utf8_len_concat(x, y);
    if k == 0 {
        lemma_string_run_prefix(x, y, x.len() as int);
        assert(u + Seq::<char>::empty() =~= u);
    } else {
        let i = k - 1;
        let g = x.len() + i;
        lemma_string_run_suffix(x, y, u, i);
        lemma_string_run_wf(y, i);
        lemma_byte_offset_concat(x, y, i);
        lemma_byte_offset_bound(y, k);
        lemma_byte_offset_step(y, i);
        assert((x + y)[g] == y[i]);
        lemma_byte_offset_bound(x + y, 0);
        lemma_byte_offset_bound(y, 0);
        if let Ok((st, v)) = string_run(y, i) {
            assert((u + v).push(y[i]) =~= u + v.push(y[i]));
            if let State::Escape { start, at } = st {
                lemma_byte_offset_mono(y, at as int, i);
                assert((x + y).subrange(at + x.len() + 1, g) =~= y.subrange(at + 1, i));
                if let Some(e) = escape_value(y.subrange(at + 1, i)) {
                    assert((u + v).push(e) =~= u + v.push(e));
                }
            }
        }
    }
}

/// Decoding two texts one after the other decodes each of them: if `x`
/// decodes to `u`, then `x + y` decodes to `u` followed by what `y`
/// decodes to, or fails where `y` fails, the span moved past `x`.
pub proof fn law_decoding_concatenates(x: Seq<char>, y: Seq<char>, u: Seq<char>)
    requires
        utf8_len(x + y) <= usize::MAX,
        string_value(x) == Ok::<Seq<char>, (ByteIndex, ByteIndex)>(u),
    ensures
        string_value(x + y) == match string_value(y) {
            Ok(v) => Ok::<Seq<char>, (ByteIndex, ByteIndex)>(u + v),
            Err(e) => Err(shift_span(e, utf8_len(x))),
        },
{
    lemma_string_run_suffix(x, y, u, y.len() as int);
    lemma_utf8_len_concat(x, y);
    assert((x + y).len() == x.len() + y.len());
}

/// The hexadecimal digits, upper case.
pub open spec fn hex_alphabet() -> Seq<char> {
    seq!['0', '1', '2', '3', '4', '5', '6', '7', '8', '9', 'A', 'B', 'C', 'D', 'E', 'F']
}

/// The hexadecimal numeral of `v`, without leading zeros.
pub open spec fn hex_digits(v: nat) -> Seq<char>
    decreases v,
{
    if v < 16 {
        seq![hex_alphabet()[v as int]]
    } else {
        hex_digits(v / 16).push(hex_alphabet()[(v % 16) as int])
    }
}

/// The escape `{0x<hex>}` that stands for `c`.
pub open spec fn escape_of(c: char) -> Seq<char> {
    seq!['{', '0', 'x'] + hex_digits(c as nat) + seq!['}']
}

/// `s` with every character written as its escape.
pub open spec fn escape_all(s: Seq<char>) -> Seq<char>
    decreases s.len(),
{
    if s.len() == 0 {
        Seq::empty()
    } else {
        escape_all(s.drop_last()) + escape_of(s.last())
    }
}

proof fn lemma_hex_alphabet(d: nat)
    requires
        d < 16,
    ensures
        digit_value(hex_alphabet()[d as int], 16) == Some(d),
        hex_alphabet()[d as int] != '}',
        hex_alphabet()[d as int] != '+',
        (hex_alphabet()[d as int] as u32) < 0x80,
{
    let h = hex_alphabet();
    if d == 0 { assert(h[0] == '0'); }
    else if d == 1 { assert(h[1] == '1'); }
    else if d == 2 { assert(h[2] == '2'); }
    else if d == 3 { assert(h[3] == '3'); }
    else if d == 4 { assert(h[4] == '4'); }
    else if d == 5 { assert(h[5] == '5'); }
    else if d == 6 { assert(h[6] == '6'); }
    else if d == 7 { assert(h[7] == '7'); }
    else if d == 8 { assert(h[8] == '8'); }
    else if d == 9 { assert(h[9] == '9'); }
    else if d == 10 { assert(h[10] == 'A'); }
    else if d == 11 { assert(h[11] == 'B'); }
    else if d == 12 { assert(h[12] == 'C'); }
    else if d == 13 { assert(h[13] == 'D'); }
    else if d == 14 { assert(h[14] == 'E'); }
    else { assert(h[15] == 'F'); }
}

/// A hexadecimal numeral reads back as its value; its digits are neither
/// `}` nor `+`, and take one byte each.
proof fn lemma_hex_digits(v: nat)
    ensures
        digits_value(hex_digits(v), 16) == Some(v),
        hex_digits(v).len() >= 1,
        forall|k: int| 0 <= k < hex_digits(v).len() ==> #[trigger] hex_digits(v)[k] != '}' && hex_digits(v)[k] != '+'
            && (hex_digits(v)[k] as u32) < 0x80,
    decreases v,
{
    if v < 16 {
        lemma_hex_alphabet(v);
    } else {
        lemma_hex_digits(v / 16);
        lemma_hex_alphabet(v % 16);
        let h = hex_digits(v);
        assert(h.drop_last() =~= hex_digits(v / 16));
        assert forall|k: int| 0 <= k < h.len() implies #[trigger] h[k] != '}' && h[k] != '+' && (h[k] as u32) < 0x80 by {
            if k < h.len() - 1 {
                assert(h[k] == hex_digits(v / 16)[k]);
            }
        }
    }
}

proof fn lemma_escape_run(c: char, n: int)
    requires
        1 <= n < escape_of(c).len(),
    ensures
        string_run(escape_of(c), n) == Ok::<(State, Seq<char>), (ByteIndex, ByteIndex)>(
            (State::Escape { start: ByteIndex(0), at: 0 }, Seq::empty()),
        ),
    decreases n,
{
    let e = escape_of(c);
    let h = hex_digits(c as nat);
    lemma_hex_digits(c as nat);
    assert(e.len() == h.len() + 4);
    if n > 1 {
        lemma_escape_run(c, n - 1);
        if n - 1 >= 3 {
            assert(e[n - 1] == h[n - 1 - 3]);
            assert(h[n - 1 - 3] != '}');
        } else if n - 1 == 1 {
            assert(e[1] == '0');
        } else {
            assert(e[2] == 'x');
        }
        assert(e[n - 1] != '}');
    } else {
        assert(e[0] == '{');
        assert(e.take(0) =~= Seq::<char>::empty());
        assert(utf8_len(e.take(0)) == 0);
    }
}

/// The text between the braces of the escape of `c` stands for `c`.
proof fn lemma_escape_body(c: char)
    ensures
        escape_value(escape_of(c).subrange(1, escape_of(c).len() - 1)) == Some(c),
{
    let e = escape_of(c);
    let h = hex_digits(c as nat);
    let v = c as nat;
    lemma_hex_digits(v);
    let body = e.subrange(1, e.len() - 1);
    assert(body =~= seq!['0', 'x'] + h);
    assert(body.skip(2) =~= h);
    assert forall|k: int| 0 <= k < body.len() implies (#[trigger] body[k] as u32) < 0x80 by {
        if k >= 2 {
            assert(body[k] == h[k - 2]);
        }
    }
    lemma_utf8_len_ascii(body);
    vstd::utf8::char_is_scalar(c);
    assert(h[0] != '+');
    assert(unsigned_value(h, 16, u32::MAX as nat) == Some(v));
    vstd::utf8::char_u32_cast(c, c as u32);
}

/// The escape of any character decodes to that character.
pub proof fn law_escape_decodes_to_its_char(c: char)
    ensures
        string_value(escape_of(c)) == Ok::<Seq<char>, (ByteIndex, ByteIndex)>(seq![c]),
{
    let e = escape_of(c);
    let last = e.len() - 1;
    lemma_hex_digits(c as nat);
    lemma_escape_run(c, last);
    lemma_escape_body(c);
    assert(e[last] == '}');
    assert(Seq::<char>::empty().push(c) =~= seq![c]);
}

/// Any text, written with every character as its escape, decodes back to
/// itself.
pub proof fn law_escaped_text_decodes_to_itself(s: Seq<char>)
    requires
        utf8_len(escape_all(s)) <= usize::MAX,
    ensures
        string_value(escape_all(s)) == Ok::<Seq<char>, (ByteIndex, ByteIndex)>(s),
    decreases s.len(),
{
    if s.len() == 0 {
        assert(string_run(Seq::<char>::empty(), 0) == Ok::<(State, Seq<char>), (ByteIndex, ByteIndex)>((State::Main, Seq::empty())));
        assert(Seq::<char>::empty() =~= s);
    } else {
        let p = escape_all(s.drop_last());
        let q = escape_of(s.last());
        lemma_utf8_len_concat(p, q);
        law_escaped_text_decodes_to_itself(s.drop_last());
        law_escape_decodes_to_its_char(s.last());
        law_decoding_concatenates(p, q, s.drop_last());
        assert(s.drop_last() + seq![s.last()] =~= s);
    }
}

} // verus!
