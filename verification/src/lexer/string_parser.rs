//! The text of a string literal between its quotes, with its escapes
//! `{0x<hex>}` resolved.
use vstd::prelude::*;
use vstd::utf8::is_scalar;
use crate::numeral::{parse_unsigned, unsigned_value};
use crate::text::{utf8_len, byte_offset, char_width, chars_of, len_utf8, push_char};
use crate::text::{lemma_byte_offset_bound, lemma_byte_offset_end, lemma_byte_offset_step, lemma_utf8_len_subrange, lemma_byte_offset_mono};
use crate::token::ByteIndex;

verus! {

/// Where the string parser stands between two characters.
#[derive(Clone, Copy)]
pub enum State {
    Main,
    /// Inside an escape whose `{` is the character at `at`, at byte `start`.
    Escape { start: ByteIndex, at: usize },
}

/// The character that the text between the braces of an escape stands for,
/// if it is a valid escape: `0x` and hexadecimal digits, of at least three
/// bytes in all, naming a Unicode scalar value.
pub open spec fn escape_value(body: Seq<char>) -> Option<char> {
    if utf8_len(body) < 3 {
        None
    } else if !(body.len() >= 2 && body[0] == '0' && body[1] == 'x') {
        None
    } else {
        match unsigned_value(body.skip(2), 16, u32::MAX as nat) {
            None => None,
            Some(v) => if is_scalar(v as u32) {
                Some((v as u32) as char)
            } else {
                None
            },
        }
    }
}

/// One character of the string parser: the character `src[i]` seen in
/// state `st` with the text `out` decoded so far.
pub open spec fn string_step(src: Seq<char>, st: State, out: Seq<char>, i: int) -> Result<
    (State, Seq<char>),
    (ByteIndex, ByteIndex),
> {
    let c = src[i];
    let b = byte_offset(src, i);
    match st {
        State::Main => if c == '{' {
            Ok((State::Escape { start: ByteIndex(b as usize), at: i as usize }, out))
        } else if c == '}' {
            Err((ByteIndex(b as usize), ByteIndex((b + 1) as usize)))
        } else {
            Ok((State::Main, out.push(c)))
        },
        State::Escape { start, at } => if c == '}' {
            match escape_value(src.subrange(at + 1, i)) {
                Some(e) => Ok((State::Main, out.push(e))),
                None => Err((ByteIndex((start.0 + 1) as usize), ByteIndex(b as usize))),
            }
        } else {
            Ok((State::Escape { start, at }, out))
        },
    }
}

/// The string parser after the first `n` characters of `src`.
pub open spec fn string_run(src: Seq<char>, n: int) -> Result<
    (State, Seq<char>),
    (ByteIndex, ByteIndex),
>
    decreases n,
{
    if n <= 0 {
        Ok((State::Main, Seq::empty()))
    } else {
        match string_run(src, n - 1) {
            Err(e) => Err(e),
            Ok((st, out)) => string_step(src, st, out, n - 1),
        }
    }
}

/// The decoded text of `src`, or the span of the first bad escape or
/// unmatched `}`. An escape left open at the end is reported from its `{`
/// to the end of the text.
pub open spec fn string_value(src: Seq<char>) -> Result<Seq<char>, (ByteIndex, ByteIndex)> {
    match string_run(src, src.len() as int) {
        Err(e) => Err(e),
        Ok((State::Main, out)) => Ok(out),
        Ok((State::Escape { start, at }, _)) => Err((start, ByteIndex(utf8_len(src) as usize))),
    }
}

/// What an open escape holds: its `{` at `at`, before `n`, at byte `start`.
pub open spec fn escape_state_wf(src: Seq<char>, st: State, n: int) -> bool {
    match st {
        State::Main => true,
        State::Escape { start, at } => {
            &&& at < n
            &&& start.0 == byte_offset(src, at as int)
            &&& src[at as int] == '{'
            &&& forall|k: int| at < k < n ==> #[trigger] src[k] != '}'
        },
    }
}

/// Once the string parser has failed, it stays failed with the same span.
pub proof fn lemma_string_run_err(src: Seq<char>, m: int, n: int)
    requires
        0 <= m <= n,
        string_run(src, m) is Err,
    ensures
        string_run(src, n) == string_run(src, m),
    decreases n - m,
{
    if m < n {
        lemma_string_run_err(src, m, n - 1);
    }
}

/// The states the string parser passes through are well formed.
pub proof fn lemma_string_run_wf(src: Seq<char>, n: int)
    requires
        0 <= n <= src.len(),
        utf8_len(src) <= usize::MAX,
    ensures
        string_run(src, n) matches Ok((st, _)) ==> escape_state_wf(src, st, n),
    decreases n,
{
    if n > 0 {
        lemma_string_run_wf(src, n - 1);
        lemma_byte_offset_bound(src, n - 1);
        lemma_byte_offset_bound(src, 0);
    }
}

/// Every span the string parser reports lies within the text read so far.
pub proof fn lemma_string_run_err_span(src: Seq<char>, n: int)
    requires
        0 <= n <= src.len(),
        utf8_len(src) <= usize::MAX,
    ensures
        string_run(src, n) matches Err((a, b)) ==> a.0 <= b.0 <= byte_offset(src, n),
    decreases n,
{
    if n > 0 {
        lemma_string_run_err_span(src, n - 1);
        lemma_string_run_wf(src, n - 1);
        lemma_byte_offset_bound(src, n);
        lemma_byte_offset_step(src, n - 1);
        lemma_byte_offset_mono(src, n - 1, n);
        if let Ok((st, out)) = string_run(src, n - 1) {
            if let State::Escape { start, at } = st {
                lemma_byte_offset_mono(src, at as int + 1, n - 1);
                lemma_byte_offset_step(src, at as int);
            }
        }
    }
}

/// Every span that `string_value` reports lies within the text.
pub proof fn lemma_string_value_err_span(src: Seq<char>)
    requires
        utf8_len(src) <= usize::MAX,
    ensures
        string_value(src) matches Err((a, b)) ==> a.0 <= b.0 <= utf8_len(src),
{
    lemma_string_run_err_span(src, src.len() as int);
    lemma_string_run_wf(src, src.len() as int);
    lemma_byte_offset_end(src);
    lemma_byte_offset_bound(src, 0);
    if let Ok((State::Escape { start, at }, _)) = string_run(src, src.len() as int) {
        lemma_byte_offset_bound(src, at as int);
    }
}

/// Decodes the text between the quotes of a string literal. Every
/// character stands for itself, except for escapes `{0x<hex>}`, which
/// stand for the character with that scalar value.
///
/// This function returns `Err(span)` if it encounters
/// an invalid escape sequence, an unterminated escape sequence,
/// or a `}` outside an escape sequence.
/// - If the escape sequence is invalid,
///   `span` is the span of the invalid escape sequence,
///   **excluding** the enclosing curly braces.
/// - If the escape sequence is unterminated,
///   the `span` is the span of the unterminated escape sequence,
///   **including** the left curly brace.
pub fn get_string_value(quote_exclusive_string_src: &str) -> (r: Result<String, (ByteIndex, ByteIndex)>)
    requires
        utf8_len(quote_exclusive_string_src@) <= usize::MAX,
    ensures
        match r {
            Ok(s) => string_value(quote_exclusive_string_src@) == Ok::<Seq<char>, (ByteIndex, ByteIndex)>(s@),
            Err(e) => string_value(quote_exclusive_string_src@) == Err::<Seq<char>, (ByteIndex, ByteIndex)>(e),
        },
{
    let chars = chars_of(quote_exclusive_string_src);
    StringParser::new(chars.as_slice()).parse()
}

/// Decodes `src` as `get_string_value` does.
pub(crate) fn decode_string(src: &[char]) -> (r: Result<String, (ByteIndex, ByteIndex)>)
    requires
        utf8_len(src@) <= usize::MAX,
    ensures
        match r {
            Ok(s) => string_value(src@) == Ok::<Seq<char>, (ByteIndex, ByteIndex)>(s@),
            Err(e) => string_value(src@) == Err::<Seq<char>, (ByteIndex, ByteIndex)>(e),
        },
{
    StringParser::new(src).parse()
}

struct StringParser<'a> {
    quote_exclusive_string_src: &'a [char],
    out: String,
    state: State,
}

impl<'a> StringParser<'a> {
    fn new(quote_exclusive_string_src: &'a [char]) -> (p: Self)
        ensures
            p.quote_exclusive_string_src@ == quote_exclusive_string_src@,
            p.out@ == Seq::<char>::empty(),
            p.state == State::Main,
    {
        Self { quote_exclusive_string_src, out: String::new(), state: State::Main }
    }
}

impl StringParser<'_> {
    fn parse(self) -> (r: Result<String, (ByteIndex, ByteIndex)>)
        requires
            self.out@ == Seq::<char>::empty(),
            self.state == State::Main,
            utf8_len(self.quote_exclusive_string_src@) <= usize::MAX,
        ensures
            match r {
                Ok(s) => string_value(self.quote_exclusive_string_src@) == Ok::<
                    Seq<char>,
                    (ByteIndex, ByteIndex),
                >(s@),
                Err(e) => string_value(self.quote_exclusive_string_src@) == Err::<
                    Seq<char>,
                    (ByteIndex, ByteIndex),
                >(e),
            },
    {
        let mut parser = self;
        let ghost src = parser.quote_exclusive_string_src@;
        let n = parser.quote_exclusive_string_src.len();
        let mut i: usize = 0;
        let mut pos: usize = 0;
        while i < n
            invariant
                parser.quote_exclusive_string_src@ == src,
                self.quote_exclusive_string_src@ == src,
                n == src.len(),
                utf8_len(src) <= usize::MAX,
                0 <= i <= n,
                pos == byte_offset(src, i as int),
                string_run(src, i as int) == Ok::<(State, Seq<char>), (ByteIndex, ByteIndex)>(
                    (parser.state, parser.out@),
                ),
            decreases n - i,
        {
            let current = parser.quote_exclusive_string_src[i];
            proof {
                lemma_string_run_wf(src, i as int);
                lemma_byte_offset_step(src, i as int);
                lemma_byte_offset_bound(src, i as int + 1);
            }
            match parser.handle_char(i, ByteIndex(pos), current) {
                Ok(()) => {},
                Err(e) => {
                    proof {
                        lemma_string_run_err(src, i as int + 1, n as int);
                    }
                    return Err(e);
                },
            }
            pos = pos + len_utf8(current);
            i = i + 1;
        }
        proof {
            lemma_byte_offset_end(src);
        }
        match parser.state {
            State::Escape { start, .. } => Err((start, ByteIndex(pos))),
            State::Main => Ok(parser.out),
        }
    }

    fn handle_char(&mut self, at: usize, current_index: ByteIndex, current: char) -> (r: Result<(), (ByteIndex, ByteIndex)>)
        requires
            at < old(self).quote_exclusive_string_src@.len(),
            current == old(self).quote_exclusive_string_src@[at as int],
            current_index.0 == byte_offset(old(self).quote_exclusive_string_src@, at as int),
            byte_offset(old(self).quote_exclusive_string_src@, at as int) + char_width(current) <= usize::MAX,
            escape_state_wf(old(self).quote_exclusive_string_src@, old(self).state, at as int),
        ensures
            final(self).quote_exclusive_string_src == old(self).quote_exclusive_string_src,
            match string_step(old(self).quote_exclusive_string_src@, old(self).state, old(self).out@, at as int) {
                Ok((st, out)) => r is Ok && final(self).state == st && final(self).out@ == out,
                Err(e) => r == Err::<(), (ByteIndex, ByteIndex)>(e),
            },
            r is Err ==> final(self).state == old(self).state && final(self).out == old(self).out,
    {
        match self.state {
            State::Main => self.handle_char_assuming_state_is_main(at, current_index, current),
            State::Escape { start, at: open_at } => {
                self.handle_char_assuming_state_is_escape(at, current_index, current, start, open_at)
            },
        }
    }

    fn handle_char_assuming_state_is_main(&mut self, at: usize, current_index: ByteIndex, current: char) -> (r: Result<(), (ByteIndex, ByteIndex)>)
        requires
            old(self).state == State::Main,
            at < old(self).quote_exclusive_string_src@.len(),
            current == old(self).quote_exclusive_string_src@[at as int],
            current_index.0 == byte_offset(old(self).quote_exclusive_string_src@, at as int),
            current_index.0 + char_width(current) <= usize::MAX,
        ensures
            final(self).quote_exclusive_string_src == old(self).quote_exclusive_string_src,
            match string_step(old(self).quote_exclusive_string_src@, old(self).state, old(self).out@, at as int) {
                Ok((st, out)) => r is Ok && final(self).state == st && final(self).out@ == out,
                Err(e) => r == Err::<(), (ByteIndex, ByteIndex)>(e),
            },
            r is Err ==> final(self).state == old(self).state && final(self).out == old(self).out,
    {
        match current {
            '{' => {
                self.state = State::Escape { start: current_index, at };
                Ok(())
            },
            '}' => Err((current_index, ByteIndex(current_index.0 + len_utf8('}')))),
            _ => {
                push_char(&mut self.out, current);
                Ok(())
            },
        }
    }

    fn handle_char_assuming_state_is_escape(
        &mut self,
        at: usize,
        current_index: ByteIndex,
        current: char,
        start: ByteIndex,
        open_at: usize,
    ) -> (r: Result<(), (ByteIndex, ByteIndex)>)
        requires
            old(self).state == (State::Escape { start, at: open_at }),
            escape_state_wf(old(self).quote_exclusive_string_src@, old(self).state, at as int),
            at < old(self).quote_exclusive_string_src@.len(),
            current == old(self).quote_exclusive_string_src@[at as int],
            current_index.0 == byte_offset(old(self).quote_exclusive_string_src@, at as int),
            current_index.0 + char_width(current) <= usize::MAX,
        ensures
            final(self).quote_exclusive_string_src == old(self).quote_exclusive_string_src,
            match string_step(old(self).quote_exclusive_string_src@, old(self).state, old(self).out@, at as int) {
                Ok((st, out)) => r is Ok && final(self).state == st && final(self).out@ == out,
                Err(e) => r == Err::<(), (ByteIndex, ByteIndex)>(e),
            },
            r is Err ==> final(self).state == old(self).state && final(self).out == old(self).out,
    {
        if current == '}' {
            proof {
                lemma_byte_offset_mono(self.quote_exclusive_string_src@, open_at as int + 1, at as int);
                lemma_byte_offset_step(self.quote_exclusive_string_src@, open_at as int);
            }
            let brace_exclusive_start = ByteIndex(start.0 + len_utf8('{'));
            let brace_exclusive_end = current_index;
            self.push_escape_sequence(brace_exclusive_start, brace_exclusive_end, open_at + 1, at)?;
            self.state = State::Main;
            return Ok(());
        }
        Ok(())
    }

    fn push_escape_sequence(
        &mut self,
        brace_exclusive_start: ByteIndex,
        brace_exclusive_end: ByteIndex,
        lo: usize,
        hi: usize,
    ) -> (r: Result<(), (ByteIndex, ByteIndex)>)
        requires
            lo <= hi <= old(self).quote_exclusive_string_src@.len(),
            brace_exclusive_start.0 == byte_offset(old(self).quote_exclusive_string_src@, lo as int),
            brace_exclusive_end.0 == byte_offset(old(self).quote_exclusive_string_src@, hi as int),
        ensures
            final(self).quote_exclusive_string_src == old(self).quote_exclusive_string_src,
            final(self).state == old(self).state,
            match escape_value(old(self).quote_exclusive_string_src@.subrange(lo as int, hi as int)) {
                Some(c) => r is Ok && final(self).out@ == old(self).out@.push(c),
                None => r == Err::<(), (ByteIndex, ByteIndex)>((brace_exclusive_start, brace_exclusive_end)),
            },
            r is Err ==> final(self).out == old(self).out,
    {
        let ghost body = self.quote_exclusive_string_src@.subrange(lo as int, hi as int);
        proof {
            lemma_byte_offset_mono(self.quote_exclusive_string_src@, lo as int, hi as int);
            lemma_utf8_len_subrange(self.quote_exclusive_string_src@, lo as int, hi as int);
        }
        let invalid_escape_sequence_err = Err((brace_exclusive_start, brace_exclusive_end));
        let byte_len = brace_exclusive_end.0 - brace_exclusive_start.0;
        if byte_len < 3 {
            return invalid_escape_sequence_err;
        }
        let src = self.quote_exclusive_string_src;
        if !(hi - lo >= 2 && src[lo] == '0' && src[lo + 1] == 'x') {
            return invalid_escape_sequence_err;
        }
        assert(body.skip(2) =~= src@.subrange(lo + 2, hi as int));
        let val = match parse_unsigned(src, lo + 2, hi, 16, 0xffff_ffff) {
            Some(v) => v,
            None => return invalid_escape_sequence_err,
        };
        let val = match char_from_u32(val as u32) {
            Some(c) => c,
            None => return invalid_escape_sequence_err,
        };
        proof {
            vstd::utf8::char_u32_cast(val, val as u32);
        }
        push_char(&mut self.out, val);
        Ok(())
    }
}

/// `char::try_from(u32)`: the character whose scalar value is `v`, if `v`
/// is a Unicode scalar value (at most `0x10FFFF` and not a surrogate).
#[verifier::external_body]
fn char_from_u32(v: u32) -> (r: Option<char>)
    ensures
        r is Some <==> is_scalar(v),
        r matches Some(c) ==> c as u32 == v,
{
    match char::try_from(v) {
        Ok(c) => Some(c),
        Err(_) => None,
    }
}

} // verus!
