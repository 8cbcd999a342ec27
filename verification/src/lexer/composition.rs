//! Lexing text that follows a complete prefix.
use vstd::prelude::*;
use crate::text::{utf8_len, byte_offset, char_width};
use crate::text::{lemma_byte_offset_bound, lemma_byte_offset_concat, lemma_byte_offset_mono, lemma_byte_offset_step, lemma_utf8_len_ascii, lemma_utf8_len_concat, lemma_utf8_len_subrange};
use crate::token::{ByteIndex, TokenModel, shift_index, shift_tokens};
use super::LexError;
use super::model::{State, ends_in_uncut_string, finish, finish_ready, is_word_char, lex_result, main_step, run, state_wf, step, word_token, lemma_run_wf, lemma_wf_finish_ready};
use super::string_parser::{string_value, lemma_string_value_err_span};

verus! {

/// A state of the lexer of `b`, seen as a state of the lexer of a text
/// that has `chars` characters (`bytes` bytes) before `b`.
pub open spec fn shift_state(st: State, chars: nat, bytes: nat) -> State {
    match st {
        State::Main => State::Main,
        State::SingleLineComment => State::SingleLineComment,
        State::Word { start, at, byte_len } => State::Word {
            start: shift_index(start, bytes),
            at: (at + chars) as usize,
            byte_len,
        },
        State::String { start, at, char_len, byte_len } => State::String {
            start: shift_index(start, bytes),
            at: (at + chars) as usize,
            char_len,
            byte_len,
        },
        State::Slash(start) => State::Slash(shift_index(start, bytes)),
        State::Dash(start) => State::Dash(shift_index(start, bytes)),
    }
}

/// An error in `b`, seen in a text with `bytes` bytes before `b`.
pub open spec fn shift_error(e: LexError, bytes: nat) -> LexError {
    LexError(shift_index(e.0, bytes), shift_index(e.1, bytes))
}

/// What a step or run over `b` comes to after a prefix of `chars`
/// characters and `bytes` bytes that left the tokens `before`.
pub open spec fn shift_run_result(
    r: Result<(State, Seq<TokenModel>), LexError>,
    chars: nat,
    bytes: nat,
    before: Seq<TokenModel>,
) -> Result<(State, Seq<TokenModel>), LexError> {
    match r {
        Ok((st, out)) => Ok((shift_state(st, chars, bytes), before + shift_tokens(out, bytes))),
        Err(e) => Err(shift_error(e, bytes)),
    }
}

/// What a finish over `b` comes to after such a prefix.
pub open spec fn shift_finish_result(
    r: Result<Seq<TokenModel>, LexError>,
    bytes: nat,
    before: Seq<TokenModel>,
) -> Result<Seq<TokenModel>, LexError> {
    match r {
        Ok(out) => Ok(before + shift_tokens(out, bytes)),
        Err(e) => Err(shift_error(e, bytes)),
    }
}

proof fn lemma_shift_push(before: Seq<TokenModel>, out: Seq<TokenModel>, t: TokenModel, bytes: nat)
    ensures
        (before + shift_tokens(out, bytes)).push(t.shifted(bytes)) == before + shift_tokens(out.push(t), bytes),
{
    assert((before + shift_tokens(out, bytes)).push(t.shifted(bytes)) =~= before + shift_tokens(out.push(t), bytes));
}

/// A word at a shifted start stands for the shifted token.
proof fn lemma_word_token_shift(w: Seq<char>, start: ByteIndex, bytes: nat)
    requires
        start.0 + w.len() + bytes <= usize::MAX,
    ensures
        word_token(w, shift_index(start, bytes)) == match word_token(w, start) {
            Some(t) => Some(t.shifted(bytes)),
            None => None,
        },
{
}

/// Finishing a shifted pending state finishes the unshifted one, shifted.
pub(crate) proof fn lemma_finish_shift(a: Seq<char>, b: Seq<char>, st: State, before: Seq<TokenModel>, out: Seq<TokenModel>)
    requires
        utf8_len(a + b) <= usize::MAX,
        finish_ready(b, st),
    ensures
        finish(a + b, shift_state(st, a.len(), utf8_len(a)), before + shift_tokens(out, utf8_len(a)))
            == shift_finish_result(finish(b, st, out), utf8_len(a), before),
{
    let bytes = utf8_len(a);
    lemma_utf8_len_concat(a, b);
    lemma_byte_offset_bound(a + b, 0);
    lemma_byte_offset_bound(b, 0);
    match st {
        State::Word { start, at, byte_len } => {
            lemma_utf8_len_ascii(b.subrange(at as int, at + byte_len));
            lemma_utf8_len_subrange(b, at as int, at + byte_len);
            lemma_byte_offset_bound(b, at + byte_len);
            assert((a + b).subrange(at + a.len(), at + a.len() + byte_len) =~= b.subrange(at as int, at + byte_len));
            lemma_word_token_shift(b.subrange(at as int, at + byte_len), start, bytes);
            if let Some(t) = word_token(b.subrange(at as int, at + byte_len), start) {
                lemma_shift_push(before, out, t, bytes);
            }
        },
        State::String { start, at, char_len, byte_len } => {
            lemma_byte_offset_step(b, at as int);
            lemma_byte_offset_step(b, at + char_len - 1);
            lemma_byte_offset_mono(b, at as int + 1, at + char_len - 1);
            lemma_utf8_len_subrange(b, at as int + 1, at + char_len - 1);
            lemma_byte_offset_bound(b, at + char_len);
            let body = b.subrange(at + 1, at + char_len - 1);
            assert((a + b).subrange(at + a.len() + 1, at + a.len() + char_len - 1) =~= body);
            lemma_string_value_err_span(body);
            if let Ok(value) = string_value(body) {
                lemma_shift_push(
                    before,
                    out,
                    TokenModel::StringLiteral { value, span: (start, ByteIndex((start.0 + byte_len) as usize)) },
                    bytes,
                );
            }
        },
        State::Slash(start) => {},
        State::Dash(start) => {
            lemma_shift_push(before, out, TokenModel::Dash(start), bytes);
        },
        _ => {},
    }
}

/// The main state reads a character of `b` after the prefix as it reads
/// it in `b` alone, shifted.
pub(crate) proof fn lemma_main_step_shift(a: Seq<char>, b: Seq<char>, before: Seq<TokenModel>, out: Seq<TokenModel>, i: int)
    requires
        utf8_len(a + b) <= usize::MAX,
        0 <= i < b.len(),
    ensures
        main_step(a + b, before + shift_tokens(out, utf8_len(a)), a.len() + i)
            == shift_run_result(main_step(b, out, i), a.len(), utf8_len(a), before),
{
    let bytes = utf8_len(a);
    lemma_utf8_len_concat(a, b);
    lemma_byte_offset_bound(a + b, 0);
    lemma_byte_offset_concat(a, b, i);
    lemma_byte_offset_bound(b, i + 1);
    lemma_byte_offset_step(b, i);
    assert((a + b)[a.len() + i] == b[i]);
    let ob = ByteIndex(byte_offset(b, i) as usize);
    let c = b[i];
    if c == '(' { lemma_shift_push(before, out, TokenModel::LParen(ob), bytes); }
    if c == ')' { lemma_shift_push(before, out, TokenModel::RParen(ob), bytes); }
    if c == '[' { lemma_shift_push(before, out, TokenModel::LSquare(ob), bytes); }
    if c == ']' { lemma_shift_push(before, out, TokenModel::RSquare(ob), bytes); }
    if c == '=' { lemma_shift_push(before, out, TokenModel::Eq(ob), bytes); }
    if c == ':' { lemma_shift_push(before, out, TokenModel::Colon(ob), bytes); }
    if c == ',' { lemma_shift_push(before, out, TokenModel::Comma(ob), bytes); }
    if c == '^' { lemma_shift_push(before, out, TokenModel::Caret(ob), bytes); }
}

/// One step over `b` after the prefix is the step over `b` alone, shifted.
proof fn lemma_step_shift(a: Seq<char>, b: Seq<char>, st: State, before: Seq<TokenModel>, out: Seq<TokenModel>, i: int)
    requires
        utf8_len(a + b) <= usize::MAX,
        0 <= i < b.len(),
        state_wf(b, st, i),
    ensures
        step(a + b, shift_state(st, a.len(), utf8_len(a)), before + shift_tokens(out, utf8_len(a)), a.len() + i)
            == shift_run_result(step(b, st, out, i), a.len(), utf8_len(a), before),
{
    let bytes = utf8_len(a);
    let g = a.len() + i;
    lemma_utf8_len_concat(a, b);
    lemma_byte_offset_bound(a + b, 0);
    lemma_byte_offset_bound(b, 0);
    lemma_byte_offset_concat(a, b, i);
    lemma_byte_offset_bound(b, i + 1);
    lemma_byte_offset_step(b, i);
    assert((a + b)[g] == b[i]);
    let c = b[i];
    lemma_main_step_shift(a, b, before, out, i);
    match st {
        State::Main => {},
        State::SingleLineComment => {},
        State::Word { start, at, byte_len } => {
            if is_word_char(c) {
            } else if c == '*' {
                let st2 = State::Word { start, at, byte_len: (byte_len + 1) as usize };
                assert forall|k: int| at <= k < at + byte_len + 1 implies (#[trigger] b[k] as u32) < 0x80 by {
                    if k < i {
                        assert(is_word_char(b[k]));
                    }
                }
                lemma_finish_shift(a, b, st2, before, out);
            } else {
                lemma_wf_finish_ready(b, st, i);
                lemma_finish_shift(a, b, st, before, out);
                if let Ok(out2) = finish(b, st, out) {
                    lemma_main_step_shift(a, b, before, out2, i);
                }
            }
        },
        State::String { start, at, char_len, byte_len } => {
            let st2 = State::String {
                start,
                at,
                char_len: (char_len + 1) as usize,
                byte_len: (byte_len + char_width(c)) as usize,
            };
            if c == '"' {
                lemma_finish_shift(a, b, st2, before, out);
            }
        },
        State::Slash(start) => {
            if c != '/' {
                lemma_wf_finish_ready(b, st, i);
                lemma_finish_shift(a, b, st, before, out);
            }
        },
        State::Dash(start) => {
            if c == '>' {
                lemma_shift_push(before, out, TokenModel::ThinArrow(start), bytes);
            } else {
                lemma_wf_finish_ready(b, st, i);
                lemma_finish_shift(a, b, st, before, out);
                if let Ok(out2) = finish(b, st, out) {
                    lemma_main_step_shift(a, b, before, out2, i);
                }
            }
        },
    }
}

/// Finishing reads only the pending text, so a prefix finishes the same
/// way in a longer text.
proof fn lemma_finish_prefix(a: Seq<char>, b: Seq<char>, st: State, out: Seq<TokenModel>, m: int)
    requires
        m <= a.len(),
        st matches State::Word { at, byte_len, .. } ==> at + byte_len <= m,
        st matches State::String { at, char_len, .. } ==> 2 <= char_len && at + char_len <= m,
    ensures
        finish(a + b, st, out) == finish(a, st, out),
{
    match st {
        State::Word { at, byte_len, .. } => {
            assert((a + b).subrange(at as int, at + byte_len) =~= a.subrange(at as int, at + byte_len));
        },
        State::String { at, char_len, .. } => {
            assert((a + b).subrange(at + 1, at + char_len - 1) =~= a.subrange(at + 1, at + char_len - 1));
        },
        _ => {},
    }
}

/// The main state reads a character of a prefix the same way in a longer
/// text.
proof fn lemma_main_step_prefix(a: Seq<char>, b: Seq<char>, out: Seq<TokenModel>, i: int)
    requires
        0 <= i < a.len(),
    ensures
        main_step(a + b, out, i) == main_step(a, out, i),
{
    assert((a + b).take(i) =~= a.take(i));
    assert((a + b)[i] == a[i]);
}

/// A step within a prefix is the same step in a longer text.
proof fn lemma_step_prefix(a: Seq<char>, b: Seq<char>, st: State, out: Seq<TokenModel>, i: int)
    requires
        0 <= i < a.len(),
        utf8_len(a) <= usize::MAX,
        state_wf(a, st, i),
    ensures
        step(a + b, st, out, i) == step(a, st, out, i),
{
    assert((a + b).take(i) =~= a.take(i));
    assert((a + b)[i] == a[i]);
    let c = a[i];
    lemma_byte_offset_bound(a, 0);
    assert forall|o: Seq<TokenModel>| main_step(a + b, o, i) == main_step(a, o, i) by {
        lemma_main_step_prefix(a, b, o, i);
    }
    match st {
        State::Word { start, at, byte_len } => {
            lemma_finish_prefix(a, b, st, out, i);
            lemma_finish_prefix(a, b, State::Word { start, at, byte_len: (byte_len + 1) as usize }, out, i + 1);
        },
        State::String { start, at, char_len, byte_len } => {
            lemma_finish_prefix(
                a,
                b,
                State::String {
                    start,
                    at,
                    char_len: (char_len + 1) as usize,
                    byte_len: (byte_len + char_width(c)) as usize,
                },
                out,
                i + 1,
            );
        },
        _ => {
            lemma_finish_prefix(a, b, st, out, i);
        },
    }
}

/// The lexer reads a prefix of a text as it reads that prefix alone.
pub(crate) proof fn lemma_run_prefix(a: Seq<char>, b: Seq<char>, m: int)
    requires
        0 <= m <= a.len(),
        utf8_len(a + b) <= usize::MAX,
    ensures
        run(a + b, m) == run(a, m),
    decreases m,
{
    if m > 0 {
        let i = m - 1;
        lemma_run_prefix(a, b, i);
        lemma_utf8_len_concat(a, b);
        lemma_run_wf(a, i);
        if let Ok((st, out)) = run(a, i) {
            lemma_step_prefix(a, b, st, out, i);
        }
    }
}

/// After a prefix that it reads to the main state, the lexer reads `b` as
/// it reads `b` alone, shifted.
proof fn lemma_run_suffix(a: Seq<char>, b: Seq<char>, before: Seq<TokenModel>, k: int)
    requires
        0 <= k <= b.len(),
        utf8_len(a + b) <= usize::MAX,
        run(a, a.len() as int) == Ok::<(State, Seq<TokenModel>), LexError>((State::Main, before)),
    ensures
        run(a + b, a.len() + k) == shift_run_result(run(b, k), a.len(), utf8_len(a), before),
    decreases k,
{
    lemma_utf8_len_concat(a, b);
    if k == 0 {
        lemma_run_prefix(a, b, a.len() as int);
        assert(before + shift_tokens(Seq::empty(), utf8_len(a)) =~= before);
    } else {
        let i = k - 1;
        lemma_run_suffix(a, b, before, i);
        lemma_run_wf(b, i);
        if let Ok((st, out)) = run(b, i) {
            lemma_step_shift(a, b, st, before, out, i);
        }
    }
}

proof fn lemma_uncut_after_prefix(a: Seq<char>, b: Seq<char>, before: Seq<TokenModel>)
    requires
        utf8_len(a + b) <= usize::MAX,
        run(a + b, (a + b).len() as int) == shift_run_result(run(b, b.len() as int), a.len(), utf8_len(a), before),
    ensures
        ends_in_uncut_string(a + b) == ends_in_uncut_string(b),
{
    lemma_utf8_len_concat(a, b);
    lemma_run_wf(b, b.len() as int);
    lemma_byte_offset_bound(a + b, 0);
    if let Ok((State::String { at, char_len, .. }, out)) = run(b, b.len() as int) {
        assert((a + b)[a.len() + at + char_len - 1] == b[at + char_len - 1]);
    }
}

proof fn lemma_result_after_prefix(a: Seq<char>, b: Seq<char>, before: Seq<TokenModel>)
    requires
        utf8_len(a + b) <= usize::MAX,
        !ends_in_uncut_string(b),
        run(a + b, (a + b).len() as int) == shift_run_result(run(b, b.len() as int), a.len(), utf8_len(a), before),
    ensures
        lex_result(a + b) == shift_finish_result(lex_result(b), utf8_len(a), before),
{
    lemma_utf8_len_concat(a, b);
    lemma_run_wf(b, b.len() as int);
    if let Ok((st, out)) = run(b, b.len() as int) {
        lemma_wf_finish_ready(b, st, b.len() as int);
        lemma_finish_shift(a, b, st, before, out);
    }
}

/// Once the lexer of `a + b` agrees with the shifted lexer of `b` after
/// `k0` characters of `b`, it agrees on the whole of `b`, and so on the
/// result.
pub(crate) proof fn lemma_lexing_resumes(a: Seq<char>, b: Seq<char>, before: Seq<TokenModel>, k0: int)
    requires
        0 <= k0 <= b.len(),
        utf8_len(a + b) <= usize::MAX,
        run(a + b, a.len() + k0) == shift_run_result(run(b, k0), a.len(), utf8_len(a), before),
    ensures
        ends_in_uncut_string(a + b) == ends_in_uncut_string(b),
        !ends_in_uncut_string(b) ==> lex_result(a + b) == shift_finish_result(lex_result(b), utf8_len(a), before),
{
    lemma_run_suffix_from(a, b, before, k0, b.len() as int);
    assert((a + b).len() == a.len() + b.len());
    lemma_uncut_after_prefix(a, b, before);
    if !ends_in_uncut_string(b) {
        lemma_result_after_prefix(a, b, before);
    }
}

proof fn lemma_run_suffix_from(a: Seq<char>, b: Seq<char>, before: Seq<TokenModel>, k0: int, k: int)
    requires
        0 <= k0 <= k <= b.len(),
        utf8_len(a + b) <= usize::MAX,
        run(a + b, a.len() + k0) == shift_run_result(run(b, k0), a.len(), utf8_len(a), before),
    ensures
        run(a + b, a.len() + k) == shift_run_result(run(b, k), a.len(), utf8_len(a), before),
    decreases k - k0,
{
    if k > k0 {
        let i = k - 1;
        lemma_run_suffix_from(a, b, before, k0, i);
        lemma_utf8_len_concat(a, b);
        lemma_run_wf(b, i);
        if let Ok((st, out)) = run(b, i) {
            lemma_step_shift(a, b, st, before, out, i);
        }
    }
}

/// Text that follows a prefix which the lexer reads to its main state (a
/// prefix that ends between tokens) is lexed as it would be alone, with
/// every position moved by the prefix's length in bytes; the tokens of the
/// prefix come first.
pub proof fn law_lexing_after_complete_prefix(a: Seq<char>, b: Seq<char>, before: Seq<TokenModel>)
    requires
        utf8_len(a + b) <= usize::MAX,
        run(a, a.len() as int) == Ok::<(State, Seq<TokenModel>), LexError>((State::Main, before)),
    ensures
        ends_in_uncut_string(a + b) == ends_in_uncut_string(b),
        !ends_in_uncut_string(b) ==> lex_result(a + b) == shift_finish_result(lex_result(b), utf8_len(a), before),
{
    lemma_run_suffix(a, b, before, b.len() as int);
    assert((a + b).len() == a.len() + b.len());
    lemma_uncut_after_prefix(a, b, before);
    if !ends_in_uncut_string(b) {
        lemma_result_after_prefix(a, b, before);
    }
}

} // verus!
