//! What holds of every run of the lexer.
use vstd::prelude::*;
use crate::text::{utf8_len, byte_offset, char_width};
use crate::text::{lemma_byte_offset_bound, lemma_byte_offset_end, lemma_byte_offset_mono, lemma_byte_offset_step, lemma_utf8_len_ascii, lemma_utf8_len_subrange};
use crate::numeral::unsigned_value;
use crate::token::{ByteIndex, NumberLiteral, TokenModel};
use super::LexError;
use super::model::{State, state_wf, ends_in_uncut_string, finish, finish_ready, is_word_char, lex_result, main_step, run, word_token, lemma_run_wf, lemma_wf_finish_ready};
use super::string_parser::lemma_string_value_err_span;

verus! {

/// The byte just past the text that a pending state covers.
pub open spec fn pending_end(st: State) -> nat {
    match st {
        State::Word { start, byte_len, .. } => (start.0 + byte_len) as nat,
        State::String { start, byte_len, .. } => (start.0 + byte_len) as nat,
        State::Slash(start) => (start.0 + 1) as nat,
        _ => 0,
    }
}

/// An error that `finish` reports lies within the text of the pending state.
proof fn lemma_finish_err_span(s: Seq<char>, st: State, out: Seq<TokenModel>)
    requires
        finish_ready(s, st),
        utf8_len(s) <= usize::MAX,
    ensures
        finish(s, st, out) matches Err(e) ==> e.0.0 <= e.1.0 <= pending_end(st),
{
    lemma_byte_offset_bound(s, 0);
    match st {
        State::Word { start, at, byte_len } => {
            lemma_utf8_len_ascii(s.subrange(at as int, at + byte_len));
            lemma_utf8_len_subrange(s, at as int, at + byte_len);
            lemma_byte_offset_bound(s, at + byte_len);
        },
        State::String { start, at, char_len, byte_len } => {
            lemma_byte_offset_step(s, at as int);
            lemma_byte_offset_step(s, at + char_len - 1);
            lemma_byte_offset_mono(s, at as int + 1, at + char_len - 1);
            lemma_utf8_len_subrange(s, at as int + 1, at + char_len - 1);
            lemma_byte_offset_bound(s, at + char_len);
            lemma_string_value_err_span(s.subrange(at + 1, at + char_len - 1));
        },
        _ => {},
    }
}

/// An error in the first `n` characters lies within them.
proof fn lemma_run_err_span(s: Seq<char>, n: int)
    requires
        0 <= n <= s.len(),
        utf8_len(s) <= usize::MAX,
    ensures
        run(s, n) matches Err(e) ==> e.0.0 <= e.1.0 <= byte_offset(s, n),
    decreases n,
{
    if n > 0 {
        let i = n - 1;
        lemma_run_err_span(s, i);
        lemma_run_wf(s, i);
        lemma_byte_offset_bound(s, n);
        lemma_byte_offset_bound(s, 0);
        lemma_byte_offset_step(s, i);
        lemma_byte_offset_mono(s, i, n);
        if let Ok((st, out)) = run(s, i) {
            let c = s[i];
            match st {
                State::Word { start, at, byte_len } => {
                    if is_word_char(c) {
                    } else if c == '*' {
                        let st2 = State::Word { start, at, byte_len: (byte_len + 1) as usize };
                        assert forall|k: int| at <= k < at + byte_len + 1 implies (#[trigger] s[k] as u32) < 0x80 by {
                            if k < i {
                                assert(is_word_char(s[k]));
                            }
                        }
                        lemma_finish_err_span(s, st2, out);
                    } else {
                        lemma_wf_finish_ready(s, st, i);
                        lemma_finish_err_span(s, st, out);
                    }
                },
                State::String { start, at, char_len, byte_len } => {
                    let st2 = State::String {
                        start,
                        at,
                        char_len: (char_len + 1) as usize,
                        byte_len: (byte_len + char_width(c)) as usize,
                    };
                    if c == '"' {
                        lemma_wf_finish_ready(s, st2, n);
                        lemma_finish_err_span(s, st2, out);
                    }
                },
                State::Slash(_) => {
                    lemma_wf_finish_ready(s, st, i);
                    lemma_finish_err_span(s, st, out);
                },
                State::Dash(_) => {
                    lemma_wf_finish_ready(s, st, i);
                    lemma_finish_err_span(s, st, out);
                },
                _ => {},
            }
        }
    }
}

/// Every lexical error spans a piece of the source text: its start is not
/// after its end, and its end is not past the end of the text.
pub proof fn law_error_span_within_source(s: Seq<char>)
    requires
        utf8_len(s) <= usize::MAX,
        !ends_in_uncut_string(s),
    ensures
        lex_result(s) matches Err(e) ==> e.0.0 <= e.1.0 <= utf8_len(s),
{
    let n = s.len() as int;
    lemma_run_err_span(s, n);
    lemma_run_wf(s, n);
    lemma_byte_offset_end(s);
    if let Ok((st, out)) = run(s, n) {
        lemma_wf_finish_ready(s, st, n);
        lemma_finish_err_span(s, st, out);
        lemma_byte_offset_bound(s, 0);
    }
}

/// Text made of spaces, tabs and newlines only.
pub open spec fn is_blank(s: Seq<char>) -> bool {
    forall|k: int| 0 <= k < s.len() ==> (#[trigger] s[k] == ' ' || s[k] == '\t' || s[k] == '\n')
}

proof fn lemma_blank_run(s: Seq<char>, n: int)
    requires
        is_blank(s),
        0 <= n <= s.len(),
    ensures
        run(s, n) == Ok::<(State, Seq<TokenModel>), LexError>((State::Main, Seq::empty())),
    decreases n,
{
    if n > 0 {
        lemma_blank_run(s, n - 1);
        assert(s[n - 1] == ' ' || s[n - 1] == '\t' || s[n - 1] == '\n');
    }
}

/// Whitespace alone holds no tokens.
pub proof fn law_blank_text_has_no_tokens(s: Seq<char>)
    requires
        is_blank(s),
    ensures
        lex_result(s) == Ok::<Seq<TokenModel>, LexError>(Seq::empty()),
        !ends_in_uncut_string(s),
{
    lemma_blank_run(s, s.len() as int);
}

/// Each token starts after the one before it.
pub open spec fn starts_increase(ts: Seq<TokenModel>) -> bool {
    forall|a: int, b: int| 0 <= a < b < ts.len() ==> #[trigger] ts[a].start() < #[trigger] ts[b].start()
}

/// Each token starts before byte `bound`.
pub open spec fn starts_below(ts: Seq<TokenModel>, bound: nat) -> bool {
    forall|a: int| 0 <= a < ts.len() ==> #[trigger] ts[a].start() < bound
}

/// `value` is the text of `s` that starts at byte `start`.
pub open spec fn text_at(s: Seq<char>, value: Seq<char>, start: ByteIndex) -> bool {
    exists|j: int|
        0 <= j && j + value.len() <= s.len() && byte_offset(s, j) == start.0 && #[trigger] s.subrange(
            j,
            j + value.len(),
        ) == value
}

/// The text of `s` between the bytes of `n`'s span is a decimal numeral
/// whose value is `n`'s value.
pub open spec fn number_at(s: Seq<char>, n: NumberLiteral) -> bool {
    exists|j: int, k: int|
        0 <= j <= k <= s.len() && byte_offset(s, j) == n.span.0.0 && byte_offset(s, k) == n.span.1.0
            && #[trigger] unsigned_value(s.subrange(j, k), 10, usize::MAX as nat) == Some(n.value as nat)
}

/// The source text at a token's position is what the token stands for:
/// its punctuation, its keyword, the word of an identifier, the numeral of
/// a number, the `Type` or `enum` that begins a universe literal or an
/// `enum` keyword, and the quote that opens a string literal.
pub open spec fn token_in_source(s: Seq<char>, t: TokenModel) -> bool {
    match t {
        TokenModel::Underscore(b) => text_at(s, seq!['_'], b),
        TokenModel::DefKw(b) => text_at(s, seq!['d', 'e', 'f'], b),
        TokenModel::MatchKw(b) => text_at(s, seq!['m', 'a', 't', 'c', 'h'], b),
        TokenModel::ForKw(b) => text_at(s, seq!['F', 'o', 'r'], b),
        TokenModel::CaseKw(b) => text_at(s, seq!['c', 'a', 's', 'e'], b),
        TokenModel::UseKw(b) => text_at(s, seq!['u', 's', 'e'], b),
        TokenModel::EndKw(b) => text_at(s, seq!['e', 'n', 'd'], b),
        TokenModel::DecKw(b) => text_at(s, seq!['d', 'e', 'c'], b),
        TokenModel::LParen(b) => text_at(s, seq!['('], b),
        TokenModel::RParen(b) => text_at(s, seq![')'], b),
        TokenModel::LSquare(b) => text_at(s, seq!['['], b),
        TokenModel::RSquare(b) => text_at(s, seq![']'], b),
        TokenModel::Eq(b) => text_at(s, seq!['='], b),
        TokenModel::Colon(b) => text_at(s, seq![':'], b),
        TokenModel::Comma(b) => text_at(s, seq![','], b),
        TokenModel::Caret(b) => text_at(s, seq!['^'], b),
        TokenModel::ThinArrow(b) => text_at(s, seq!['-', '>'], b),
        TokenModel::Dash(b) => text_at(s, seq!['-'], b),
        TokenModel::Ident { value, start } => text_at(s, value, start),
        TokenModel::NumberLiteral(n) => number_at(s, n),
        TokenModel::StringLiteral { span, .. } => text_at(s, seq!['"'], span.0),
        TokenModel::UniverseLiteral(u) => text_at(s, seq!['T', 'y', 'p', 'e'], u.start),
        TokenModel::EnumKw(e) => text_at(s, seq!['e', 'n', 'u', 'm'], e.start),
        TokenModel::VconIndexLiteral(_) => false,
        TokenModel::ReturnArityLiteral(_) => false,
    }
}

/// Each token is backed by the source text at its position.
pub open spec fn tokens_from_source(s: Seq<char>, ts: Seq<TokenModel>) -> bool {
    forall|a: int| 0 <= a < ts.len() ==> token_in_source(s, #[trigger] ts[a])
}

/// Each identifier is the text of `s` at its start.
pub open spec fn idents_from_source(s: Seq<char>, ts: Seq<TokenModel>) -> bool {
    forall|a: int|
        0 <= a < ts.len() ==> (#[trigger] ts[a] matches TokenModel::Ident { value, start } ==> text_at(
            s,
            value,
            start,
        ))
}

/// What holds of the tokens produced before byte `bound`.
pub open spec fn tokens_inv(s: Seq<char>, ts: Seq<TokenModel>, bound: nat) -> bool {
    &&& starts_increase(ts)
    &&& starts_below(ts, bound)
    &&& tokens_from_source(s, ts)
}

/// The byte before which all tokens produced so far start.
pub open spec fn pending_start(s: Seq<char>, st: State, n: int) -> nat {
    match st {
        State::Main => byte_offset(s, n),
        State::SingleLineComment => byte_offset(s, n),
        State::Word { start, .. } => start.0 as nat,
        State::String { start, .. } => start.0 as nat,
        State::Slash(start) => start.0 as nat,
        State::Dash(start) => start.0 as nat,
    }
}

proof fn lemma_tokens_inv_weaken(s: Seq<char>, ts: Seq<TokenModel>, b1: nat, b2: nat)
    requires
        tokens_inv(s, ts, b1),
        b1 <= b2,
    ensures
        tokens_inv(s, ts, b2),
{
}

proof fn lemma_tokens_inv_push(s: Seq<char>, ts: Seq<TokenModel>, t: TokenModel, b1: nat, b2: nat)
    requires
        tokens_inv(s, ts, b1),
        b1 <= t.start() < b2,
        token_in_source(s, t),
    ensures
        tokens_inv(s, ts.push(t), b2),
{
    let ts2 = ts.push(t);
    assert forall|a: int, b: int| 0 <= a < b < ts2.len() implies #[trigger] ts2[a].start() < #[trigger] ts2[b].start() by {
        if b < ts.len() {
            assert(ts2[a] == ts[a] && ts2[b] == ts[b]);
        } else {
            assert(ts2[a] == ts[a]);
        }
    }
    assert forall|a: int| 0 <= a < ts2.len() implies #[trigger] ts2[a].start() < b2 by {
        if a < ts.len() {
            assert(ts2[a] == ts[a]);
        }
    }
    assert forall|a: int| 0 <= a < ts2.len() implies token_in_source(s, #[trigger] ts2[a]) by {
        if a < ts.len() {
            assert(ts2[a] == ts[a]);
        }
    }
}

/// The token a word stands for starts where the word does, and an
/// identifier's text is the word.
proof fn lemma_word_token(w: Seq<char>, start: ByteIndex)
    ensures
        word_token(w, start) matches Some(t) ==> t.start() == start.0 && (t matches TokenModel::Ident { value, .. } ==> value == w),
{
}

/// The token a word of `s` stands for is backed by the word.
proof fn lemma_word_token_in_source(s: Seq<char>, at: int, len: int, start: ByteIndex)
    requires
        0 <= at,
        0 <= len,
        at + len <= s.len(),
        utf8_len(s) <= usize::MAX,
        start.0 == byte_offset(s, at),
        forall|k: int| at <= k < at + len ==> (#[trigger] s[k] as u32) < 0x80,
    ensures
        word_token(s.subrange(at, at + len), start) matches Some(t) ==> token_in_source(s, t),
{
    let w = s.subrange(at, at + len);
    assert(s.subrange(at, at + w.len()) == w);
    assert(text_at(s, w, start));
    if let Some(t) = word_token(w, start) {
        match t {
            TokenModel::NumberLiteral(n) => {
                lemma_utf8_len_ascii(w);
                lemma_utf8_len_subrange(s, at, at + len);
                lemma_byte_offset_bound(s, at + len);
                assert(unsigned_value(s.subrange(at, at + len), 10, usize::MAX as nat) == Some(n.value as nat));
                assert(number_at(s, n));
            },
            TokenModel::UniverseLiteral(u) => {
                assert(s.subrange(at, at + 4) =~= w.take(4));
                assert(text_at(s, seq!['T', 'y', 'p', 'e'], start));
            },
            TokenModel::EnumKw(e) => {
                assert(s.subrange(at, at + 4) =~= w.take(4));
                assert(text_at(s, seq!['e', 'n', 'u', 'm'], start));
            },
            TokenModel::Ident { value, start: st0 } => {
                assert(text_at(s, value, st0));
            },
            _ => {
                assert(token_in_source(s, t));
            },
        }
    }
}

/// A pending `-` is backed by a `-` in the source, and by `->` when a `>`
/// follows it.
proof fn lemma_dash_in_source(s: Seq<char>, start: ByteIndex, n: int)
    requires
        0 <= n <= s.len(),
        state_wf(s, State::Dash(start), n),
    ensures
        text_at(s, seq!['-'], start),
        n < s.len() && s[n] == '>' ==> text_at(s, seq!['-', '>'], start),
{
    assert(s.subrange(n - 1, n - 1 + 1) =~= seq!['-']);
    if n < s.len() && s[n] == '>' {
        assert(s.subrange(n - 1, n - 1 + 2) =~= seq!['-', '>']);
    }
}

/// Finishing a pending state adds at most a token that starts where the
/// pending text does.
proof fn lemma_finish_tokens(s: Seq<char>, st: State, out: Seq<TokenModel>, p: nat)
    requires
        finish_ready(s, st),
        utf8_len(s) <= usize::MAX,
        tokens_inv(s, out, p),
        st matches State::Word { start, .. } ==> p == start.0,
        st matches State::String { start, .. } ==> p == start.0,
        st matches State::Dash(start) ==> p == start.0 && text_at(s, seq!['-'], start),
    ensures
        finish(s, st, out) matches Ok(out2) ==> tokens_inv(s, out2, p + 1),
{
    lemma_byte_offset_bound(s, 0);
    match st {
        State::Word { start, at, byte_len } => {
            let w = s.subrange(at as int, at + byte_len);
            lemma_word_token(w, start);
            lemma_word_token_in_source(s, at as int, byte_len as int, start);
            if let Some(t) = word_token(w, start) {
                lemma_tokens_inv_push(s, out, t, p, p + 1);
            }
        },
        State::String { start, at, .. } => {
            assert(s.subrange(at as int, at + 1) =~= seq!['"']);
            assert(text_at(s, seq!['"'], start));
            if let Ok(out2) = finish(s, st, out) {
                lemma_tokens_inv_push(s, out, out2.last(), p, p + 1);
                assert(out2 =~= out.push(out2.last()));
            }
        },
        State::Dash(start) => {
            lemma_tokens_inv_push(s, out, TokenModel::Dash(start), p, p + 1);
        },
        _ => {},
    }
}

/// The main state keeps the tokens in order and before the pending text.
proof fn lemma_main_step_tokens(s: Seq<char>, out: Seq<TokenModel>, i: int)
    requires
        0 <= i < s.len(),
        utf8_len(s) <= usize::MAX,
        tokens_inv(s, out, byte_offset(s, i)),
    ensures
        main_step(s, out, i) matches Ok((st2, out2)) ==> tokens_inv(s, out2, pending_start(s, st2, i + 1)),
{
    lemma_byte_offset_bound(s, i + 1);
    lemma_byte_offset_step(s, i);
    let b = byte_offset(s, i);
    assert(s.subrange(i, i + 1) =~= seq![s[i]]);
    assert(text_at(s, seq![s[i]], ByteIndex(b as usize)));
    if let Ok((st2, out2)) = main_step(s, out, i) {
        if out2.len() > out.len() {
            lemma_tokens_inv_push(s, out, out2.last(), b, b + 1);
            assert(out2 =~= out.push(out2.last()));
            lemma_tokens_inv_weaken(s, out2, b + 1, pending_start(s, st2, i + 1));
        } else {
            lemma_tokens_inv_weaken(s, out2, b, pending_start(s, st2, i + 1));
        }
    }
}

#[verifier::spinoff_prover]
proof fn lemma_run_tokens(s: Seq<char>, n: int)
    requires
        0 <= n <= s.len(),
        utf8_len(s) <= usize::MAX,
    ensures
        run(s, n) matches Ok((st, out)) ==> tokens_inv(s, out, pending_start(s, st, n)),
    decreases n,
{
    if n == 0 {
        return;
    }
    let i = n - 1;
    lemma_run_tokens(s, i);
    lemma_run_wf(s, i);
    lemma_byte_offset_bound(s, n);
    lemma_byte_offset_bound(s, 0);
    lemma_byte_offset_step(s, i);
    if let Ok((st, out)) = run(s, i) {
        let c = s[i];
        match st {
            State::Main => {
                lemma_main_step_tokens(s, out, i);
            },
            State::Word { start, at, byte_len } => {
                lemma_byte_offset_mono(s, at as int, i);
                if is_word_char(c) {
                } else if c == '*' {
                    let st2 = State::Word { start, at, byte_len: (byte_len + 1) as usize };
                    assert forall|k: int| at <= k < at + byte_len + 1 implies (#[trigger] s[k] as u32) < 0x80 by {
                        if k < i {
                            assert(is_word_char(s[k]));
                        }
                    }
                    lemma_finish_tokens(s, st2, out, start.0 as nat);
                    if let Ok(out2) = finish(s, st2, out) {
                        lemma_tokens_inv_weaken(s, out2, (start.0 + 1) as nat, byte_offset(s, n));
                    }
                } else {
                    lemma_wf_finish_ready(s, st, i);
                    lemma_finish_tokens(s, st, out, start.0 as nat);
                    if let Ok(out2) = finish(s, st, out) {
                        lemma_tokens_inv_weaken(s, out2, (start.0 + 1) as nat, byte_offset(s, i));
                        lemma_main_step_tokens(s, out2, i);
                    }
                }
            },
            State::String { start, at, char_len, byte_len } => {
                let st2 = State::String {
                    start,
                    at,
                    char_len: (char_len + 1) as usize,
                    byte_len: (byte_len + char_width(c)) as usize,
                };
                if c == '"' {
                    lemma_byte_offset_mono(s, at as int, n);
                    lemma_wf_finish_ready(s, st2, n);
                    lemma_finish_tokens(s, st2, out, start.0 as nat);
                    if let Ok(out2) = finish(s, st2, out) {
                        lemma_tokens_inv_weaken(s, out2, (start.0 + 1) as nat, byte_offset(s, n));
                    }
                }
            },
            State::Slash(start) => {
                lemma_tokens_inv_weaken(s, out, start.0 as nat, byte_offset(s, n));
            },
            State::Dash(start) => {
                lemma_dash_in_source(s, start, i);
                if c == '>' {
                    lemma_tokens_inv_push(s, out, TokenModel::ThinArrow(start), start.0 as nat, byte_offset(s, n));
                } else {
                    lemma_wf_finish_ready(s, st, i);
                    lemma_finish_tokens(s, st, out, start.0 as nat);
                    if let Ok(out2) = finish(s, st, out) {
                        lemma_main_step_tokens(s, out2, i);
                    }
                }
            },
            State::SingleLineComment => {
                lemma_tokens_inv_weaken(s, out, byte_offset(s, i), byte_offset(s, n));
            },
        }
    }
}

proof fn lemma_lex_tokens(s: Seq<char>)
    requires
        utf8_len(s) <= usize::MAX,
        !ends_in_uncut_string(s),
    ensures
        lex_result(s) matches Ok(ts) ==> tokens_inv(s, ts, utf8_len(s)),
{
    let n = s.len() as int;
    lemma_run_tokens(s, n);
    lemma_run_wf(s, n);
    lemma_byte_offset_end(s);
    lemma_byte_offset_bound(s, 0);
    if let Ok((st, out)) = run(s, n) {
        lemma_wf_finish_ready(s, st, n);
        match st {
            State::Main => {},
            State::SingleLineComment => {},
            State::Word { start, at, .. } => {
                lemma_byte_offset_bound(s, at as int);
                lemma_finish_tokens(s, st, out, start.0 as nat);
                if let Ok(out2) = finish(s, st, out) {
                    lemma_tokens_inv_weaken(s, out2, (start.0 + 1) as nat, utf8_len(s));
                }
            },
            State::String { start, at, .. } => {
                lemma_byte_offset_bound(s, at as int);
                lemma_finish_tokens(s, st, out, start.0 as nat);
                if let Ok(out2) = finish(s, st, out) {
                    lemma_tokens_inv_weaken(s, out2, (start.0 + 1) as nat, utf8_len(s));
                }
            },
            State::Slash(_) => {},
            State::Dash(start) => {
                lemma_dash_in_source(s, start, n);
                lemma_finish_tokens(s, st, out, start.0 as nat);
            },
        }
    }
}

/// The tokens come in the order of the text: each starts after the one
/// before it, and all start within the text.
pub proof fn law_tokens_in_source_order(s: Seq<char>)
    requires
        utf8_len(s) <= usize::MAX,
        !ends_in_uncut_string(s),
    ensures
        lex_result(s) matches Ok(ts) ==> starts_increase(ts) && starts_below(ts, utf8_len(s)),
{
    lemma_lex_tokens(s);
}

/// Every identifier is the text of the source at the byte where it starts.
pub proof fn law_identifiers_are_source_text(s: Seq<char>)
    requires
        utf8_len(s) <= usize::MAX,
        !ends_in_uncut_string(s),
    ensures
        lex_result(s) matches Ok(ts) ==> idents_from_source(s, ts),
{
    lemma_lex_tokens(s);
}

/// Every token is backed by the source text at its position: the text of
/// its punctuation or keyword, the identifier's own text, the numeral of a
/// number literal (between the bytes of its span), `Type` or `enum` at the
/// start of a universe literal or `enum` keyword, and the quote that opens
/// a string literal.
pub proof fn law_tokens_are_source_text(s: Seq<char>)
    requires
        utf8_len(s) <= usize::MAX,
        !ends_in_uncut_string(s),
    ensures
        lex_result(s) matches Ok(ts) ==> tokens_from_source(s, ts),
{
    lemma_lex_tokens(s);
}

} // verus!
