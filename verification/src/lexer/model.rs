//! The lexer as a state machine over the characters of the source text.
use vstd::prelude::*;
use crate::numeral::unsigned_value;
use crate::text::{utf8_len, byte_offset, char_width, lemma_byte_offset_bound, lemma_byte_offset_step};
use crate::token::{ByteIndex, EnumKw, NumberLiteral, TokenModel, UniverseLiteral};
use super::string_parser::string_value;
use super::LexError;

verus! {

/// Where the lexer stands between two characters.
#[derive(Clone, Copy)]
pub enum State {
    Main,
    /// A word of `byte_len` characters that began with the character at
    /// `at`, at byte `start`.
    Word { start: ByteIndex, at: usize, byte_len: usize },
    /// A string literal of `char_len` characters (`byte_len` bytes) so far,
    /// quote included, that began with the quote at `at`, at byte `start`.
    String { start: ByteIndex, at: usize, char_len: usize, byte_len: usize },
    /// A `/` at the given byte.
    Slash(ByteIndex),
    /// A `-` at the given byte.
    Dash(ByteIndex),
    SingleLineComment,
}

/// A character that words are made of.
pub open spec fn is_word_char(c: char) -> bool {
    ('a' <= c <= 'z') || ('A' <= c <= 'Z') || c == '_' || ('0' <= c <= '9')
}

/// A character that an identifier may begin with.
pub open spec fn is_ident_start(c: char) -> bool {
    ('a' <= c <= 'z') || ('A' <= c <= 'Z') || c == '_'
}

/// The level after `Type` or `enum`: nothing means 0, otherwise a decimal
/// number without leading zeros.
pub open spec fn universe_level(s: Seq<char>) -> Option<usize> {
    if s.len() == 0 {
        Some(0)
    } else if s[0] == '0' {
        None
    } else {
        match unsigned_value(s, 10, usize::MAX as nat) {
            Some(v) => Some(v as usize),
            None => None,
        }
    }
}

/// The level and erasability after `Type` or `enum`; a final `*` marks
/// the erasable kind.
pub open spec fn universe_level_and_erasability(s: Seq<char>) -> Option<(usize, bool)> {
    if s.len() > 0 && s.last() == '*' {
        match universe_level(s.drop_last()) {
            Some(l) => Some((l, true)),
            None => None,
        }
    } else {
        match universe_level(s) {
            Some(l) => Some((l, false)),
            None => None,
        }
    }
}

/// The token that the word `s` at byte `start` stands for, if any.
pub open spec fn word_token(s: Seq<char>, start: ByteIndex) -> Option<TokenModel> {
    match unsigned_value(s, 10, usize::MAX as nat) {
        Some(v) => Some(
            TokenModel::NumberLiteral(
                NumberLiteral {
                    value: v as usize,
                    span: (start, ByteIndex((start.0 + s.len()) as usize)),
                },
            ),
        ),
        None => if s == seq!['_'] {
            Some(TokenModel::Underscore(start))
        } else if s == seq!['d', 'e', 'f'] {
            Some(TokenModel::DefKw(start))
        } else if s == seq!['m', 'a', 't', 'c', 'h'] {
            Some(TokenModel::MatchKw(start))
        } else if s == seq!['F', 'o', 'r'] {
            Some(TokenModel::ForKw(start))
        } else if s == seq!['c', 'a', 's', 'e'] {
            Some(TokenModel::CaseKw(start))
        } else if s == seq!['u', 's', 'e'] {
            Some(TokenModel::UseKw(start))
        } else if s == seq!['e', 'n', 'd'] {
            Some(TokenModel::EndKw(start))
        } else if s == seq!['d', 'e', 'c'] {
            Some(TokenModel::DecKw(start))
        } else if s.len() >= 4 && s.take(4) == seq!['T', 'y', 'p', 'e'] {
            match universe_level_and_erasability(s.skip(4)) {
                Some((level, erasable)) => Some(
                    TokenModel::UniverseLiteral(UniverseLiteral { level, start, erasable }),
                ),
                None => None,
            }
        } else if s.len() >= 4 && s.take(4) == seq!['e', 'n', 'u', 'm'] {
            match universe_level_and_erasability(s.skip(4)) {
                Some((level, erasable)) => Some(TokenModel::EnumKw(EnumKw { level, start, erasable })),
                None => None,
            }
        } else if s.len() == 0 {
            None
        } else if is_ident_start(s[0]) {
            Some(TokenModel::Ident { value: s, start })
        } else {
            None
        },
    }
}

/// The character `src[i]` seen in the main state.
pub open spec fn main_step(src: Seq<char>, out: Seq<TokenModel>, i: int) -> Result<
    (State, Seq<TokenModel>),
    LexError,
> {
    let c = src[i];
    let b = ByteIndex(byte_offset(src, i) as usize);
    if c == ' ' || c == '\t' || c == '\n' {
        Ok((State::Main, out))
    } else if c == '"' {
        Ok((State::String { start: b, at: i as usize, char_len: 1, byte_len: 1 }, out))
    } else if is_word_char(c) {
        Ok((State::Word { start: b, at: i as usize, byte_len: 1 }, out))
    } else if c == '(' {
        Ok((State::Main, out.push(TokenModel::LParen(b))))
    } else if c == ')' {
        Ok((State::Main, out.push(TokenModel::RParen(b))))
    } else if c == '[' {
        Ok((State::Main, out.push(TokenModel::LSquare(b))))
    } else if c == ']' {
        Ok((State::Main, out.push(TokenModel::RSquare(b))))
    } else if c == '=' {
        Ok((State::Main, out.push(TokenModel::Eq(b))))
    } else if c == ':' {
        Ok((State::Main, out.push(TokenModel::Colon(b))))
    } else if c == ',' {
        Ok((State::Main, out.push(TokenModel::Comma(b))))
    } else if c == '^' {
        Ok((State::Main, out.push(TokenModel::Caret(b))))
    } else if c == '-' {
        Ok((State::Dash(b), out))
    } else if c == '/' {
        Ok((State::Slash(b), out))
    } else {
        Err(LexError(b, ByteIndex((b.0 + char_width(c)) as usize)))
    }
}

/// The token that a pending state stands for, added to `out`, or the
/// error that it is.
pub open spec fn finish(src: Seq<char>, st: State, out: Seq<TokenModel>) -> Result<
    Seq<TokenModel>,
    LexError,
> {
    match st {
        State::Main => Ok(out),
        State::Word { start, at, byte_len } => match word_token(
            src.subrange(at as int, at + byte_len),
            start,
        ) {
            Some(t) => Ok(out.push(t)),
            None => Err(LexError(start, ByteIndex((start.0 + byte_len) as usize))),
        },
        State::String { start, at, char_len, byte_len } => {
            let quote_exclusive_start = (start.0 + 1) as usize;
            match string_value(src.subrange(at + 1, at + char_len - 1)) {
                Ok(value) => Ok(
                    out.push(
                        TokenModel::StringLiteral {
                            value,
                            span: (start, ByteIndex((start.0 + byte_len) as usize)),
                        },
                    ),
                ),
                Err(local) => Err(
                    LexError(
                        ByteIndex((quote_exclusive_start + local.0.0) as usize),
                        ByteIndex((quote_exclusive_start + local.1.0) as usize),
                    ),
                ),
            }
        },
        State::Slash(start) => Err(LexError(start, ByteIndex((start.0 + 1) as usize))),
        State::Dash(start) => Ok(out.push(TokenModel::Dash(start))),
        State::SingleLineComment => Ok(out),
    }
}

/// One character of the lexer: `src[i]` seen in state `st` with the
/// tokens `out` so far.
pub open spec fn step(src: Seq<char>, st: State, out: Seq<TokenModel>, i: int) -> Result<
    (State, Seq<TokenModel>),
    LexError,
> {
    let c = src[i];
    let b = byte_offset(src, i);
    match st {
        State::Main => main_step(src, out, i),
        State::Word { start, at, byte_len } => if is_word_char(c) {
            Ok((State::Word { start, at, byte_len: (byte_len + 1) as usize }, out))
        } else if c == '*' {
            match finish(src, State::Word { start, at, byte_len: (byte_len + 1) as usize }, out) {
                Ok(out2) => Ok((State::Main, out2)),
                Err(e) => Err(e),
            }
        } else {
            match finish(src, st, out) {
                Ok(out2) => main_step(src, out2, i),
                Err(e) => Err(e),
            }
        },
        State::String { start, at, char_len, byte_len } => {
            let st2 = State::String {
                start,
                at,
                char_len: (char_len + 1) as usize,
                byte_len: (byte_len + char_width(c)) as usize,
            };
            if c == '"' {
                match finish(src, st2, out) {
                    Ok(out2) => Ok((State::Main, out2)),
                    Err(e) => Err(e),
                }
            } else {
                Ok((st2, out))
            }
        },
        State::Slash(_) => if c == '/' {
            Ok((State::SingleLineComment, out))
        } else {
            match finish(src, st, out) {
                Ok(out2) => main_step(src, out2, i),
                Err(e) => Err(e),
            }
        },
        State::Dash(_) => if c == '>' {
            Ok((State::Main, out.push(TokenModel::ThinArrow(ByteIndex((b - 1) as usize)))))
        } else {
            match finish(src, st, out) {
                Ok(out2) => main_step(src, out2, i),
                Err(e) => Err(e),
            }
        },
        State::SingleLineComment => if c == '\n' {
            Ok((State::Main, out))
        } else {
            Ok((State::SingleLineComment, out))
        },
    }
}

/// The lexer after the first `n` characters of `src`.
pub open spec fn run(src: Seq<char>, n: int) -> Result<(State, Seq<TokenModel>), LexError>
    decreases n,
{
    if n <= 0 {
        Ok((State::Main, Seq::empty()))
    } else {
        match run(src, n - 1) {
            Err(e) => Err(e),
            Ok((st, out)) => step(src, st, out, n - 1),
        }
    }
}

/// The tokens of `src`, or the first lexical error in it.
pub open spec fn lex_result(src: Seq<char>) -> Result<Seq<TokenModel>, LexError> {
    match run(src, src.len() as int) {
        Err(e) => Err(e),
        Ok((st, out)) => finish(src, st, out),
    }
}

/// Whether `src` ends inside a string literal whose text cannot be cut
/// off before its last character: the literal is only its opening quote,
/// or its last character takes more than one byte.
pub open spec fn ends_in_uncut_string(src: Seq<char>) -> bool {
    match run(src, src.len() as int) {
        Ok((State::String { at, char_len, .. }, _)) => char_len < 2 || char_width(
            src[at + char_len - 1],
        ) != 1,
        _ => false,
    }
}

/// What a state of the lexer holds after `n` characters.
pub open spec fn state_wf(src: Seq<char>, st: State, n: int) -> bool {
    match st {
        State::Main => true,
        State::SingleLineComment => true,
        State::Word { start, at, byte_len } => {
            &&& at + byte_len == n
            &&& byte_len >= 1
            &&& start.0 == byte_offset(src, at as int)
            &&& start.0 + byte_len == byte_offset(src, n)
            &&& forall|k: int| at <= k < n ==> is_word_char(#[trigger] src[k])
        },
        State::String { start, at, char_len, byte_len } => {
            &&& at + char_len == n
            &&& char_len >= 1
            &&& start.0 == byte_offset(src, at as int)
            &&& start.0 + byte_len == byte_offset(src, n)
            &&& src[at as int] == '"'
        },
        State::Slash(start) => {
            &&& n >= 1
            &&& start.0 == byte_offset(src, n - 1)
            &&& start.0 + 1 == byte_offset(src, n)
            &&& src[n - 1] == '/'
        },
        State::Dash(start) => {
            &&& n >= 1
            &&& start.0 == byte_offset(src, n - 1)
            &&& start.0 + 1 == byte_offset(src, n)
            &&& src[n - 1] == '-'
        },
    }
}

/// What `finish` needs of a pending state.
pub open spec fn finish_ready(src: Seq<char>, st: State) -> bool {
    match st {
        State::Main => true,
        State::SingleLineComment => true,
        State::Word { start, at, byte_len } => {
            &&& at + byte_len <= src.len()
            &&& start.0 == byte_offset(src, at as int)
            &&& forall|k: int| at <= k < at + byte_len ==> (#[trigger] src[k] as u32) < 0x80
        },
        State::String { start, at, char_len, byte_len } => {
            &&& 2 <= char_len
            &&& at + char_len <= src.len()
            &&& start.0 == byte_offset(src, at as int)
            &&& start.0 + byte_len == byte_offset(src, at + char_len)
            &&& char_width(src[at + char_len - 1]) == 1
            &&& src[at as int] == '"'
        },
        State::Slash(start) => start.0 < utf8_len(src),
        State::Dash(start) => start.0 < utf8_len(src),
    }
}

/// Once the lexer has failed, it stays failed with the same error.
pub proof fn lemma_run_err(src: Seq<char>, m: int, n: int)
    requires
        0 <= m <= n,
        run(src, m) is Err,
    ensures
        run(src, n) == run(src, m),
    decreases n - m,
{
    if m < n {
        lemma_run_err(src, m, n - 1);
    }
}

/// The main state leaves a well-formed state behind.
pub proof fn lemma_main_step_wf(src: Seq<char>, out: Seq<TokenModel>, i: int)
    requires
        0 <= i < src.len(),
        utf8_len(src) <= usize::MAX,
    ensures
        main_step(src, out, i) matches Ok((st, _)) ==> state_wf(src, st, i + 1),
{
    lemma_byte_offset_bound(src, i + 1);
    lemma_byte_offset_bound(src, 0);
    lemma_byte_offset_step(src, i);
}

/// The states the lexer passes through are well formed.
pub proof fn lemma_run_wf(src: Seq<char>, n: int)
    requires
        0 <= n <= src.len(),
        utf8_len(src) <= usize::MAX,
    ensures
        run(src, n) matches Ok((st, _)) ==> state_wf(src, st, n),
    decreases n,
{
    if n > 0 {
        let i = n - 1;
        lemma_run_wf(src, i);
        lemma_byte_offset_bound(src, n);
        lemma_byte_offset_bound(src, 0);
        lemma_byte_offset_step(src, i);
        if let Ok((st, out)) = run(src, i) {
            match finish(src, st, out) {
                Ok(out2) => lemma_main_step_wf(src, out2, i),
                Err(_) => {},
            }
            lemma_main_step_wf(src, out, i);
            if let State::Word { start, at, byte_len } = st {
                if is_word_char(src[i]) {
                    assert forall|k: int| at <= k < n implies is_word_char(#[trigger] src[k]) by {
                        if k < i {
                        }
                    }
                }
            }
        }
    }
}

/// A well-formed state seen at a character that does not continue it is
/// ready to be finished.
pub proof fn lemma_wf_finish_ready(src: Seq<char>, st: State, n: int)
    requires
        0 <= n <= src.len(),
        utf8_len(src) <= usize::MAX,
        state_wf(src, st, n),
        st matches State::String { char_len, at, .. } ==> char_len >= 2 && char_width(src[at + char_len - 1]) == 1,
    ensures
        finish_ready(src, st),
{
    lemma_byte_offset_bound(src, n);
    if n > 0 {
        lemma_byte_offset_step(src, n - 1);
    }
    if let State::Word { start, at, byte_len } = st {
        assert forall|k: int| at <= k < at + byte_len implies (#[trigger] src[k] as u32) < 0x80 by {
            assert(is_word_char(src[k]));
        }
    }
}

} // verus!
