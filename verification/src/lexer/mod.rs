pub mod composition;
pub mod laws;
pub mod model;
pub mod string_laws;
pub mod token_laws;
pub mod string_parser;

use vstd::prelude::*;
use crate::numeral::parse_unsigned;
use crate::text::{byte_offset, char_width, chars_of, eq_text, len_utf8, string_of, utf8_len};
use crate::text::{
    lemma_byte_offset_bound, lemma_byte_offset_mono, lemma_byte_offset_step, lemma_utf8_len_ascii,
    lemma_utf8_len_subrange,
};
use crate::token::{
    ByteIndex, EnumKw, Ident, NumberLiteral, StringLiteral, Token, TokenModel, UniverseLiteral,
    lemma_tokens_model_push, tokens_model,
};
use model::{
    State, ends_in_uncut_string, finish, finish_ready, lex_result, main_step, run, state_wf, step,
    universe_level, universe_level_and_erasability, word_token,
};
use model::{lemma_run_err, lemma_run_wf, lemma_wf_finish_ready};
use string_parser::{decode_string, lemma_string_value_err_span};

verus! {

/// A lexical error: the span of the offending text.
#[derive(Clone, Debug, PartialEq, Eq, Hash)]
pub struct LexError(pub ByteIndex, pub ByteIndex);

/// Splits `s` into tokens, or reports the span of the first lexical error.
///
/// Whitespace (space, tab, newline) separates tokens, `//` starts a comment
/// that runs to the end of the line, `"` opens a string literal that runs
/// to the next `"`, and a word of letters, digits and `_` (with an
/// optional final `*`) is a number, a keyword, a universe literal or an
/// identifier.
///
/// A string literal still open at the end of the text is taken to end
/// there, and its text is cut before its last character. Texts where that
/// cut is impossible (the literal is only its quote, or its last character
/// takes more than one byte) are not accepted; `ends_in_uncut_string_literal`
/// tells them apart.
pub fn lex(s: &str) -> (r: Result<Vec<Token>, LexError>)
    requires
        utf8_len(s@) <= usize::MAX,
        !ends_in_uncut_string(s@),
    ensures
        match r {
            Ok(ts) => lex_result(s@) == Ok::<Seq<TokenModel>, LexError>(tokens_model(ts@)),
            Err(e) => lex_result(s@) == Err::<Seq<TokenModel>, LexError>(e),
        },
{
    let chars = chars_of(s);
    Lexer::new(chars.as_slice()).lex()
}

/// Whether `s` is one of the texts that `lex` does not accept: text that
/// ends inside a string literal that is only its opening quote, or whose
/// last character takes more than one byte (the literal's text cannot be
/// cut before that character).
pub fn ends_in_uncut_string_literal(s: &str) -> (b: bool)
    requires
        utf8_len(s@) <= usize::MAX,
    ensures
        b == ends_in_uncut_string(s@),
{
    let chars = chars_of(s);
    let mut lexer = Lexer::new(chars.as_slice());
    match lexer.handle_all_chars() {
        Err(_) => false,
        Ok(()) => match lexer.state {
            State::String { at, char_len, .. } => char_len < 2 || len_utf8(chars[at + char_len - 1]) != 1,
            _ => false,
        },
    }
}

/// Whether a step's outcome `res` is what a handler returned (`r`) and
/// left behind (`st`, `out`); when the step fails, the handler leaves
/// `failed` behind.
pub open spec fn step_outcome(
    res: Result<(State, Seq<TokenModel>), LexError>,
    r: Result<(), LexError>,
    st: State,
    out: Seq<TokenModel>,
    failed: (State, Seq<TokenModel>),
) -> bool {
    match res {
        Ok((st2, out2)) => r is Ok && st == st2 && out == out2,
        Err(e) => r == Err::<(), LexError>(e) && st == failed.0 && out == failed.1,
    }
}

/// The state and tokens that a pending state leaves behind once it has
/// been finished: the main state and the new tokens, or, if finishing
/// fails, the pending state and the tokens as they were.
pub open spec fn after_finish(src: Seq<char>, st: State, out: Seq<TokenModel>) -> (State, Seq<TokenModel>) {
    match finish(src, st, out) {
        Ok(out2) => (State::Main, out2),
        Err(_) => (st, out),
    }
}

/// What the lexer leaves behind when the character `src[i]` seen in state
/// `st` is an error: whatever it had done to the state and the tokens
/// before it met the error, and nothing more.
pub open spec fn failed_step(src: Seq<char>, st: State, out: Seq<TokenModel>, i: int) -> (State, Seq<TokenModel>) {
    let c = src[i];
    match st {
        State::Word { start, at, byte_len } => if c == '*' {
            (State::Word { start, at, byte_len: (byte_len + 1) as usize }, out)
        } else {
            after_finish(src, st, out)
        },
        State::String { start, at, char_len, byte_len } => (
            State::String {
                start,
                at,
                char_len: (char_len + 1) as usize,
                byte_len: (byte_len + char_width(c)) as usize,
            },
            out,
        ),
        State::Dash(_) => after_finish(src, st, out),
        _ => (st, out),
    }
}

/// Whether a finish's outcome `res` is what was returned (`r`) and left
/// behind (`out`); a failed finish leaves the tokens as they were.
pub open spec fn finish_outcome(
    res: Result<Seq<TokenModel>, LexError>,
    r: Result<(), LexError>,
    out: Seq<TokenModel>,
    old_out: Seq<TokenModel>,
) -> bool {
    match res {
        Ok(out2) => r is Ok && out == out2,
        Err(e) => r == Err::<(), LexError>(e) && out == old_out,
    }
}

struct Lexer<'a> {
    src: &'a [char],
    out: Vec<Token>,
    state: State,
}

impl<'a> Lexer<'a> {
    fn new(src: &'a [char]) -> (l: Self)
        ensures
            l.src@ == src@,
            l.out@ == Seq::<Token>::empty(),
            l.state == State::Main,
    {
        Lexer { src, out: Vec::new(), state: State::Main }
    }
}

impl Lexer<'_> {
    fn lex(self) -> (r: Result<Vec<Token>, LexError>)
        requires
            self.out@ == Seq::<Token>::empty(),
            self.state == State::Main,
            utf8_len(self.src@) <= usize::MAX,
            !ends_in_uncut_string(self.src@),
        ensures
            match r {
                Ok(ts) => lex_result(self.src@) == Ok::<Seq<TokenModel>, LexError>(tokens_model(ts@)),
                Err(e) => lex_result(self.src@) == Err::<Seq<TokenModel>, LexError>(e),
            },
    {
        let mut lexer = self;
        let ghost src = lexer.src@;
        match lexer.handle_all_chars() {
            Ok(()) => {},
            Err(e) => return Err(e),
        }
        proof {
            lemma_wf_finish_ready(src, lexer.state, src.len() as int);
        }
        match lexer.finish_pending_state_and_reset() {
            Ok(()) => Ok(lexer.out),
            Err(e) => Err(e),
        }
    }

    /// Feeds every character of the source to the lexer, stopping at the
    /// first error.
    fn handle_all_chars(&mut self) -> (r: Result<(), LexError>)
        requires
            old(self).out@ == Seq::<Token>::empty(),
            old(self).state == State::Main,
            utf8_len(old(self).src@) <= usize::MAX,
        ensures
            final(self).src == old(self).src,
            match r {
                Ok(()) => run(old(self).src@, old(self).src@.len() as int) == Ok::<(State, Seq<TokenModel>), LexError>(
                    (final(self).state, tokens_model(final(self).out@)),
                ),
                Err(e) => run(old(self).src@, old(self).src@.len() as int) == Err::<(State, Seq<TokenModel>), LexError>(e),
            },
            r is Ok ==> state_wf(old(self).src@, final(self).state, old(self).src@.len() as int),
    {
        let ghost src = self.src@;
        assert(tokens_model(self.out@) =~= Seq::<TokenModel>::empty());
        let n = self.src.len();
        let mut i: usize = 0;
        let mut pos: usize = 0;
        while i < n
            invariant
                self.src@ == src,
                self.src == old(self).src,
                n == src.len(),
                utf8_len(src) <= usize::MAX,
                0 <= i <= n,
                pos == byte_offset(src, i as int),
                run(src, i as int) == Ok::<(State, Seq<TokenModel>), LexError>(
                    (self.state, tokens_model(self.out@)),
                ),
            decreases n - i,
        {
            let current = self.src[i];
            proof {
                lemma_run_wf(src, i as int);
                lemma_byte_offset_step(src, i as int);
                lemma_byte_offset_bound(src, i as int + 1);
            }
            match self.handle_char(i, ByteIndex(pos), current) {
                Ok(()) => {},
                Err(e) => {
                    proof {
                        lemma_run_err(src, i as int + 1, n as int);
                    }
                    return Err(e);
                },
            }
            pos = pos + len_utf8(current);
            i = i + 1;
        }
        proof {
            lemma_run_wf(src, n as int);
        }
        Ok(())
    }

    fn push(&mut self, t: Token)
        ensures
            final(self).src == old(self).src,
            final(self).state == old(self).state,
            tokens_model(final(self).out@) == tokens_model(old(self).out@).push(t@),
    {
        proof {
            lemma_tokens_model_push(self.out@, t);
        }
        self.out.push(t);
    }

    fn handle_char(&mut self, at: usize, current_index: ByteIndex, current: char) -> (r: Result<(), LexError>)
        requires
            at < old(self).src@.len(),
            current == old(self).src@[at as int],
            current_index.0 == byte_offset(old(self).src@, at as int),
            utf8_len(old(self).src@) <= usize::MAX,
            state_wf(old(self).src@, old(self).state, at as int),
        ensures
            final(self).src == old(self).src,
            step_outcome(
                step(old(self).src@, old(self).state, tokens_model(old(self).out@), at as int),
                r,
                final(self).state,
                tokens_model(final(self).out@),
                failed_step(old(self).src@, old(self).state, tokens_model(old(self).out@), at as int),
            ),
    {
        match self.state {
            State::Main => self.handle_char_assuming_state_is_main(at, current_index, current),
            State::Word { start, at: word_at, byte_len } => {
                self.handle_char_assuming_state_is_word(at, current_index, current, start, word_at, byte_len)
            },
            State::String { start, at: string_at, char_len, byte_len } => {
                self.handle_char_assuming_state_is_string(at, current, start, string_at, char_len, byte_len)
            },
            State::Slash(_) => self.handle_char_assuming_state_is_slash(at, current_index, current),
            State::Dash(_) => self.handle_char_assuming_state_is_dash(at, current_index, current),
            State::SingleLineComment => {
                self.handle_char_assuming_state_is_single_line_comment(at, current)
            },
        }
    }

    fn handle_char_assuming_state_is_main(&mut self, at: usize, current_index: ByteIndex, current: char) -> (r: Result<(), LexError>)
        requires
            old(self).state == State::Main,
            at < old(self).src@.len(),
            current == old(self).src@[at as int],
            current_index.0 == byte_offset(old(self).src@, at as int),
            utf8_len(old(self).src@) <= usize::MAX,
        ensures
            final(self).src == old(self).src,
            step_outcome(
                main_step(old(self).src@, tokens_model(old(self).out@), at as int),
                r,
                final(self).state,
                tokens_model(final(self).out@),
                (old(self).state, tokens_model(old(self).out@)),
            ),
            r is Err ==> final(self).out == old(self).out,
    {
        proof {
            lemma_byte_offset_step(self.src@, at as int);
            lemma_byte_offset_bound(self.src@, at as int + 1);
        }
        match current {
            ' ' | '\t' | '\n' => {},
            '"' => {
                self.state = State::String { start: current_index, at, char_len: 1, byte_len: len_utf8('"') }
            },
            'a'..='z' | 'A'..='Z' | '_' | '0'..='9' => {
                self.state = State::Word { start: current_index, at, byte_len: 1 }
            },
            '(' => self.push(Token::LParen(current_index)),
            ')' => self.push(Token::RParen(current_index)),
            '[' => self.push(Token::LSquare(current_index)),
            ']' => self.push(Token::RSquare(current_index)),
            '=' => self.push(Token::Eq(current_index)),
            ':' => self.push(Token::Colon(current_index)),
            ',' => self.push(Token::Comma(current_index)),
            '^' => self.push(Token::Caret(current_index)),
            '-' => self.state = State::Dash(current_index),
            '/' => self.state = State::Slash(current_index),
            _ => {
                return Err(LexError(current_index, ByteIndex(current_index.0 + len_utf8(current))));
            },
        }
        Ok(())
    }

    fn handle_char_assuming_state_is_word(
        &mut self,
        at: usize,
        current_index: ByteIndex,
        current: char,
        start: ByteIndex,
        word_at: usize,
        byte_len: usize,
    ) -> (r: Result<(), LexError>)
        requires
            old(self).state == (State::Word { start, at: word_at, byte_len }),
            at < old(self).src@.len(),
            current == old(self).src@[at as int],
            current_index.0 == byte_offset(old(self).src@, at as int),
            utf8_len(old(self).src@) <= usize::MAX,
            state_wf(old(self).src@, old(self).state, at as int),
        ensures
            final(self).src == old(self).src,
            step_outcome(
                step(old(self).src@, old(self).state, tokens_model(old(self).out@), at as int),
                r,
                final(self).state,
                tokens_model(final(self).out@),
                failed_step(old(self).src@, old(self).state, tokens_model(old(self).out@), at as int),
            ),
    {
        proof {
            lemma_byte_offset_bound(self.src@, at as int + 1);
            lemma_byte_offset_bound(self.src@, 0);
        }
        match current {
            'a'..='z' | 'A'..='Z' | '_' | '0'..='9' => {
                self.state = State::Word { start, at: word_at, byte_len: byte_len + 1 }
            },
            '*' => {
                self.state = State::Word { start, at: word_at, byte_len: byte_len + 1 };
                proof {
                    assert forall|k: int| word_at <= k < word_at + byte_len + 1 implies (#[trigger] self.src@[k] as u32) < 0x80 by {
                        if k < at {
                            assert(model::is_word_char(self.src@[k]));
                        }
                    }
                }
                self.finish_pending_state_and_reset()?;
            },
            _ => {
                proof {
                    lemma_wf_finish_ready(self.src@, self.state, at as int);
                }
                self.finish_pending_state_and_reset()?;
                self.handle_char_assuming_state_is_main(at, current_index, current)?;
            },
        }
        Ok(())
    }

    fn handle_char_assuming_state_is_string(
        &mut self,
        at: usize,
        current: char,
        start: ByteIndex,
        string_at: usize,
        char_len: usize,
        byte_len: usize,
    ) -> (r: Result<(), LexError>)
        requires
            old(self).state == (State::String { start, at: string_at, char_len, byte_len }),
            at < old(self).src@.len(),
            current == old(self).src@[at as int],
            utf8_len(old(self).src@) <= usize::MAX,
            state_wf(old(self).src@, old(self).state, at as int),
        ensures
            final(self).src == old(self).src,
            step_outcome(
                step(old(self).src@, old(self).state, tokens_model(old(self).out@), at as int),
                r,
                final(self).state,
                tokens_model(final(self).out@),
                failed_step(old(self).src@, old(self).state, tokens_model(old(self).out@), at as int),
            ),
            r is Err ==> final(self).out == old(self).out,
    {
        proof {
            lemma_byte_offset_step(self.src@, at as int);
            lemma_byte_offset_bound(self.src@, at as int + 1);
            lemma_byte_offset_bound(self.src@, 0);
        }
        self.state = State::String {
            start,
            at: string_at,
            char_len: char_len + 1,
            byte_len: byte_len + len_utf8(current),
        };
        if current == '"' {
            self.finish_pending_state_and_reset()?;
        }
        Ok(())
    }

    fn handle_char_assuming_state_is_slash(&mut self, at: usize, current_index: ByteIndex, current: char) -> (r: Result<(), LexError>)
        requires
            old(self).state is Slash,
            at < old(self).src@.len(),
            current == old(self).src@[at as int],
            current_index.0 == byte_offset(old(self).src@, at as int),
            utf8_len(old(self).src@) <= usize::MAX,
            state_wf(old(self).src@, old(self).state, at as int),
        ensures
            final(self).src == old(self).src,
            step_outcome(
                step(old(self).src@, old(self).state, tokens_model(old(self).out@), at as int),
                r,
                final(self).state,
                tokens_model(final(self).out@),
                failed_step(old(self).src@, old(self).state, tokens_model(old(self).out@), at as int),
            ),
            r is Err ==> final(self).out == old(self).out,
    {
        if current == '/' {
            self.state = State::SingleLineComment;
            return Ok(());
        }
        proof {
            lemma_wf_finish_ready(self.src@, self.state, at as int);
        }
        self.finish_pending_state_and_reset()?;
        self.handle_char_assuming_state_is_main(at, current_index, current)
    }

    fn handle_char_assuming_state_is_dash(&mut self, at: usize, current_index: ByteIndex, current: char) -> (r: Result<(), LexError>)
        requires
            old(self).state is Dash,
            at < old(self).src@.len(),
            current == old(self).src@[at as int],
            current_index.0 == byte_offset(old(self).src@, at as int),
            utf8_len(old(self).src@) <= usize::MAX,
            state_wf(old(self).src@, old(self).state, at as int),
        ensures
            final(self).src == old(self).src,
            step_outcome(
                step(old(self).src@, old(self).state, tokens_model(old(self).out@), at as int),
                r,
                final(self).state,
                tokens_model(final(self).out@),
                failed_step(old(self).src@, old(self).state, tokens_model(old(self).out@), at as int),
            ),
    {
        if current == '>' {
            proof {
                lemma_byte_offset_step(self.src@, at as int - 1);
            }
            let dash_index = ByteIndex(current_index.0 - len_utf8('-'));
            self.push(Token::ThinArrow(dash_index));
            self.state = State::Main;
            return Ok(());
        }
        proof {
            lemma_wf_finish_ready(self.src@, self.state, at as int);
        }
        self.finish_pending_state_and_reset()?;
        self.handle_char_assuming_state_is_main(at, current_index, current)
    }

    fn handle_char_assuming_state_is_single_line_comment(&mut self, at: usize, current: char) -> (r: Result<(), LexError>)
        requires
            old(self).state is SingleLineComment,
            at < old(self).src@.len(),
            current == old(self).src@[at as int],
        ensures
            final(self).src == old(self).src,
            step_outcome(
                step(old(self).src@, old(self).state, tokens_model(old(self).out@), at as int),
                r,
                final(self).state,
                tokens_model(final(self).out@),
                failed_step(old(self).src@, old(self).state, tokens_model(old(self).out@), at as int),
            ),
    {
        if current == '\n' {
            self.state = State::Main;
        }
        Ok(())
    }

    fn finish_pending_state_and_reset(&mut self) -> (r: Result<(), LexError>)
        requires
            finish_ready(old(self).src@, old(self).state),
            utf8_len(old(self).src@) <= usize::MAX,
        ensures
            final(self).src == old(self).src,
            finish_outcome(
                finish(old(self).src@, old(self).state, tokens_model(old(self).out@)),
                r,
                tokens_model(final(self).out@),
                tokens_model(old(self).out@),
            ),
            r is Ok ==> final(self).state == State::Main,
            r is Err ==> final(self).state == old(self).state && final(self).out == old(self).out,
    {
        self.finish_pending_state()?;
        self.state = State::Main;
        Ok(())
    }

    fn finish_pending_state(&mut self) -> (r: Result<(), LexError>)
        requires
            finish_ready(old(self).src@, old(self).state),
            utf8_len(old(self).src@) <= usize::MAX,
        ensures
            final(self).src == old(self).src,
            final(self).state == old(self).state,
            finish_outcome(
                finish(old(self).src@, old(self).state, tokens_model(old(self).out@)),
                r,
                tokens_model(final(self).out@),
                tokens_model(old(self).out@),
            ),
            r is Err ==> final(self).out == old(self).out,
    {
        proof {
            lemma_byte_offset_bound(self.src@, 0);
        }
        match self.state {
            State::Main => Ok(()),
            State::Word { start, at, byte_len } => {
                proof {
                    lemma_utf8_len_ascii(self.src@.subrange(at as int, at + byte_len));
                    lemma_utf8_len_subrange(self.src@, at as int, at + byte_len);
                    lemma_byte_offset_bound(self.src@, at + byte_len);
                }
                let word_src = &self.src[at..at + byte_len];
                let Some(word) = parse_word(word_src, start) else {
                    return Err(LexError(start, ByteIndex(start.0 + byte_len)));
                };
                self.push(word);
                Ok(())
            },
            State::String { start, at, char_len, byte_len } => {
                proof {
                    lemma_byte_offset_step(self.src@, at as int);
                    lemma_byte_offset_step(self.src@, at + char_len - 1);
                    lemma_byte_offset_mono(self.src@, at as int + 1, at + char_len - 1);
                    lemma_utf8_len_subrange(self.src@, at as int + 1, at + char_len - 1);
                    lemma_byte_offset_bound(self.src@, at + char_len);
                }
                let end = ByteIndex(start.0 + byte_len);
                let quote_exclusive_start = ByteIndex(start.0 + len_utf8('"'));
                let quote_exclusive_string_src = &self.src[at + 1..at + char_len - 1];
                proof {
                    lemma_string_value_err_span(quote_exclusive_string_src@);
                }
                let value = match decode_string(quote_exclusive_string_src) {
                    Ok(v) => v,
                    Err(local_span) => {
                        return Err(
                            LexError(
                                quote_exclusive_start + local_span.0,
                                quote_exclusive_start + local_span.1,
                            ),
                        );
                    },
                };
                self.push(Token::StringLiteral(StringLiteral { value, span: (start, end) }));
                Ok(())
            },
            State::Slash(start) => Err(LexError(start, ByteIndex(start.0 + len_utf8('/')))),
            State::Dash(start) => {
                self.push(Token::Dash(start));
                Ok(())
            },
            State::SingleLineComment => Ok(()),
        }
    }
}



fn parse_word(s: &[char], start: ByteIndex) -> (r: Option<Token>)
    requires
        start.0 + s@.len() <= usize::MAX,
    ensures
        match r {
            Some(t) => word_token(s@, start) == Some(t@),
            None => word_token(s@, start) is None,
        },
{
    let underscore = ['_'];
    let def = ['d', 'e', 'f'];
    let match_ = ['m', 'a', 't', 'c', 'h'];
    let for_ = ['F', 'o', 'r'];
    let case = ['c', 'a', 's', 'e'];
    let use_ = ['u', 's', 'e'];
    let end = ['e', 'n', 'd'];
    let dec = ['d', 'e', 'c'];
    let type_ = ['T', 'y', 'p', 'e'];
    let enum_ = ['e', 'n', 'u', 'm'];
    proof {
        assert(underscore@ =~= seq!['_']);
        assert(def@ =~= seq!['d', 'e', 'f']);
        assert(match_@ =~= seq!['m', 'a', 't', 'c', 'h']);
        assert(for_@ =~= seq!['F', 'o', 'r']);
        assert(case@ =~= seq!['c', 'a', 's', 'e']);
        assert(use_@ =~= seq!['u', 's', 'e']);
        assert(end@ =~= seq!['e', 'n', 'd']);
        assert(dec@ =~= seq!['d', 'e', 'c']);
        assert(type_@ =~= seq!['T', 'y', 'p', 'e']);
        assert(enum_@ =~= seq!['e', 'n', 'u', 'm']);
        assert(s@.subrange(0, s@.len() as int) =~= s@);
        assert(s@.len() >= 4 ==> s@.subrange(0, 4) =~= s@.take(4));
    }
    if let Some(val) = parse_unsigned(s, 0, s.len(), 10, usize::MAX as u64) {
        return Some(
            Token::NumberLiteral(
                NumberLiteral { value: val as usize, span: (start, ByteIndex(start.0 + s.len())) },
            ),
        );
    }
    if eq_text(s, &underscore) {
        return Some(Token::Underscore(start));
    }
    if eq_text(s, &def) {
        return Some(Token::DefKw(start));
    }
    if eq_text(s, &match_) {
        return Some(Token::MatchKw(start));
    }
    if eq_text(s, &for_) {
        return Some(Token::ForKw(start));
    }
    if eq_text(s, &case) {
        return Some(Token::CaseKw(start));
    }
    if eq_text(s, &use_) {
        return Some(Token::UseKw(start));
    }
    if eq_text(s, &end) {
        return Some(Token::EndKw(start));
    }
    if eq_text(s, &dec) {
        return Some(Token::DecKw(start));
    }
    if s.len() >= 4 && eq_text(&s[0..4], &type_) {
        let (level, erasable) = parse_universe_level_and_erasability(&s[4..s.len()])?;
        return Some(Token::UniverseLiteral(UniverseLiteral { level, start, erasable }));
    }
    if s.len() >= 4 && eq_text(&s[0..4], &enum_) {
        let (level, erasable) = parse_universe_level_and_erasability(&s[4..s.len()])?;
        return Some(Token::EnumKw(EnumKw { level, start, erasable }));
    }
    if s.len() == 0 {
        return None;
    }
    let first = s[0];
    if ('a' <= first && first <= 'z') || ('A' <= first && first <= 'Z') || first == '_' {
        return Some(Token::Ident(Ident { value: string_of(s), start }));
    }
    None
}

fn parse_universe_level_and_erasability(s: &[char]) -> (r: Option<(usize, bool)>)
    ensures
        r == universe_level_and_erasability(s@),
{
    if s.len() > 0 && s[s.len() - 1] == '*' {
        let level = parse_universe_level(&s[0..s.len() - 1])?;
        Some((level, true))
    } else {
        let level = parse_universe_level(s)?;
        Some((level, false))
    }
}

/// - If `s` is empty, this function returns `Some(0)`.
///
/// - If `s` does not begin with `'0'` and successfully parses as some number `n`,
///   this function returns `Some(n)`.
///
/// - Otherwise, this function returns `None`.
///
///   - As a corollary, if `s` is a number with leading zeros,
///     this function returns `None`.
fn parse_universe_level(s: &[char]) -> (r: Option<usize>)
    ensures
        r == universe_level(s@),
{
    if s.len() == 0 {
        return Some(0);
    }
    if s[0] == '0' {
        return None;
    }
    assert(s@.subrange(0, s@.len() as int) =~= s@);
    match parse_unsigned(s, 0, s.len(), 10, usize::MAX as u64) {
        Some(v) => Some(v as usize),
        None => None,
    }
}

} // verus!
