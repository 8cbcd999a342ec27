//! What the lexer makes of each kind of word and mark: identifiers,
//! universe levels, dashes and arrows, and comments. Each law relates the
//! lexing of a text that starts with such a word or mark to the lexing of
//! the rest of the text.
use vstd::prelude::*;
use crate::numeral::{digits_value, lemma_digits_all_digits, unsigned_value};
use crate::text::{utf8_len, byte_offset, lemma_byte_offset_bound, lemma_utf8_len_ascii, lemma_utf8_len_concat};
use crate::token::{ByteIndex, EnumKw, TokenModel, UniverseLiteral, shift_tokens};
use super::LexError;
use super::composition::{
    shift_finish_result, shift_run_result, law_lexing_after_complete_prefix, lemma_lexing_resumes,
    lemma_main_step_shift, lemma_run_prefix,
};
use super::model::{State, universe_level, universe_level_and_erasability, ends_in_uncut_string, finish, is_word_char, lex_result, main_step, run, step, word_token};

verus! {

/// An ASCII letter.
pub open spec fn is_ascii_letter(c: char) -> bool {
    ('a' <= c && c <= 'z') || ('A' <= c && c <= 'Z')
}

/// An ASCII decimal digit.
pub open spec fn is_ascii_digit(c: char) -> bool {
    '0' <= c && c <= '9'
}

/// The keywords of the language.
pub open spec fn is_keyword(w: Seq<char>) -> bool {
    ||| w == seq!['d', 'e', 'f']
    ||| w == seq!['m', 'a', 't', 'c', 'h']
    ||| w == seq!['F', 'o', 'r']
    ||| w == seq!['c', 'a', 's', 'e']
    ||| w == seq!['u', 's', 'e']
    ||| w == seq!['e', 'n', 'd']
    ||| w == seq!['d', 'e', 'c']
}

/// A word of ASCII letters, digits and `_` that begins with a letter or
/// `_`, is neither `_` nor a keyword, and does not begin with `Type` or
/// `enum`.
pub open spec fn is_plain_identifier(w: Seq<char>) -> bool {
    &&& w.len() >= 1
    &&& (is_ascii_letter(w[0]) || w[0] == '_')
    &&& forall|k: int| 0 <= k < w.len() ==> #[trigger] is_ascii_letter(w[k]) || is_ascii_digit(w[k]) || w[k] == '_'
    &&& w != seq!['_']
    &&& !is_keyword(w)
    &&& !(w.len() >= 4 && (w.take(4) == seq!['T', 'y', 'p', 'e'] || w.take(4) == seq!['e', 'n', 'u', 'm']))
}

/// Text that cannot continue a word: empty, or starting with a character
/// that is not a letter, a digit, `_` or `*`.
pub open spec fn ends_a_word(b: Seq<char>) -> bool {
    b.len() == 0 || !(is_ascii_letter(b[0]) || is_ascii_digit(b[0]) || b[0] == '_' || b[0] == '*')
}

/// The decimal digits, in order.
pub open spec fn decimal_alphabet() -> Seq<char> {
    seq!['0', '1', '2', '3', '4', '5', '6', '7', '8', '9']
}

/// The decimal numeral of `n` without leading zeros; nothing for zero.
pub open spec fn decimal(n: nat) -> Seq<char>
    decreases n,
{
    if n == 0 {
        Seq::empty()
    } else if n < 10 {
        seq![decimal_alphabet()[n as int]]
    } else {
        decimal(n / 10).push(decimal_alphabet()[(n % 10) as int])
    }
}

/// `kw` followed by the numeral of `n`, and by `*` when `erasable`.
pub open spec fn level_word(kw: Seq<char>, n: nat, erasable: bool) -> Seq<char> {
    kw + decimal(n) + if erasable {
        seq!['*']
    } else {
        Seq::empty()
    }
}

proof fn lemma_decimal_alphabet(d: nat)
    requires
        d < 10,
    ensures
        decimal_alphabet()[d as int] as int == 48 + d,
        is_ascii_digit(decimal_alphabet()[d as int]),
{
    let h = decimal_alphabet();
    if d == 0 { assert(h[0] == '0'); }
    else if d == 1 { assert(h[1] == '1'); }
    else if d == 2 { assert(h[2] == '2'); }
    else if d == 3 { assert(h[3] == '3'); }
    else if d == 4 { assert(h[4] == '4'); }
    else if d == 5 { assert(h[5] == '5'); }
    else if d == 6 { assert(h[6] == '6'); }
    else if d == 7 { assert(h[7] == '7'); }
    else if d == 8 { assert(h[8] == '8'); }
    else { assert(h[9] == '9'); }
}

/// The numeral of a positive number reads back as that number, is made of
/// digits, and does not begin with `0`.
proof fn lemma_decimal(n: nat)
    requires
        n >= 1,
    ensures
        decimal(n).len() >= 1,
        digits_value(decimal(n), 10) == Some(n),
        decimal(n)[0] != '0',
        forall|k: int| 0 <= k < decimal(n).len() ==> #[trigger] is_ascii_digit(decimal(n)[k]),
    decreases n,
{
    if n < 10 {
        lemma_decimal_alphabet(n);
    } else {
        lemma_decimal(n / 10);
        lemma_decimal_alphabet(n % 10);
        let h = decimal(n);
        assert(h.drop_last() =~= decimal(n / 10));
        assert(h[0] == decimal(n / 10)[0]);
        assert forall|k: int| 0 <= k < h.len() implies #[trigger] is_ascii_digit(h[k]) by {
            if k < h.len() - 1 {
                assert(h[k] == decimal(n / 10)[k]);
            }
        }
    }
}

/// In the middle of a leading word, the lexer holds the word and no token.
proof fn lemma_word_run(s: Seq<char>, k: int)
    requires
        1 <= k <= s.len(),
        utf8_len(s) <= usize::MAX,
        forall|j: int| 0 <= j < k ==> #[trigger] is_word_char(s[j]),
    ensures
        run(s, k) == Ok::<(State, Seq<TokenModel>), LexError>(
            (State::Word { start: ByteIndex(0), at: 0, byte_len: k as usize }, Seq::empty()),
        ),
    decreases k,
{
    lemma_byte_offset_bound(s, 0);
    if k > 1 {
        lemma_word_run(s, k - 1);
        assert(is_word_char(s[k - 1]));
    } else {
        assert(s.take(0) =~= Seq::<char>::empty());
        assert(is_word_char(s[0]));
    }
}

/// The lexer finishes a leading word at the first character that cannot
/// continue it, then reads that character as it would at the start.
proof fn lemma_word_then_first_step(w: Seq<char>, b: Seq<char>, t: TokenModel)
    requires
        w.len() >= 1,
        b.len() >= 1,
        forall|j: int| 0 <= j < w.len() ==> #[trigger] is_word_char(w[j]),
        word_token(w, ByteIndex(0)) == Some(t),
        !is_word_char(b[0]) && b[0] != '*',
        utf8_len(w + b) <= usize::MAX,
    ensures
        run(w + b, w.len() + 1 as int) == shift_run_result(run(b, 1), w.len(), utf8_len(w), seq![t]),
{
    let s = w + b;
    let n = w.len() as int;
    lemma_utf8_len_concat(w, b);
    assert forall|j: int| 0 <= j < n implies #[trigger] is_word_char(s[j]) by {
        assert(s[j] == w[j]);
    }
    lemma_byte_offset_bound(s, 0);
    lemma_word_run(s, n);
    assert(s.subrange(0, n) =~= w);
    assert(Seq::<TokenModel>::empty().push(t) =~= seq![t]);
    assert(seq![t] + shift_tokens(Seq::empty(), utf8_len(w)) =~= seq![t]);
    assert(s[n] == b[0]);
    assert(finish(s, State::Word { start: ByteIndex(0), at: 0, byte_len: n as usize }, Seq::empty())
        == Ok::<Seq<TokenModel>, LexError>(seq![t]));
    lemma_main_step_shift(w, b, seq![t], Seq::empty(), 0);
    assert(run(s, n) == Ok::<(State, Seq<TokenModel>), LexError>(
        (State::Word { start: ByteIndex(0), at: 0, byte_len: n as usize }, Seq::empty())));
    assert(run(s, n + 1) == step(s, State::Word { start: ByteIndex(0), at: 0, byte_len: n as usize }, Seq::empty(), n));
    assert(run(s, n + 1) == main_step(s, seq![t], n));
    assert(run(b, 0) == Ok::<(State, Seq<TokenModel>), LexError>((State::Main, Seq::empty())));
    assert(run(b, 1) == main_step(b, Seq::empty(), 0));
}

/// A word alone is lexed as its token.
proof fn lemma_word_alone(w: Seq<char>, t: TokenModel)
    requires
        w.len() >= 1,
        forall|j: int| 0 <= j < w.len() ==> #[trigger] is_word_char(w[j]),
        word_token(w, ByteIndex(0)) == Some(t),
        utf8_len(w) <= usize::MAX,
    ensures
        !ends_in_uncut_string(w),
        lex_result(w) == Ok::<Seq<TokenModel>, LexError>(seq![t]),
{
    let n = w.len() as int;
    lemma_byte_offset_bound(w, 0);
    lemma_word_run(w, n);
    assert(w.subrange(0, n) =~= w);
    assert(Seq::<TokenModel>::empty().push(t) =~= seq![t]);
}

/// A word followed by text that cannot continue it is lexed as its token
/// followed by the tokens of the rest, shifted.
proof fn lemma_word_then(w: Seq<char>, b: Seq<char>, t: TokenModel)
    requires
        w.len() >= 1,
        forall|j: int| 0 <= j < w.len() ==> #[trigger] is_word_char(w[j]),
        word_token(w, ByteIndex(0)) == Some(t),
        b.len() == 0 || (!is_word_char(b[0]) && b[0] != '*'),
        utf8_len(w + b) <= usize::MAX,
    ensures
        ends_in_uncut_string(w + b) == ends_in_uncut_string(b),
        !ends_in_uncut_string(b) ==> lex_result(w + b) == shift_finish_result(lex_result(b), utf8_len(w), seq![t]),
{
    lemma_utf8_len_concat(w, b);
    if b.len() == 0 {
        assert(w + b =~= w);
        lemma_word_alone(w, t);
        assert(run(b, 0) == Ok::<(State, Seq<TokenModel>), LexError>((State::Main, Seq::empty())));
        assert(lex_result(b) == Ok::<Seq<TokenModel>, LexError>(Seq::empty()));
        assert(seq![t] + shift_tokens(Seq::empty(), utf8_len(w)) =~= seq![t]);
    } else {
        lemma_word_then_first_step(w, b, t);
        lemma_lexing_resumes(w, b, seq![t], 1);
    }
}

/// A word that ends with `*` is complete: the lexer is back in its main
/// state, holding the word's token.
proof fn lemma_star_word_run(v: Seq<char>, t: TokenModel)
    requires
        v.len() >= 1,
        forall|j: int| 0 <= j < v.len() ==> #[trigger] is_word_char(v[j]),
        word_token(v.push('*'), ByteIndex(0)) == Some(t),
        utf8_len(v.push('*')) <= usize::MAX,
    ensures
        run(v.push('*'), v.len() + 1 as int) == Ok::<(State, Seq<TokenModel>), LexError>((State::Main, seq![t])),
{
    let w = v.push('*');
    let n = v.len() as int;
    lemma_byte_offset_bound(w, 0);
    assert forall|j: int| 0 <= j < n implies #[trigger] is_word_char(w[j]) by {
        assert(w[j] == v[j]);
    }
    lemma_word_run(w, n);
    assert(w.subrange(0, n + 1) =~= w);
    assert(w[n] == '*');
    assert(Seq::<TokenModel>::empty().push(t) =~= seq![t]);
}

/// Every plain identifier is lexed as one `Ident` token that holds the
/// whole word, followed by the tokens of whatever comes after it (when
/// that cannot continue the word), their positions moved by the word's
/// length.
pub proof fn law_identifier_is_whole_word(w: Seq<char>, b: Seq<char>)
    requires
        is_plain_identifier(w),
        ends_a_word(b),
        utf8_len(w + b) <= usize::MAX,
    ensures
        ends_in_uncut_string(w + b) == ends_in_uncut_string(b),
        !ends_in_uncut_string(b) ==> lex_result(w + b) == shift_finish_result(
            lex_result(b),
            w.len(),
            seq![TokenModel::Ident { value: w, start: ByteIndex(0) }],
        ),
{
    assert forall|j: int| 0 <= j < w.len() implies #[trigger] is_word_char(w[j]) by {
        assert(is_ascii_letter(w[j]) || is_ascii_digit(w[j]) || w[j] == '_');
    }
    assert forall|j: int| 0 <= j < w.len() implies (#[trigger] w[j] as u32) < 0x80 by {
        assert(is_ascii_letter(w[j]) || is_ascii_digit(w[j]) || w[j] == '_');
    }
    lemma_utf8_len_ascii(w);
    if digits_value(w, 10) is Some {
        lemma_digits_all_digits(w, 10, 0);
    }
    assert(unsigned_value(w, 10, usize::MAX as nat) is None);
    assert(word_token(w, ByteIndex(0)) == Some(TokenModel::Ident { value: w, start: ByteIndex(0) }));
    lemma_word_then(w, b, TokenModel::Ident { value: w, start: ByteIndex(0) });
}

/// The numeral of a level reads back as that level.
proof fn lemma_level_of_decimal(n: nat, erasable: bool)
    requires
        n <= usize::MAX,
    ensures
        universe_level(decimal(n)) == Some(n as usize),
        universe_level_and_erasability(
            decimal(n) + if erasable {
                seq!['*']
            } else {
                Seq::<char>::empty()
            },
        ) == Some((n as usize, erasable)),
{
    let d = decimal(n);
    if n >= 1 {
        lemma_decimal(n);
        assert(is_ascii_digit(d[0]));
        assert(d[0] != '+');
        assert(unsigned_value(d, 10, usize::MAX as nat) == Some(n));
    } else {
        assert(d =~= Seq::<char>::empty());
    }
    let rest = d + if erasable { seq!['*'] } else { Seq::<char>::empty() };
    if erasable {
        assert(rest.drop_last() =~= d);
        assert(rest.last() == '*');
    } else {
        assert(rest =~= d);
        if n >= 1 {
            assert(rest.last() == d[d.len() - 1]);
            assert(is_ascii_digit(d[d.len() - 1]));
        }
    }
}

/// The token that a level word stands for.
proof fn lemma_level_word(kw: Seq<char>, n: nat, erasable: bool)
    requires
        kw == seq!['T', 'y', 'p', 'e'] || kw == seq!['e', 'n', 'u', 'm'],
        n <= usize::MAX,
    ensures
        word_token(level_word(kw, n, erasable), ByteIndex(0)) == Some(
            if kw == seq!['T', 'y', 'p', 'e'] {
                TokenModel::UniverseLiteral(UniverseLiteral { level: n as usize, start: ByteIndex(0), erasable })
            } else {
                TokenModel::EnumKw(EnumKw { level: n as usize, start: ByteIndex(0), erasable })
            },
        ),
        forall|j: int| 0 <= j < kw.len() + decimal(n).len() ==> #[trigger] is_word_char(level_word(kw, n, erasable)[j]),
        erasable ==> level_word(kw, n, erasable) == (kw + decimal(n)).push('*'),
        !erasable ==> level_word(kw, n, erasable) == kw + decimal(n),
{
    let d = decimal(n);
    let w = level_word(kw, n, erasable);
    if n >= 1 {
        lemma_decimal(n);
    }
    if erasable {
        assert(w =~= (kw + d).push('*'));
    } else {
        assert(w =~= kw + d);
    }
    assert(w.take(4) =~= kw);
    assert(w.skip(4) =~= d + if erasable { seq!['*'] } else { Seq::<char>::empty() });
    assert(w[0] == kw[0] && w[1] == kw[1] && w[2] == kw[2] && w[3] == kw[3]);
    assert(w.len() >= 4);
    if digits_value(w, 10) is Some {
        lemma_digits_all_digits(w, 10, 0);
    }
    assert(w[0] != '+');
    assert(unsigned_value(w, 10, usize::MAX as nat) is None);
    assert(w != seq!['_']);
    assert(w != seq!['d', 'e', 'f']);
    assert(w != seq!['m', 'a', 't', 'c', 'h']);
    assert(w != seq!['F', 'o', 'r']);
    assert(w != seq!['c', 'a', 's', 'e']);
    assert(w != seq!['u', 's', 'e']);
    assert(w != seq!['e', 'n', 'd']);
    assert(w != seq!['d', 'e', 'c']);
    lemma_level_of_decimal(n, erasable);
    assert forall|j: int| 0 <= j < kw.len() + d.len() implies #[trigger] is_word_char(w[j]) by {
        if j >= 4 {
            assert(w[j] == d[j - 4]);
            assert(is_ascii_digit(d[j - 4]));
        }
    }
}

/// `Type` followed by the numeral of any level `n` (none for level 0) is
/// one universe literal of level `n`, erasable when a `*` follows; the
/// tokens of the text after it follow, their positions moved by the word's
/// length.
pub proof fn law_universe_literal_levels(n: nat, erasable: bool, b: Seq<char>)
    requires
        n <= usize::MAX,
        erasable || ends_a_word(b),
        utf8_len(level_word(seq!['T', 'y', 'p', 'e'], n, erasable) + b) <= usize::MAX,
    ensures
        ends_in_uncut_string(level_word(seq!['T', 'y', 'p', 'e'], n, erasable) + b) == ends_in_uncut_string(b),
        !ends_in_uncut_string(b) ==> lex_result(level_word(seq!['T', 'y', 'p', 'e'], n, erasable) + b)
            == shift_finish_result(
            lex_result(b),
            level_word(seq!['T', 'y', 'p', 'e'], n, erasable).len(),
            seq![TokenModel::UniverseLiteral(UniverseLiteral { level: n as usize, start: ByteIndex(0), erasable })],
        ),
{
    lemma_level_law(seq!['T', 'y', 'p', 'e'], n, erasable, b);
}

/// `enum` followed by the numeral of any level `n` (none for level 0) is
/// one `enum` keyword of level `n`, erasable when a `*` follows; the tokens
/// of the text after it follow, their positions moved by the word's length.
pub proof fn law_enum_keyword_levels(n: nat, erasable: bool, b: Seq<char>)
    requires
        n <= usize::MAX,
        erasable || ends_a_word(b),
        utf8_len(level_word(seq!['e', 'n', 'u', 'm'], n, erasable) + b) <= usize::MAX,
    ensures
        ends_in_uncut_string(level_word(seq!['e', 'n', 'u', 'm'], n, erasable) + b) == ends_in_uncut_string(b),
        !ends_in_uncut_string(b) ==> lex_result(level_word(seq!['e', 'n', 'u', 'm'], n, erasable) + b)
            == shift_finish_result(
            lex_result(b),
            level_word(seq!['e', 'n', 'u', 'm'], n, erasable).len(),
            seq![TokenModel::EnumKw(EnumKw { level: n as usize, start: ByteIndex(0), erasable })],
        ),
{
    lemma_level_law(seq!['e', 'n', 'u', 'm'], n, erasable, b);
}

proof fn lemma_level_law(kw: Seq<char>, n: nat, erasable: bool, b: Seq<char>)
    requires
        kw == seq!['T', 'y', 'p', 'e'] || kw == seq!['e', 'n', 'u', 'm'],
        n <= usize::MAX,
        erasable || ends_a_word(b),
        utf8_len(level_word(kw, n, erasable) + b) <= usize::MAX,
    ensures
        ends_in_uncut_string(level_word(kw, n, erasable) + b) == ends_in_uncut_string(b),
        !ends_in_uncut_string(b) ==> lex_result(level_word(kw, n, erasable) + b) == shift_finish_result(
            lex_result(b),
            level_word(kw, n, erasable).len(),
            seq![
                if kw == seq!['T', 'y', 'p', 'e'] {
                    TokenModel::UniverseLiteral(UniverseLiteral { level: n as usize, start: ByteIndex(0), erasable })
                } else {
                    TokenModel::EnumKw(EnumKw { level: n as usize, start: ByteIndex(0), erasable })
                },
            ],
        ),
{
    let w = level_word(kw, n, erasable);
    let t = if kw == seq!['T', 'y', 'p', 'e'] {
        TokenModel::UniverseLiteral(UniverseLiteral { level: n as usize, start: ByteIndex(0), erasable })
    } else {
        TokenModel::EnumKw(EnumKw { level: n as usize, start: ByteIndex(0), erasable })
    };
    lemma_level_word(kw, n, erasable);
    lemma_utf8_len_concat(w, b);
    lemma_level_word_ascii(kw, n, erasable);
    if erasable {
        let v = kw + decimal(n);
        assert forall|j: int| 0 <= j < v.len() implies #[trigger] is_word_char(v[j]) by {
            assert(w[j] == v[j]);
        }
        lemma_star_word_run(v, t);
        law_lexing_after_complete_prefix(w, b, seq![t]);
    } else {
        lemma_word_then(w, b, t);
    }
}

/// A level word takes one byte per character.
proof fn lemma_level_word_ascii(kw: Seq<char>, n: nat, erasable: bool)
    requires
        kw == seq!['T', 'y', 'p', 'e'] || kw == seq!['e', 'n', 'u', 'm'],
        n <= usize::MAX,
    ensures
        utf8_len(level_word(kw, n, erasable)) == level_word(kw, n, erasable).len(),
{
    let w = level_word(kw, n, erasable);
    let v = kw + decimal(n);
    lemma_level_word(kw, n, erasable);
    assert forall|j: int| 0 <= j < w.len() implies (#[trigger] w[j] as u32) < 0x80 by {
        if j < v.len() {
            assert(is_word_char(w[j]));
        } else {
            assert(w[j] == '*');
        }
    }
    lemma_utf8_len_ascii(w);
}

/// A `-` that is not followed by `>` is one `Dash` token at its byte,
/// whatever follows it (a space, another `-`, a letter or nothing); the
/// tokens of the text after it follow, their positions moved by one byte.
pub proof fn law_dash_is_one_token(b: Seq<char>)
    requires
        b.len() == 0 || b[0] != '>',
        utf8_len(seq!['-'] + b) <= usize::MAX,
    ensures
        ends_in_uncut_string(seq!['-'] + b) == ends_in_uncut_string(b),
        !ends_in_uncut_string(b) ==> lex_result(seq!['-'] + b) == shift_finish_result(
            lex_result(b),
            1,
            seq![TokenModel::Dash(ByteIndex(0))],
        ),
{
    let e = Seq::<char>::empty();
    assert(e + (seq!['-'] + b) =~= seq!['-'] + b);
    assert(utf8_len(e) == 0);
    assert(run(e, 0) == Ok::<(State, Seq<TokenModel>), LexError>((State::Main, Seq::empty())));
    assert(Seq::<TokenModel>::empty().push(TokenModel::Dash(ByteIndex(0))) =~= seq![TokenModel::Dash(ByteIndex(0))]);
    law_dash_between_tokens(e, b, Seq::empty());
}

/// The same anywhere between tokens: after any text `a` that the lexer
/// reads to its main state with the tokens `before`, a `-` not followed by
/// `>` adds exactly one `Dash` token, at the byte where it stands, and the
/// tokens of the text after it follow, moved past it.
#[verifier::spinoff_prover]
pub proof fn law_dash_between_tokens(a: Seq<char>, b: Seq<char>, before: Seq<TokenModel>)
    requires
        run(a, a.len() as int) == Ok::<(State, Seq<TokenModel>), LexError>((State::Main, before)),
        b.len() == 0 || b[0] != '>',
        utf8_len(a + (seq!['-'] + b)) <= usize::MAX,
    ensures
        ends_in_uncut_string(a + (seq!['-'] + b)) == ends_in_uncut_string(b),
        !ends_in_uncut_string(b) ==> lex_result(a + (seq!['-'] + b)) == shift_finish_result(
            lex_result(b),
            utf8_len(a) + 1,
            before.push(TokenModel::Dash(ByteIndex(utf8_len(a) as usize))),
        ),
{
    let p = a + seq!['-'];
    assert(a + (seq!['-'] + b) =~= p + b);
    assert(p.len() == a.len() + 1);
    lemma_utf8_len_concat(p, b);
    lemma_dash_after_prefix(a, before);
    lemma_dash_then(p, b, before, ByteIndex(utf8_len(a) as usize));
}

/// A `-` after a text read to the main state leaves the lexer waiting on
/// that dash.
proof fn lemma_dash_after_prefix(a: Seq<char>, before: Seq<TokenModel>)
    requires
        run(a, a.len() as int) == Ok::<(State, Seq<TokenModel>), LexError>((State::Main, before)),
        utf8_len(a + seq!['-']) <= usize::MAX,
    ensures
        utf8_len(a + seq!['-']) == utf8_len(a) + 1,
        run(a + seq!['-'], (a + seq!['-']).len() as int) == Ok::<(State, Seq<TokenModel>), LexError>(
            (State::Dash(ByteIndex(utf8_len(a) as usize)), before),
        ),
{
    let d = seq!['-'];
    let p = a + d;
    lemma_utf8_len_concat(a, d);
    assert(d.drop_last() =~= Seq::<char>::empty());
    assert(d.last() == '-');
    assert(utf8_len(Seq::<char>::empty()) == 0);
    assert(utf8_len(d) == 1);
    lemma_run_prefix(a, d, a.len() as int);
    assert(p.len() == a.len() + 1);
    assert(p.take(a.len() as int) =~= a);
    assert(byte_offset(p, a.len() as int) == utf8_len(a));
    assert(p[a.len() as int] == '-');
}

/// A pending dash followed by text that does not start with `>` is one
/// `Dash` token, then the tokens of that text.
#[verifier::spinoff_prover]
proof fn lemma_dash_then(p: Seq<char>, b: Seq<char>, before: Seq<TokenModel>, at: ByteIndex)
    requires
        p.len() >= 1,
        run(p, p.len() as int) == Ok::<(State, Seq<TokenModel>), LexError>((State::Dash(at), before)),
        b.len() == 0 || b[0] != '>',
        utf8_len(p + b) <= usize::MAX,
    ensures
        ends_in_uncut_string(p + b) == ends_in_uncut_string(b),
        !ends_in_uncut_string(b) ==> lex_result(p + b) == shift_finish_result(
            lex_result(b),
            utf8_len(p),
            before.push(TokenModel::Dash(at)),
        ),
{
    let s = p + b;
    let t = TokenModel::Dash(at);
    lemma_utf8_len_concat(p, b);
    assert(before.push(t) + shift_tokens(Seq::empty(), utf8_len(p)) =~= before.push(t));
    assert(run(b, 0) == Ok::<(State, Seq<TokenModel>), LexError>((State::Main, Seq::empty())));
    if b.len() == 0 {
        assert(s =~= p);
        assert(lex_result(b) == Ok::<Seq<TokenModel>, LexError>(Seq::empty()));
    } else {
        lemma_run_prefix(p, b, p.len() as int);
        assert(s[p.len() as int] == b[0]);
        assert(finish(s, State::Dash(at), before) == Ok::<Seq<TokenModel>, LexError>(before.push(t)));
        assert(run(s, p.len() + 1int) == main_step(s, before.push(t), p.len() as int));
        lemma_main_step_shift(p, b, before.push(t), Seq::empty(), 0);
        assert(run(b, 1) == main_step(b, Seq::empty(), 0));
        lemma_lexing_resumes(p, b, before.push(t), 1);
    }
}

/// `->` is one `ThinArrow` token at the byte of its `-`, whatever follows
/// it; the tokens of the text after it follow, their positions moved by
/// two bytes.
pub proof fn law_arrow_is_one_token(b: Seq<char>)
    requires
        utf8_len(seq!['-', '>'] + b) <= usize::MAX,
    ensures
        ends_in_uncut_string(seq!['-', '>'] + b) == ends_in_uncut_string(b),
        !ends_in_uncut_string(b) ==> lex_result(seq!['-', '>'] + b) == shift_finish_result(
            lex_result(b),
            2,
            seq![TokenModel::ThinArrow(ByteIndex(0))],
        ),
{
    let a = seq!['-', '>'];
    let t = TokenModel::ThinArrow(ByteIndex(0));
    lemma_utf8_len_concat(a, b);
    assert(a.take(0) =~= Seq::<char>::empty());
    assert(a.take(1) =~= seq!['-']);
    assert(a.take(1).drop_last() =~= Seq::<char>::empty());
    assert(a.drop_last() =~= seq!['-']);
    assert(seq!['-'].drop_last() =~= Seq::<char>::empty());
    assert(utf8_len(seq!['-']) == 1);
    assert(utf8_len(a) == 2);
    assert(byte_offset(a, 1) == 1);
    assert(run(a, 0) == Ok::<(State, Seq<TokenModel>), LexError>((State::Main, Seq::empty())));
    assert(run(a, 1) == Ok::<(State, Seq<TokenModel>), LexError>((State::Dash(ByteIndex(0)), Seq::empty())));
    assert(Seq::<TokenModel>::empty().push(t) =~= seq![t]);
    assert(run(a, 2) == Ok::<(State, Seq<TokenModel>), LexError>((State::Main, seq![t])));
    law_lexing_after_complete_prefix(a, b, seq![t]);
}

/// A `//` comment takes in every character up to the next newline or the
/// end of the text, tabs and all: lexing the comment followed by text that
/// starts with that newline (or by nothing) gives no token for the comment,
/// then the tokens of that text, their positions moved by the comment's
/// length in bytes.
pub proof fn law_comment_runs_to_newline(c: Seq<char>, b: Seq<char>)
    requires
        forall|k: int| 0 <= k < c.len() ==> #[trigger] c[k] != '\n',
        b.len() == 0 || b[0] == '\n',
        utf8_len(seq!['/', '/'] + c + b) <= usize::MAX,
    ensures
        ends_in_uncut_string(seq!['/', '/'] + c + b) == ends_in_uncut_string(b),
        !ends_in_uncut_string(b) ==> lex_result(seq!['/', '/'] + c + b) == shift_finish_result(
            lex_result(b),
            utf8_len(seq!['/', '/'] + c),
            Seq::empty(),
        ),
{
    let e = Seq::<char>::empty();
    assert(e + (seq!['/', '/'] + c + b) =~= seq!['/', '/'] + c + b);
    assert(e + (seq!['/', '/'] + c) =~= seq!['/', '/'] + c);
    assert(run(e, 0) == Ok::<(State, Seq<TokenModel>), LexError>((State::Main, Seq::empty())));
    law_comment_between_tokens(e, c, b, Seq::empty());
}

/// Inside a `//` comment that starts at `k0`, after a text read to the
/// main state with the tokens `before`, the lexer stays in the comment
/// with those tokens until a newline.
proof fn lemma_comment_run_from(p: Seq<char>, k0: int, before: Seq<TokenModel>, m: int)
    requires
        0 <= k0,
        k0 + 2 <= m <= p.len(),
        utf8_len(p) <= usize::MAX,
        run(p, k0) == Ok::<(State, Seq<TokenModel>), LexError>((State::Main, before)),
        p[k0] == '/' && p[k0 + 1] == '/',
        forall|k: int| k0 + 2 <= k < p.len() ==> #[trigger] p[k] != '\n',
    ensures
        run(p, m) == Ok::<(State, Seq<TokenModel>), LexError>((State::SingleLineComment, before)),
    decreases m,
{
    if m > k0 + 2 {
        lemma_comment_run_from(p, k0, before, m - 1);
        assert(p[m - 1] != '\n');
    } else {
        let st = State::Slash(ByteIndex(byte_offset(p, k0) as usize));
        assert(run(p, k0 + 1) == Ok::<(State, Seq<TokenModel>), LexError>((st, before)));
    }
}

/// The same anywhere between tokens: after any text `a` that the lexer
/// reads to its main state with the tokens `before`, a `//` comment adds
/// no token, and the text from the newline that ends it is lexed as it is
/// alone, moved past the comment.
pub proof fn law_comment_between_tokens(a: Seq<char>, c: Seq<char>, b: Seq<char>, before: Seq<TokenModel>)
    requires
        run(a, a.len() as int) == Ok::<(State, Seq<TokenModel>), LexError>((State::Main, before)),
        forall|k: int| 0 <= k < c.len() ==> #[trigger] c[k] != '\n',
        b.len() == 0 || b[0] == '\n',
        utf8_len(a + (seq!['/', '/'] + c + b)) <= usize::MAX,
    ensures
        ends_in_uncut_string(a + (seq!['/', '/'] + c + b)) == ends_in_uncut_string(b),
        !ends_in_uncut_string(b) ==> lex_result(a + (seq!['/', '/'] + c + b)) == shift_finish_result(
            lex_result(b),
            utf8_len(a + (seq!['/', '/'] + c)),
            before,
        ),
{
    let p = a + (seq!['/', '/'] + c);
    assert(a + (seq!['/', '/'] + c + b) =~= p + b);
    lemma_utf8_len_concat(p, b);
    lemma_comment_after_prefix(a, c, before);
    lemma_comment_then(p, b, before);
}

/// A `//` comment after a text read to the main state leaves the lexer in
/// the comment, with the tokens of that text.
proof fn lemma_comment_after_prefix(a: Seq<char>, c: Seq<char>, before: Seq<TokenModel>)
    requires
        run(a, a.len() as int) == Ok::<(State, Seq<TokenModel>), LexError>((State::Main, before)),
        forall|k: int| 0 <= k < c.len() ==> #[trigger] c[k] != '\n',
        utf8_len(a + (seq!['/', '/'] + c)) <= usize::MAX,
    ensures
        run(a + (seq!['/', '/'] + c), (a + (seq!['/', '/'] + c)).len() as int)
            == Ok::<(State, Seq<TokenModel>), LexError>((State::SingleLineComment, before)),
{
    let p = a + (seq!['/', '/'] + c);
    lemma_run_prefix(a, seq!['/', '/'] + c, a.len() as int);
    assert forall|k: int| a.len() + 2 <= k < p.len() implies #[trigger] p[k] != '\n' by {
        assert(p[k] == c[k - a.len() - 2]);
    }
    assert(p[a.len() as int] == '/');
    assert(p[a.len() + 1int] == '/');
    lemma_comment_run_from(p, a.len() as int, before, p.len() as int);
}

/// A comment followed by nothing or by a newline gives no token; the text
/// from the newline is lexed as it is alone.
#[verifier::spinoff_prover]
proof fn lemma_comment_then(p: Seq<char>, b: Seq<char>, before: Seq<TokenModel>)
    requires
        run(p, p.len() as int) == Ok::<(State, Seq<TokenModel>), LexError>((State::SingleLineComment, before)),
        b.len() == 0 || b[0] == '\n',
        utf8_len(p + b) <= usize::MAX,
    ensures
        ends_in_uncut_string(p + b) == ends_in_uncut_string(b),
        !ends_in_uncut_string(b) ==> lex_result(p + b) == shift_finish_result(lex_result(b), utf8_len(p), before),
{
    let s = p + b;
    lemma_utf8_len_concat(p, b);
    lemma_run_prefix(p, b, p.len() as int);
    assert(before + shift_tokens(Seq::empty(), utf8_len(p)) =~= before);
    assert(run(b, 0) == Ok::<(State, Seq<TokenModel>), LexError>((State::Main, Seq::empty())));
    if b.len() == 0 {
        assert(s =~= p);
        assert(lex_result(b) == Ok::<Seq<TokenModel>, LexError>(Seq::empty()));
    } else {
        assert(s[p.len() as int] == b[0]);
        assert(run(s, p.len() + 1int) == Ok::<(State, Seq<TokenModel>), LexError>((State::Main, before)));
        assert(run(b, 1) == Ok::<(State, Seq<TokenModel>), LexError>((State::Main, Seq::empty())));
        lemma_lexing_resumes(p, b, before, 1);
    }
}

} // verus!
