use lib::lexer::string_parser::get_string_value;
use lib::lexer::{ends_in_uncut_string_literal, lex, LexError};
use lib::token::{ByteIndex, EnumKw, Ident, NumberLiteral, StringLiteral, Token, UniverseLiteral};

fn ident(value: &str, start: usize) -> Token {
    Token::Ident(Ident { value: value.to_owned(), start: ByteIndex(start) })
}

fn start_of(t: &Token) -> usize {
    match t {
        Token::Underscore(b) | Token::DefKw(b) | Token::MatchKw(b) | Token::ForKw(b)
        | Token::CaseKw(b) | Token::UseKw(b) | Token::EndKw(b) | Token::DecKw(b)
        | Token::LParen(b) | Token::RParen(b) | Token::LSquare(b) | Token::RSquare(b)
        | Token::Eq(b) | Token::Colon(b) | Token::Comma(b) | Token::Caret(b)
        | Token::ThinArrow(b) | Token::Dash(b) => b.0,
        Token::Ident(i) => i.start.0,
        Token::NumberLiteral(n) => n.span.0 .0,
        Token::StringLiteral(s) => s.span.0 .0,
        Token::UniverseLiteral(u) => u.start.0,
        Token::EnumKw(e) => e.start.0,
        Token::VconIndexLiteral(v) => v.start.0,
        Token::ReturnArityLiteral(r) => r.start.0,
    }
}

#[test]
fn byte_index_add_and_sub() {
    assert_eq!(ByteIndex(3) + ByteIndex(4), ByteIndex(7));
    assert_eq!(ByteIndex(9) - ByteIndex(4), ByteIndex(5));
}

#[test]
fn punctuation_tokens() {
    let actual = lex("()[]=:,^");
    let expected = Ok(vec![
        Token::LParen(ByteIndex(0)),
        Token::RParen(ByteIndex(1)),
        Token::LSquare(ByteIndex(2)),
        Token::RSquare(ByteIndex(3)),
        Token::Eq(ByteIndex(4)),
        Token::Colon(ByteIndex(5)),
        Token::Comma(ByteIndex(6)),
        Token::Caret(ByteIndex(7)),
    ]);
    assert_eq!(expected, actual);
}

#[test]
fn number_literal() {
    let actual = lex("x 120 y");
    let expected = Ok(vec![
        ident("x", 0),
        Token::NumberLiteral(NumberLiteral { value: 120, span: (ByteIndex(2), ByteIndex(5)) }),
        ident("y", 6),
    ]);
    assert_eq!(expected, actual);
}

#[test]
fn number_with_leading_zeros_is_a_number() {
    let actual = lex("007");
    let expected = Ok(vec![Token::NumberLiteral(NumberLiteral {
        value: 7,
        span: (ByteIndex(0), ByteIndex(3)),
    })]);
    assert_eq!(expected, actual);
}

#[test]
fn number_too_large_is_an_error() {
    let src = "99999999999999999999999999";
    assert_eq!(lex(src), Err(LexError(ByteIndex(0), ByteIndex(src.len()))));
}

#[test]
fn word_starting_with_digit_is_an_error() {
    assert_eq!(lex("1a"), Err(LexError(ByteIndex(0), ByteIndex(2))));
}

#[test]
fn star_ends_a_word() {
    let actual = lex("a*b");
    let expected = Ok(vec![ident("a*", 0), ident("b", 2)]);
    assert_eq!(expected, actual);
}

#[test]
fn number_star_is_an_error() {
    assert_eq!(lex("1*"), Err(LexError(ByteIndex(0), ByteIndex(2))));
}

#[test]
fn type_followed_by_letters_is_an_error() {
    assert_eq!(lex("Types"), Err(LexError(ByteIndex(0), ByteIndex(5))));
    assert_eq!(lex("enumerate"), Err(LexError(ByteIndex(0), ByteIndex(9))));
}

#[test]
fn type_level_and_star() {
    let actual = lex("Type12* enum7");
    let expected = Ok(vec![
        Token::UniverseLiteral(UniverseLiteral { level: 12, start: ByteIndex(0), erasable: true }),
        Token::EnumKw(EnumKw { level: 7, start: ByteIndex(8), erasable: false }),
    ]);
    assert_eq!(expected, actual);
}

#[test]
fn keyword_prefix_is_an_identifier() {
    let actual = lex("define ends");
    let expected = Ok(vec![ident("define", 0), ident("ends", 7)]);
    assert_eq!(expected, actual);
}

#[test]
fn lone_slash_is_an_error() {
    assert_eq!(lex("/"), Err(LexError(ByteIndex(0), ByteIndex(1))));
    assert_eq!(lex("a / b"), Err(LexError(ByteIndex(2), ByteIndex(3))));
}

#[test]
fn comment_to_end_of_text() {
    assert_eq!(lex("// nothing here é"), Ok(vec![]));
}

#[test]
fn dash_at_end_and_arrow() {
    let actual = lex("a -> b -");
    let expected = Ok(vec![
        ident("a", 0),
        Token::ThinArrow(ByteIndex(2)),
        ident("b", 5),
        Token::Dash(ByteIndex(7)),
    ]);
    assert_eq!(expected, actual);
}

#[test]
fn carriage_return_is_an_error() {
    assert_eq!(lex("a\r\nb"), Err(LexError(ByteIndex(1), ByteIndex(2))));
}

#[test]
fn non_ascii_outside_string_is_an_error() {
    assert_eq!(lex("x é"), Err(LexError(ByteIndex(2), ByteIndex(4))));
    assert_eq!(lex("😀"), Err(LexError(ByteIndex(0), ByteIndex(4))));
}

#[test]
fn string_literal_with_multibyte_text() {
    let src = "\"é😀\" x";
    let actual = lex(src);
    let expected = Ok(vec![
        Token::StringLiteral(StringLiteral {
            value: "é😀".to_owned(),
            span: (ByteIndex(0), ByteIndex(8)),
        }),
        ident("x", 9),
    ]);
    assert_eq!(expected, actual);
}

#[test]
fn empty_string_literal() {
    let actual = lex("\"\"");
    let expected = Ok(vec![Token::StringLiteral(StringLiteral {
        value: String::new(),
        span: (ByteIndex(0), ByteIndex(2)),
    })]);
    assert_eq!(expected, actual);
}

#[test]
fn string_literal_escapes() {
    let actual = lex("\"a{0x41}{0x1F600}\"");
    let expected = Ok(vec![Token::StringLiteral(StringLiteral {
        value: "aA😀".to_owned(),
        span: (ByteIndex(0), ByteIndex(18)),
    })]);
    assert_eq!(expected, actual);
}

#[test]
fn string_literal_bad_escape_span_is_in_source() {
    let src = "x \"a{0xZ}\"";
    assert_eq!(lex(src), Err(LexError(ByteIndex(5), ByteIndex(8))));
    assert_eq!(&src[5..8], "0xZ");
}

#[test]
fn unterminated_string_loses_its_last_character() {
    let actual = lex("x \"abc");
    let expected = Ok(vec![
        ident("x", 0),
        Token::StringLiteral(StringLiteral {
            value: "ab".to_owned(),
            span: (ByteIndex(2), ByteIndex(6)),
        }),
    ]);
    assert_eq!(expected, actual);
}

#[test]
fn tokens_in_source_order_and_within_source() {
    let src = "def f(x: Nat) -> Type1* = match x case \"s{0x7D}\" -> 12 end // done";
    let tokens = lex(src).unwrap();
    for pair in tokens.windows(2) {
        assert!(start_of(&pair[0]) < start_of(&pair[1]));
    }
    for t in &tokens {
        assert!(start_of(t) < src.len());
    }
}

#[test]
fn identifiers_are_source_text() {
    let src = "enum* Eq(T: Type, left: T) ^(right: T) refl ^(left) end";
    for t in lex(src).unwrap() {
        if let Token::Ident(i) = t {
            assert_eq!(&src[i.start.0..i.start.0 + i.value.len()], i.value);
        }
    }
}

#[test]
fn error_spans_lie_within_source() {
    for src in ["ab $", "\"{0x", "x /", "\"}\"", "Type00", "\"{0xD800}\""] {
        let Err(LexError(a, b)) = lex(src) else { panic!("expected an error for {src:?}") };
        assert!(a.0 <= b.0 && b.0 <= src.len());
    }
}

#[test]
fn blank_text_has_no_tokens() {
    assert_eq!(lex(" \t\n\n   \t"), Ok(vec![]));
}

#[test]
fn escape_with_plus_sign() {
    assert_eq!(get_string_value("{0x+41}"), Ok("A".to_owned()));
    assert_eq!(get_string_value("{0x+}"), Err((ByteIndex(1), ByteIndex(4))));
}

#[test]
fn escape_lower_case_hex() {
    assert_eq!(get_string_value("{0x7b}{0x7d}"), Ok("{}".to_owned()));
}

#[test]
fn escape_of_surrogate_is_invalid() {
    assert_eq!(get_string_value("a{0xD800}"), Err((ByteIndex(2), ByteIndex(8))));
}

#[test]
fn escape_beyond_unicode_is_invalid() {
    assert_eq!(get_string_value("{0x110000}"), Err((ByteIndex(1), ByteIndex(9))));
    assert_eq!(get_string_value("{0x100000041}"), Err((ByteIndex(1), ByteIndex(12))));
}

#[test]
fn escape_of_multibyte_body() {
    assert_eq!(get_string_value("{é}"), Err((ByteIndex(1), ByteIndex(3))));
    assert_eq!(get_string_value("é{0xé}"), Err((ByteIndex(3), ByteIndex(7))));
}

#[test]
fn escaped_text_decodes_to_itself() {
    let text = "héllo {\"wörld\"} 😀";
    let escaped: String = text.chars().map(|c| format!("{{0x{:X}}}", c as u32)).collect();
    assert_eq!(get_string_value(&escaped), Ok(text.to_owned()));
}

#[test]
fn decoding_concatenates() {
    let x = "ab{0x43}";
    let y = "{0x44}e";
    let joined = format!("{x}{y}");
    let expected = format!("{}{}", get_string_value(x).unwrap(), get_string_value(y).unwrap());
    assert_eq!(get_string_value(&joined), Ok(expected));
}

#[test]
fn text_without_braces_is_unchanged() {
    assert_eq!(get_string_value("plain \"text\" é\n"), Ok("plain \"text\" é\n".to_owned()));
}

#[test]
fn unterminated_escape_runs_to_end() {
    assert_eq!(get_string_value("é{0x41"), Err((ByteIndex(2), ByteIndex(7))));
}

fn shifted(t: &Token, by: usize) -> Token {
    let s = |b: ByteIndex| ByteIndex(b.0 + by);
    match t.clone() {
        Token::Ident(i) => Token::Ident(Ident { value: i.value, start: s(i.start) }),
        Token::DefKw(b) => Token::DefKw(s(b)),
        Token::LParen(b) => Token::LParen(s(b)),
        Token::NumberLiteral(n) => {
            Token::NumberLiteral(NumberLiteral { value: n.value, span: (s(n.span.0), s(n.span.1)) })
        }
        Token::StringLiteral(l) => {
            Token::StringLiteral(StringLiteral { value: l.value, span: (s(l.span.0), s(l.span.1)) })
        }
        Token::ThinArrow(b) => Token::ThinArrow(s(b)),
        other => panic!("unexpected token {other:?}"),
    }
}

#[test]
fn lexing_after_complete_prefix() {
    let a = "x ( ";
    let b = "def y -> 42 \"é\"";
    let joined = format!("{a}{b}");
    let mut expected = lex(a).unwrap();
    expected.extend(lex(b).unwrap().iter().map(|t| shifted(t, a.len())));
    assert_eq!(lex(&joined), Ok(expected));
}

#[test]
fn error_after_complete_prefix_is_shifted() {
    let a = "(é)";
    assert!(lex(a).is_err());
    let a = "f( ";
    let b = "x $";
    let joined = format!("{a}{b}");
    let Err(LexError(s, e)) = lex(b) else { panic!("expected an error") };
    assert_eq!(lex(&joined), Err(LexError(ByteIndex(s.0 + a.len()), ByteIndex(e.0 + a.len()))));
}

#[test]
fn uncut_string_literal_check() {
    assert!(ends_in_uncut_string_literal("x \""));
    assert!(ends_in_uncut_string_literal("\"abcé"));
    assert!(!ends_in_uncut_string_literal("\"abc"));
    assert!(!ends_in_uncut_string_literal("\"é\""));
    assert!(!ends_in_uncut_string_literal("$ \""));
    assert!(!ends_in_uncut_string_literal(""));
}

#[test]
fn decoding_error_after_good_prefix_is_shifted() {
    let x = "é{0x41}";
    let y = "ab}";
    let Err((a, b)) = get_string_value(y) else { panic!("expected an error") };
    let joined = format!("{x}{y}");
    assert_eq!(
        get_string_value(&joined),
        Err((ByteIndex(a.0 + x.len()), ByteIndex(b.0 + x.len())))
    );
}

#[test]
fn tokens_are_source_text() {
    let src = "def f(x) -> Type2 = enum* 42 \"s\" _ [use]";
    for t in lex(src).unwrap() {
        let at = start_of(&t);
        let expected: &str = match &t {
            Token::DefKw(_) => "def",
            Token::UseKw(_) => "use",
            Token::Underscore(_) => "_",
            Token::LParen(_) => "(",
            Token::RParen(_) => ")",
            Token::LSquare(_) => "[",
            Token::RSquare(_) => "]",
            Token::Eq(_) => "=",
            Token::ThinArrow(_) => "->",
            Token::UniverseLiteral(_) => "Type",
            Token::EnumKw(_) => "enum",
            Token::StringLiteral(_) => "\"",
            Token::Ident(i) => i.value.as_str(),
            Token::NumberLiteral(n) => {
                assert_eq!(src[n.span.0 .0..n.span.1 .0].parse::<usize>(), Ok(n.value));
                continue;
            }
            other => panic!("unexpected token {other:?}"),
        };
        assert_eq!(&src[at..at + expected.len()], expected);
    }
}
