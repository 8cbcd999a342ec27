use lib::lexer::string_parser::get_string_value;
use lib::token::ByteIndex;

#[test]
fn string_parser_empty() {
    let actual = get_string_value("");
    let expected = Ok("".to_owned());
    assert_eq!(expected, actual);
}

#[test]
fn hello_world() {
    let actual = get_string_value("hello world");
    let expected = Ok("hello world".to_owned());
    assert_eq!(expected, actual);
}

#[test]
fn hello_unescaped_newline_world() {
    let actual = get_string_value("hello\nworld");
    let expected = Ok("hello\nworld".to_owned());
    assert_eq!(expected, actual);
}

#[test]
fn hello_escaped_newline_world() {
    let actual = get_string_value("hello{0xA}world");
    let expected = Ok("hello\nworld".to_owned());
    assert_eq!(expected, actual);
}

#[test]
fn hello_lcurly_world_rcurly() {
    let actual = get_string_value("hello{0x7B}world{0x7D}");
    let expected = Ok("hello{world}".to_owned());
    assert_eq!(expected, actual);
}

#[test]
fn hello_double_quote_world_double_quote() {
    let actual = get_string_value("hello {0x22}world{0x22}");
    let expected = Ok("hello \"world\"".to_owned());
    assert_eq!(expected, actual);
}

#[test]
fn unterminated_invalid_escape() {
    let actual = get_string_value("hello {world");
    let expected = Err((ByteIndex(6), ByteIndex(12)));
    assert_eq!(expected, actual);
}

#[test]
fn unterminated_but_otherwise_valid_escape() {
    let actual = get_string_value("hello {0x22");
    let expected = Err((ByteIndex(6), ByteIndex(11)));
    assert_eq!(expected, actual);
}

#[test]
fn empty_escape() {
    let actual = get_string_value("hello {} world");
    let expected = Err((ByteIndex(7), ByteIndex(7)));
    assert_eq!(expected, actual);
}

#[test]
fn too_short_escape_1_char() {
    let actual = get_string_value("hello {0} world");
    let expected = Err((ByteIndex(7), ByteIndex(8)));
    assert_eq!(expected, actual);
}

#[test]
fn too_short_escape_2_char() {
    let actual = get_string_value("hello {0x} world");
    let expected = Err((ByteIndex(7), ByteIndex(9)));
    assert_eq!(expected, actual);
}

#[test]
fn bad_prefix_escape() {
    let actual = get_string_value("hello {BEEF} world");
    let expected = Err((ByteIndex(7), ByteIndex(11)));
    assert_eq!(expected, actual);
}

#[test]
fn curly_in_escape() {
    let actual = get_string_value("hello {0x{A}} world");
    let expected = Err((ByteIndex(7), ByteIndex(11)));
    assert_eq!(expected, actual);
}

#[test]
fn non_hex_escape() {
    let actual = get_string_value("hello {0xG} world");
    let expected = Err((ByteIndex(7), ByteIndex(10)));
    assert_eq!(expected, actual);
}

#[test]
fn capital_x_escape() {
    let actual = get_string_value("hello {0XA} world");
    let expected = Err((ByteIndex(7), ByteIndex(10)));
    assert_eq!(expected, actual);
}

#[test]
fn unescaped_rcurly() {
    let actual = get_string_value("hello } world");
    let expected = Err((ByteIndex(6), ByteIndex(7)));
    assert_eq!(expected, actual);
}
