pub mod text;
pub mod numeral;
pub mod token;
pub mod lexer;
