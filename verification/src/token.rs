//! Tokens and the byte positions they carry.
use std::ops::{Add, Sub};
use vstd::prelude::*;

verus! {

/// A byte offset into the source text.
#[derive(Clone, Copy, Debug, PartialEq, Eq, Hash, Default, PartialOrd, Ord)]
pub struct ByteIndex(pub usize);

impl Add for ByteIndex {
    type Output = Self;

    fn add(self, rhs: Self) -> (r: Self::Output) {
        ByteIndex(self.0 + rhs.0)
    }
}

impl vstd::std_specs::ops::AddSpecImpl for ByteIndex {
    open spec fn obeys_add_spec() -> bool {
        true
    }

    open spec fn add_req(self, rhs: Self) -> bool {
        self.0 + rhs.0 <= usize::MAX
    }

    open spec fn add_spec(self, rhs: Self) -> Self {
        ByteIndex((self.0 + rhs.0) as usize)
    }
}

impl Sub for ByteIndex {
    type Output = Self;

    fn sub(self, rhs: Self) -> (r: Self::Output) {
        ByteIndex(self.0 - rhs.0)
    }
}

impl vstd::std_specs::ops::SubSpecImpl for ByteIndex {
    open spec fn obeys_sub_spec() -> bool {
        true
    }

    open spec fn sub_req(self, rhs: Self) -> bool {
        rhs.0 <= self.0
    }

    open spec fn sub_spec(self, rhs: Self) -> Self {
        ByteIndex((self.0 - rhs.0) as usize)
    }
}

/// The start and end of a piece of the source text.
pub type Span = (ByteIndex, ByteIndex);

/// An identifier and the byte at which it starts.
#[derive(Clone, Debug, PartialEq, Eq, Hash, Default, PartialOrd, Ord)]
pub struct Ident {
    pub value: String,
    pub start: ByteIndex,
}

/// A decimal literal.
#[derive(Clone, Copy, Debug, PartialEq, Eq, Hash, Default, PartialOrd, Ord)]
pub struct NumberLiteral {
    pub value: usize,
    pub span: (ByteIndex, ByteIndex),
}

/// A string literal, its escapes resolved; the span includes the quotes.
#[derive(Debug, PartialEq, Eq, Hash, Default, PartialOrd, Ord)]
pub struct StringLiteral {
    pub value: String,
    pub span: (ByteIndex, ByteIndex),
}

impl Clone for StringLiteral {
    fn clone(&self) -> (r: Self)
        ensures
            r.value@ == self.value@,
            r.span == self.span,
    {
        StringLiteral { value: self.value.clone(), span: self.span }
    }
}

/// `Type`, `Type<n>`, `Type*` or `Type<n>*`.
#[derive(Clone, Copy, Debug, PartialEq, Eq, Hash, Default, PartialOrd, Ord)]
pub struct UniverseLiteral {
    pub level: usize,
    pub start: ByteIndex,
    /// This is true if the literal is a `Prop`
    /// and false if the literal is a `Set`.
    pub erasable: bool,
}

/// `enum`, `enum<n>`, `enum*` or `enum<n>*`.
#[derive(Clone, Copy, Debug, PartialEq, Eq, Hash, Default, PartialOrd, Ord)]
pub struct EnumKw {
    pub level: usize,
    pub start: ByteIndex,
    /// This is true if the literal is a `prop`
    /// and false if the literal is a `set`.
    pub erasable: bool,
}

/// The index of a variant constructor.
#[derive(Clone, Copy, Debug, PartialEq, Eq, Hash, Default, PartialOrd, Ord)]
pub struct VconIndexLiteral {
    pub index: usize,
    pub start: ByteIndex,
}

/// The arity of a return.
#[derive(Clone, Copy, Debug, PartialEq, Eq, Hash, Default, PartialOrd, Ord)]
pub struct ReturnArityLiteral {
    pub arity: usize,
    pub start: ByteIndex,
}

/// A token of the source language.
#[derive(Clone, Debug, PartialEq, Eq, Hash)]
pub enum Token {
    Underscore(ByteIndex),
    DefKw(ByteIndex),
    MatchKw(ByteIndex),
    ForKw(ByteIndex),
    CaseKw(ByteIndex),
    UseKw(ByteIndex),
    EndKw(ByteIndex),
    DecKw(ByteIndex),
    LParen(ByteIndex),
    RParen(ByteIndex),
    LSquare(ByteIndex),
    RSquare(ByteIndex),
    Eq(ByteIndex),
    Colon(ByteIndex),
    Comma(ByteIndex),
    Caret(ByteIndex),
    ThinArrow(ByteIndex),
    Dash(ByteIndex),
    Ident(Ident),
    NumberLiteral(NumberLiteral),
    StringLiteral(StringLiteral),
    UniverseLiteral(UniverseLiteral),
    EnumKw(EnumKw),
    VconIndexLiteral(VconIndexLiteral),
    ReturnArityLiteral(ReturnArityLiteral),
}

/// A token as a mathematical value: the text of identifiers and string
/// literals as sequences of characters.
pub enum TokenModel {
    Underscore(ByteIndex),
    DefKw(ByteIndex),
    MatchKw(ByteIndex),
    ForKw(ByteIndex),
    CaseKw(ByteIndex),
    UseKw(ByteIndex),
    EndKw(ByteIndex),
    DecKw(ByteIndex),
    LParen(ByteIndex),
    RParen(ByteIndex),
    LSquare(ByteIndex),
    RSquare(ByteIndex),
    Eq(ByteIndex),
    Colon(ByteIndex),
    Comma(ByteIndex),
    Caret(ByteIndex),
    ThinArrow(ByteIndex),
    Dash(ByteIndex),
    Ident { value: Seq<char>, start: ByteIndex },
    NumberLiteral(NumberLiteral),
    StringLiteral { value: Seq<char>, span: (ByteIndex, ByteIndex) },
    UniverseLiteral(UniverseLiteral),
    EnumKw(EnumKw),
    VconIndexLiteral(VconIndexLiteral),
    ReturnArityLiteral(ReturnArityLiteral),
}

impl TokenModel {
    /// The byte at which the token starts.
    pub open spec fn start(self) -> usize {
        match self {
            TokenModel::Underscore(b) => b.0,
            TokenModel::DefKw(b) => b.0,
            TokenModel::MatchKw(b) => b.0,
            TokenModel::ForKw(b) => b.0,
            TokenModel::CaseKw(b) => b.0,
            TokenModel::UseKw(b) => b.0,
            TokenModel::EndKw(b) => b.0,
            TokenModel::DecKw(b) => b.0,
            TokenModel::LParen(b) => b.0,
            TokenModel::RParen(b) => b.0,
            TokenModel::LSquare(b) => b.0,
            TokenModel::RSquare(b) => b.0,
            TokenModel::Eq(b) => b.0,
            TokenModel::Colon(b) => b.0,
            TokenModel::Comma(b) => b.0,
            TokenModel::Caret(b) => b.0,
            TokenModel::ThinArrow(b) => b.0,
            TokenModel::Dash(b) => b.0,
            TokenModel::Ident { start, .. } => start.0,
            TokenModel::NumberLiteral(n) => n.span.0.0,
            TokenModel::StringLiteral { span, .. } => span.0.0,
            TokenModel::UniverseLiteral(u) => u.start.0,
            TokenModel::EnumKw(e) => e.start.0,
            TokenModel::VconIndexLiteral(v) => v.start.0,
            TokenModel::ReturnArityLiteral(r) => r.start.0,
        }
    }
}

/// `b` moved `by` bytes further into the text.
pub open spec fn shift_index(b: ByteIndex, by: nat) -> ByteIndex {
    ByteIndex((b.0 + by) as usize)
}

impl TokenModel {
    /// The same token, with every position moved `by` bytes further into
    /// the text.
    pub open spec fn shifted(self, by: nat) -> TokenModel {
        match self {
            TokenModel::Underscore(b) => TokenModel::Underscore(shift_index(b, by)),
            TokenModel::DefKw(b) => TokenModel::DefKw(shift_index(b, by)),
            TokenModel::MatchKw(b) => TokenModel::MatchKw(shift_index(b, by)),
            TokenModel::ForKw(b) => TokenModel::ForKw(shift_index(b, by)),
            TokenModel::CaseKw(b) => TokenModel::CaseKw(shift_index(b, by)),
            TokenModel::UseKw(b) => TokenModel::UseKw(shift_index(b, by)),
            TokenModel::EndKw(b) => TokenModel::EndKw(shift_index(b, by)),
            TokenModel::DecKw(b) => TokenModel::DecKw(shift_index(b, by)),
            TokenModel::LParen(b) => TokenModel::LParen(shift_index(b, by)),
            TokenModel::RParen(b) => TokenModel::RParen(shift_index(b, by)),
            TokenModel::LSquare(b) => TokenModel::LSquare(shift_index(b, by)),
            TokenModel::RSquare(b) => TokenModel::RSquare(shift_index(b, by)),
            TokenModel::Eq(b) => TokenModel::Eq(shift_index(b, by)),
            TokenModel::Colon(b) => TokenModel::Colon(shift_index(b, by)),
            TokenModel::Comma(b) => TokenModel::Comma(shift_index(b, by)),
            TokenModel::Caret(b) => TokenModel::Caret(shift_index(b, by)),
            TokenModel::ThinArrow(b) => TokenModel::ThinArrow(shift_index(b, by)),
            TokenModel::Dash(b) => TokenModel::Dash(shift_index(b, by)),
            TokenModel::Ident { value, start } => TokenModel::Ident { value, start: shift_index(start, by) },
            TokenModel::NumberLiteral(n) => TokenModel::NumberLiteral(
                NumberLiteral { value: n.value, span: (shift_index(n.span.0, by), shift_index(n.span.1, by)) },
            ),
            TokenModel::StringLiteral { value, span } => TokenModel::StringLiteral {
                value,
                span: (shift_index(span.0, by), shift_index(span.1, by)),
            },
            TokenModel::UniverseLiteral(u) => TokenModel::UniverseLiteral(
                UniverseLiteral { level: u.level, start: shift_index(u.start, by), erasable: u.erasable },
            ),
            TokenModel::EnumKw(e) => TokenModel::EnumKw(
                EnumKw { level: e.level, start: shift_index(e.start, by), erasable: e.erasable },
            ),
            TokenModel::VconIndexLiteral(v) => TokenModel::VconIndexLiteral(
                VconIndexLiteral { index: v.index, start: shift_index(v.start, by) },
            ),
            TokenModel::ReturnArityLiteral(r) => TokenModel::ReturnArityLiteral(
                ReturnArityLiteral { arity: r.arity, start: shift_index(r.start, by) },
            ),
        }
    }
}

/// Tokens with every position moved `by` bytes further into the text.
pub open spec fn shift_tokens(ts: Seq<TokenModel>, by: nat) -> Seq<TokenModel> {
    ts.map_values(|t: TokenModel| t.shifted(by))
}

impl View for Token {
    type V = TokenModel;

    open spec fn view(&self) -> TokenModel {
        match self {
            Token::Underscore(b) => TokenModel::Underscore(*b),
            Token::DefKw(b) => TokenModel::DefKw(*b),
            Token::MatchKw(b) => TokenModel::MatchKw(*b),
            Token::ForKw(b) => TokenModel::ForKw(*b),
            Token::CaseKw(b) => TokenModel::CaseKw(*b),
            Token::UseKw(b) => TokenModel::UseKw(*b),
            Token::EndKw(b) => TokenModel::EndKw(*b),
            Token::DecKw(b) => TokenModel::DecKw(*b),
            Token::LParen(b) => TokenModel::LParen(*b),
            Token::RParen(b) => TokenModel::RParen(*b),
            Token::LSquare(b) => TokenModel::LSquare(*b),
            Token::RSquare(b) => TokenModel::RSquare(*b),
            Token::Eq(b) => TokenModel::Eq(*b),
            Token::Colon(b) => TokenModel::Colon(*b),
            Token::Comma(b) => TokenModel::Comma(*b),
            Token::Caret(b) => TokenModel::Caret(*b),
            Token::ThinArrow(b) => TokenModel::ThinArrow(*b),
            Token::Dash(b) => TokenModel::Dash(*b),
            Token::Ident(i) => TokenModel::Ident { value: i.value@, start: i.start },
            Token::NumberLiteral(n) => TokenModel::NumberLiteral(*n),
            Token::StringLiteral(s) => TokenModel::StringLiteral { value: s.value@, span: s.span },
            Token::UniverseLiteral(u) => TokenModel::UniverseLiteral(*u),
            Token::EnumKw(e) => TokenModel::EnumKw(*e),
            Token::VconIndexLiteral(v) => TokenModel::VconIndexLiteral(*v),
            Token::ReturnArityLiteral(r) => TokenModel::ReturnArityLiteral(*r),
        }
    }
}

/// A sequence of tokens as mathematical values.
pub open spec fn tokens_model(ts: Seq<Token>) -> Seq<TokenModel> {
    ts.map_values(|t: Token| t@)
}

/// Adding a token adds its model.
pub proof fn lemma_tokens_model_push(ts: Seq<Token>, t: Token)
    ensures
        tokens_model(ts.push(t)) == tokens_model(ts).push(t@),
{
    assert(tokens_model(ts.push(t)) =~= tokens_model(ts).push(t@));
}

} // verus!
