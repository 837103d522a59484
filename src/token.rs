//! Tokens produced by the lexer.
use vstd::prelude::*;

verus! {

/// What a token is.
#[derive(Debug, Clone, PartialEq, Eq)]
pub enum Kind {
    /// `[`
    BeginArray,
    /// `{`
    BeginObject,
    /// `]`
    EndArray,
    /// `}`
    EndObject,
    /// `:`
    NameSeparator,
    /// `,`
    ValueSeparator,
    /// `true` or `false`
    Boolean(bool),
    /// `null`
    Null,
    /// A string literal, escapes decoded.
    String(String),
    /// A numeral, as written in the input; it matches the number grammar.
    Number(String),
    /// End of input; the last token of every sequence.
    EOF,
}

/// The mathematical value of a [`Kind`]: texts as character sequences.
pub enum KindModel {
    BeginArray,
    BeginObject,
    EndArray,
    EndObject,
    NameSeparator,
    ValueSeparator,
    Boolean(bool),
    Null,
    Str(Seq<char>),
    Number(Seq<char>),
    Eof,
}

impl Kind {
    pub open spec fn model(&self) -> KindModel {
        match self {
            Kind::BeginArray => KindModel::BeginArray,
            Kind::BeginObject => KindModel::BeginObject,
            Kind::EndArray => KindModel::EndArray,
            Kind::EndObject => KindModel::EndObject,
            Kind::NameSeparator => KindModel::NameSeparator,
            Kind::ValueSeparator => KindModel::ValueSeparator,
            Kind::Boolean(b) => KindModel::Boolean(*b),
            Kind::Null => KindModel::Null,
            Kind::String(s) => KindModel::Str(s@),
            Kind::Number(s) => KindModel::Number(s@),
            Kind::EOF => KindModel::Eof,
        }
    }

    /// Whether two kinds are the same variant (payloads are not compared).
    pub open spec fn same_variant(&self, other: &Kind) -> bool {
        match (self, other) {
            (Kind::BeginArray, Kind::BeginArray) => true,
            (Kind::BeginObject, Kind::BeginObject) => true,
            (Kind::EndArray, Kind::EndArray) => true,
            (Kind::EndObject, Kind::EndObject) => true,
            (Kind::NameSeparator, Kind::NameSeparator) => true,
            (Kind::ValueSeparator, Kind::ValueSeparator) => true,
            (Kind::Boolean(_), Kind::Boolean(_)) => true,
            (Kind::Null, Kind::Null) => true,
            (Kind::String(_), Kind::String(_)) => true,
            (Kind::Number(_), Kind::Number(_)) => true,
            (Kind::EOF, Kind::EOF) => true,
            _ => false,
        }
    }
}

/// A token and the 1-based line on which it starts.
#[derive(Debug, Clone)]
pub struct Token {
    pub(crate) kind: Kind,
    pub(crate) line: u32,
}

impl Token {
    pub closed spec fn spec_kind(&self) -> Kind {
        self.kind
    }

    pub closed spec fn spec_line(&self) -> u32 {
        self.line
    }

    pub fn new(kind: Kind, line: u32) -> (r: Token)
        ensures
            r.spec_kind() == kind,
            r.spec_line() == line,
    {
        Token { kind, line }
    }

    pub(crate) fn kind_ref(&self) -> (r: &Kind)
        ensures
            *r == self.spec_kind(),
    {
        &self.kind
    }

    pub fn get_line(&self) -> (r: u32)
        ensures
            r == self.spec_line(),
    {
        self.line
    }

    pub fn get_kind(&self) -> (r: Kind)
        ensures
            r == self.spec_kind(),
    {
        clone_kind(&self.kind)
    }
}

/// A copy of `k`, equal to it.
pub fn clone_kind(k: &Kind) -> (r: Kind)
    ensures
        r == *k,
{
    match k {
        Kind::BeginArray => Kind::BeginArray,
        Kind::BeginObject => Kind::BeginObject,
        Kind::EndArray => Kind::EndArray,
        Kind::EndObject => Kind::EndObject,
        Kind::NameSeparator => Kind::NameSeparator,
        Kind::ValueSeparator => Kind::ValueSeparator,
        Kind::Boolean(b) => Kind::Boolean(*b),
        Kind::Null => Kind::Null,
        Kind::String(s) => Kind::String(s.clone()),
        Kind::Number(s) => Kind::Number(s.clone()),
        Kind::EOF => Kind::EOF,
    }
}

} // verus!
