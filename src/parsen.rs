//! The parser: tokens to a document tree.
use vstd::prelude::*;
use crate::json::{
    entries_model, insert_member, insert_member_exec, key_index, keys_unique, lemma_key_index_from,
    lemma_insert_keeps_keys_unique, well_formed, JsonModel,
};
pub use crate::json::Json;
use crate::lexen::{lex_spec, tokens_model, LexError, Lexer};
use crate::token::{clone_kind, Kind, KindModel, Token};

verus! {

/// How deeply arrays and objects may nest.
pub const MAX_DEPTH: usize = 256;

/// Why parsing stopped.
#[derive(Debug, Clone, PartialEq, Eq)]
pub enum ParseError {
    /// A token that the grammar does not allow where it stands.
    UnexpectedToken { kind: Kind, line: u32 },
    /// A member of an object whose key is not a string.
    ExpectedString { kind: Kind, line: u32 },
    /// The tokens ran out (or reached `EOF`) inside a value; `line` is that of
    /// the `EOF` token, or of the last token where there is none.
    UnexpectedEndOfInput { line: u32 },
    /// Arrays and objects nest more than `MAX_DEPTH` deep.
    TooDeep { line: u32 },
}

/// No token is left at `pos`: the sequence ended or `EOF` stands there.
pub open spec fn at_end(ts: Seq<Token>, pos: int) -> bool {
    !(0 <= pos < ts.len()) || ts[pos].spec_kind() is EOF
}

pub open spec fn kind_at(ts: Seq<Token>, pos: int) -> Kind {
    ts[pos].spec_kind()
}

/// The line reported when the tokens run out at `pos`: that of the token there
/// (`EOF`), else that of the last token, else 1.
pub open spec fn end_line(ts: Seq<Token>, pos: int) -> u32 {
    if 0 <= pos < ts.len() {
        ts[pos].spec_line()
    } else if ts.len() > 0 {
        ts[ts.len() - 1].spec_line()
    } else {
        1
    }
}

pub open spec fn end_of_input(ts: Seq<Token>, pos: int) -> ParseError {
    ParseError::UnexpectedEndOfInput { line: end_line(ts, pos) }
}

/// The error for a token at `pos` that the grammar does not allow there.
pub open spec fn unexpected(ts: Seq<Token>, pos: int) -> ParseError {
    if at_end(ts, pos) {
        end_of_input(ts, pos)
    } else {
        ParseError::UnexpectedToken { kind: ts[pos].spec_kind(), line: ts[pos].spec_line() }
    }
}

/// The leaf node a primitive token stands for.
pub open spec fn leaf(k: Kind) -> Option<JsonModel> {
    match k {
        Kind::Boolean(b) => Some(JsonModel::Boolean(b)),
        Kind::Null => Some(JsonModel::Null),
        Kind::String(t) => Some(JsonModel::Str(t@)),
        Kind::Number(t) => Some(JsonModel::Number(t@)),
        _ => None,
    }
}

/// The value that starts at `pos`, with the position after it; `budget` is how
/// many more arrays and objects may open.
pub open spec fn parse_value(ts: Seq<Token>, pos: int, budget: nat) -> Result<(JsonModel, int), ParseError>
    decreases budget, 1int, 0int,
{
    if at_end(ts, pos) {
        Err(end_of_input(ts, pos))
    } else {
        let k = kind_at(ts, pos);
        if k is BeginObject || k is BeginArray {
            if budget == 0 {
                Err(ParseError::TooDeep { line: ts[pos].spec_line() })
            } else if k is BeginObject {
                parse_object_body(ts, pos + 1, (budget - 1) as nat)
            } else {
                parse_array_body(ts, pos + 1, (budget - 1) as nat)
            }
        } else {
            match leaf(k) {
                Some(j) => Ok((j, pos + 1)),
                None => Err(unexpected(ts, pos)),
            }
        }
    }
}

/// An object from just after its `{`.
pub open spec fn parse_object_body(ts: Seq<Token>, pos: int, budget: nat) -> Result<(JsonModel, int), ParseError>
    decreases budget, 3int, 0int,
{
    if !at_end(ts, pos) && kind_at(ts, pos) is EndObject {
        Ok((JsonModel::Object(Seq::empty()), pos + 1))
    } else {
        parse_members(ts, pos, budget, Seq::empty())
    }
}

/// The members of an object from `pos`, where a member must start, having read
/// the members `es`; ends after the closing `}`.
pub open spec fn parse_members(
    ts: Seq<Token>,
    pos: int,
    budget: nat,
    es: Seq<(Seq<char>, JsonModel)>,
) -> Result<(JsonModel, int), ParseError>
    decreases budget, 2int, ts.len() - pos,
{
    if at_end(ts, pos) {
        Err(end_of_input(ts, pos))
    } else if !(kind_at(ts, pos) is String) {
        Err(ParseError::ExpectedString { kind: kind_at(ts, pos), line: ts[pos].spec_line() })
    } else if at_end(ts, pos + 1) || !(kind_at(ts, pos + 1) is NameSeparator) {
        Err(unexpected(ts, pos + 1))
    } else {
        match parse_value(ts, pos + 2, budget) {
            Err(e) => Err(e),
            Ok((v, q)) => {
                let es2 = insert_member(es, kind_at(ts, pos)->String_0@, v);
                if !(pos < q <= ts.len()) || at_end(ts, q) {
                    Err(end_of_input(ts, q))
                } else if kind_at(ts, q) is ValueSeparator {
                    if !at_end(ts, q + 1) && kind_at(ts, q + 1) is EndObject {
                        Err(unexpected(ts, q + 1))
                    } else {
                        parse_members(ts, q + 1, budget, es2)
                    }
                } else if kind_at(ts, q) is EndObject {
                    Ok((JsonModel::Object(es2), q + 1))
                } else {
                    Err(unexpected(ts, q))
                }
            },
        }
    }
}

/// An array from just after its `[`.
pub open spec fn parse_array_body(ts: Seq<Token>, pos: int, budget: nat) -> Result<(JsonModel, int), ParseError>
    decreases budget, 3int, 0int,
{
    if !at_end(ts, pos) && kind_at(ts, pos) is EndArray {
        Ok((JsonModel::Array(Seq::empty()), pos + 1))
    } else {
        parse_elements(ts, pos, budget, Seq::empty())
    }
}

/// The elements of an array from `pos`, where an element must start, having
/// read `items`; ends after the closing `]`.
pub open spec fn parse_elements(ts: Seq<Token>, pos: int, budget: nat, items: Seq<JsonModel>) -> Result<
    (JsonModel, int),
    ParseError,
>
    decreases budget, 2int, ts.len() - pos,
{
    match parse_value(ts, pos, budget) {
        Err(e) => Err(e),
        Ok((v, q)) => {
            let items2 = items.push(v);
            if !(pos < q <= ts.len()) || at_end(ts, q) {
                Err(end_of_input(ts, q))
            } else if kind_at(ts, q) is ValueSeparator {
                parse_elements(ts, q + 1, budget, items2)
            } else if kind_at(ts, q) is EndArray {
                Ok((JsonModel::Array(items2), q + 1))
            } else {
                Err(unexpected(ts, q))
            }
        },
    }
}

/// The document a token sequence holds: the value at its start.
pub open spec fn parse_spec(ts: Seq<Token>) -> Result<JsonModel, ParseError> {
    match parse_value(ts, 0, MAX_DEPTH as nat) {
        Ok((j, _)) => Ok(j),
        Err(e) => Err(e),
    }
}

pub open spec fn value_result(r: Result<(Json, usize), ParseError>) -> Result<(JsonModel, int), ParseError> {
    match r {
        Ok((j, q)) => Ok((j.model(), q as int)),
        Err(e) => Err(e),
    }
}

pub open spec fn items_model(v: Seq<Json>) -> Seq<JsonModel> {
    Seq::new(v.len(), |i: int| v[i].model())
}

fn is_end(ts: &Vec<Token>, pos: usize) -> (r: bool)
    ensures
        r == at_end(ts@, pos as int),
{
    pos >= ts.len() || matches!(ts[pos].kind_ref(), Kind::EOF)
}

fn end_error(ts: &Vec<Token>, pos: usize) -> (r: ParseError)
    ensures
        r == end_of_input(ts@, pos as int),
{
    let line = if pos < ts.len() {
        ts[pos].get_line()
    } else if ts.len() > 0 {
        ts[ts.len() - 1].get_line()
    } else {
        1
    };
    ParseError::UnexpectedEndOfInput { line }
}

fn error_at(ts: &Vec<Token>, pos: usize) -> (r: ParseError)
    ensures
        r == unexpected(ts@, pos as int),
{
    if is_end(ts, pos) {
        end_error(ts, pos)
    } else {
        ParseError::UnexpectedToken { kind: clone_kind(ts[pos].kind_ref()), line: ts[pos].get_line() }
    }
}

fn parse_value_at(ts: &Vec<Token>, pos: usize, budget: usize) -> (r: Result<(Json, usize), ParseError>)
    ensures
        value_result(r) == parse_value(ts@, pos as int, budget as nat),
        r matches Ok((_, q)) ==> pos < q <= ts.len(),
    decreases budget, 1int, 0int,
{
    if is_end(ts, pos) {
        return Err(end_error(ts, pos));
    }
    assert(pos < ts.len());
    match ts[pos].kind_ref() {
        Kind::BeginObject => {
            if budget == 0 {
                Err(ParseError::TooDeep { line: ts[pos].get_line() })
            } else {
                parse_object_at(ts, pos + 1, budget - 1)
            }
        },
        Kind::BeginArray => {
            if budget == 0 {
                Err(ParseError::TooDeep { line: ts[pos].get_line() })
            } else {
                parse_array_at(ts, pos + 1, budget - 1)
            }
        },
        Kind::Boolean(b) => Ok((Json::Boolean(*b), pos + 1)),
        Kind::Null => Ok((Json::Null, pos + 1)),
        Kind::String(t) => Ok((Json::Strings(t.clone()), pos + 1)),
        Kind::Number(t) => Ok((Json::Number(t.clone()), pos + 1)),
        _ => Err(error_at(ts, pos)),
    }
}

fn parse_object_at(ts: &Vec<Token>, pos: usize, budget: usize) -> (r: Result<(Json, usize), ParseError>)
    requires
        pos <= ts.len(),
    ensures
        value_result(r) == parse_object_body(ts@, pos as int, budget as nat),
        r matches Ok((_, q)) ==> pos < q <= ts.len(),
    decreases budget, 3int, 0int,
{
    if !is_end(ts, pos) && matches!(ts[pos].kind_ref(), Kind::EndObject) {
        let j = Json::Object(Vec::new());
        assert(j.model() == JsonModel::Object(Seq::empty())) by {
            assert(j.model()->Object_0 =~= Seq::<(Seq<char>, JsonModel)>::empty());
        }
        return Ok((j, pos + 1));
    }
    let mut es: Vec<(String, Json)> = Vec::new();
    let mut p: usize = pos;
    assert(entries_model(es@) =~= Seq::<(Seq<char>, JsonModel)>::empty());
    loop
        invariant
            pos <= p <= ts.len(),
            parse_object_body(ts@, pos as int, budget as nat) == parse_members(
                ts@,
                p as int,
                budget as nat,
                entries_model(es@),
            ),
        decreases ts.len() - p,
    {
        if is_end(ts, p) {
            return Err(end_error(ts, p));
        }
        let key = match ts[p].kind_ref() {
            Kind::String(t) => t.clone(),
            _ => {
                return Err(ParseError::ExpectedString { kind: clone_kind(ts[p].kind_ref()), line: ts[p].get_line() });
            },
        };
        if is_end(ts, p + 1) || !matches!(ts[p + 1].kind_ref(), Kind::NameSeparator) {
            return Err(error_at(ts, p + 1));
        }
        match parse_value_at(ts, p + 2, budget) {
            Err(e) => {
                return Err(e);
            },
            Ok((v, q)) => {
                insert_member_exec(&mut es, key, v);
                if is_end(ts, q) {
                    return Err(end_error(ts, q));
                }
                match ts[q].kind_ref() {
                    Kind::ValueSeparator => {
                        if !is_end(ts, q + 1) && matches!(ts[q + 1].kind_ref(), Kind::EndObject) {
                            return Err(error_at(ts, q + 1));
                        }
                        p = q + 1;
                    },
                    Kind::EndObject => {
                        let ghost em = entries_model(es@);
                        let j = Json::Object(es);
                        assert(j.model() == JsonModel::Object(em)) by {
                            assert(j.model()->Object_0 =~= em);
                        }
                        return Ok((j, q + 1));
                    },
                    _ => {
                        return Err(error_at(ts, q));
                    },
                }
            },
        }
    }
}

fn parse_array_at(ts: &Vec<Token>, pos: usize, budget: usize) -> (r: Result<(Json, usize), ParseError>)
    requires
        pos <= ts.len(),
    ensures
        value_result(r) == parse_array_body(ts@, pos as int, budget as nat),
        r matches Ok((_, q)) ==> pos < q <= ts.len(),
    decreases budget, 3int, 0int,
{
    if !is_end(ts, pos) && matches!(ts[pos].kind_ref(), Kind::EndArray) {
        let j = Json::Array(Vec::new());
        assert(j.model() == JsonModel::Array(Seq::empty())) by {
            assert(j.model()->Array_0 =~= Seq::<JsonModel>::empty());
        }
        return Ok((j, pos + 1));
    }
    let mut items: Vec<Json> = Vec::new();
    let mut p: usize = pos;
    assert(items_model(items@) =~= Seq::<JsonModel>::empty());
    loop
        invariant
            pos <= p <= ts.len(),
            parse_array_body(ts@, pos as int, budget as nat) == parse_elements(
                ts@,
                p as int,
                budget as nat,
                items_model(items@),
            ),
        decreases ts.len() - p,
    {
        match parse_value_at(ts, p, budget) {
            Err(e) => {
                return Err(e);
            },
            Ok((v, q)) => {
                let ghost pre = items_model(items@);
                let ghost vm = v.model();
                items.push(v);
                assert(items_model(items@) =~= pre.push(vm));
                if is_end(ts, q) {
                    return Err(end_error(ts, q));
                }
                match ts[q].kind_ref() {
                    Kind::ValueSeparator => {
                        p = q + 1;
                    },
                    Kind::EndArray => {
                        let ghost im = items_model(items@);
                        let j = Json::Array(items);
                        assert(j.model() == JsonModel::Array(im)) by {
                            assert(j.model()->Array_0 =~= im);
                        }
                        return Ok((j, q + 1));
                    },
                    _ => {
                        return Err(error_at(ts, q));
                    },
                }
            },
        }
    }
}

/// Parses values from a token sequence, one after another.
pub struct Parser {
    tokens: Vec<Token>,
    current: usize,
}

impl Parser {
    pub closed spec fn token_seq(&self) -> Seq<Token> {
        self.tokens@
    }

    /// The index of the next token to read.
    pub closed spec fn cursor(&self) -> usize {
        self.current
    }

    pub fn new(tokens: Vec<Token>) -> (r: Parser)
        ensures
            r.token_seq() == tokens@,
            r.cursor() == 0,
    {
        Parser { tokens, current: 0 }
    }

    /// A parser over the tokens of `s`, or the error that lexing `s` met.
    pub fn from_string(s: String) -> (r: Result<Parser, LexError>)
        requires
            s@.len() < u32::MAX,
        ensures
            r matches Ok(p) ==> lex_spec(s@) == Ok::<_, crate::lexen::LexErrorModel>(tokens_model(p.token_seq()))
                && p.cursor() == 0,
            r matches Err(e) ==> lex_spec(s@) == Err::<Seq<(crate::token::KindModel, nat)>, _>(e.model()),
    {
        let mut lexer = Lexer::new(s);
        match lexer.lex() {
            Ok(tokens) => Ok(Parser::new(tokens)),
            Err(e) => Err(e),
        }
    }

    /// The value that starts at the current token; on success the parser moves
    /// past it, on failure it stays where it was.
    pub fn parse(&mut self) -> (r: Result<Json, ParseError>)
        ensures
            final(self).token_seq() == old(self).token_seq(),
            r matches Ok(j) ==> parse_value(old(self).token_seq(), old(self).cursor() as int, MAX_DEPTH as nat)
                == Ok::<(JsonModel, int), ParseError>((j.model(), final(self).cursor() as int)),
            r matches Err(e) ==> parse_value(old(self).token_seq(), old(self).cursor() as int, MAX_DEPTH as nat)
                == Err::<(JsonModel, int), ParseError>(e) && final(self).cursor() == old(self).cursor(),
            r matches Ok(j) ==> well_formed(j.model(), MAX_DEPTH as nat),
    {
        proof {
            lemma_parsed_tree_well_formed(self.tokens@, self.current as int);
        }
        match parse_value_at(&self.tokens, self.current, MAX_DEPTH) {
            Ok((j, q)) => {
                self.current = q;
                Ok(j)
            },
            Err(e) => Err(e),
        }
    }
}

impl Kind {
    /// The leaf node of a primitive token.
    pub fn to_json(self) -> (r: Json)
        requires
            leaf(self) is Some,
        ensures
            leaf(self) == Some(r.model()),
    {
        match self {
            Kind::Boolean(b) => Json::Boolean(b),
            Kind::String(t) => Json::Strings(t),
            Kind::Number(t) => Json::Number(t),
            _ => Json::Null,
        }
    }
}

/// The tokens that write `j` out.
pub open spec fn value_tokens(j: JsonModel) -> Seq<KindModel>
    decreases j, 0int,
{
    match j {
        JsonModel::Null => seq![KindModel::Null],
        JsonModel::Boolean(b) => seq![KindModel::Boolean(b)],
        JsonModel::Number(t) => seq![KindModel::Number(t)],
        JsonModel::Str(t) => seq![KindModel::Str(t)],
        JsonModel::Array(items) => seq![KindModel::BeginArray] + elements_tokens(items, 0) + seq![KindModel::EndArray],
        JsonModel::Object(es) => seq![KindModel::BeginObject] + members_tokens(es, 0) + seq![KindModel::EndObject],
    }
}

/// The tokens of the array elements from index `i` on, separated by commas.
pub open spec fn elements_tokens(items: Seq<JsonModel>, i: int) -> Seq<KindModel>
    decreases items, items.len() - i,
{
    if 0 <= i < items.len() {
        value_tokens(items[i]) + if i + 1 < items.len() {
            seq![KindModel::ValueSeparator] + elements_tokens(items, i + 1)
        } else {
            Seq::empty()
        }
    } else {
        Seq::empty()
    }
}

/// The tokens of the object members from index `i` on, separated by commas.
pub open spec fn members_tokens(es: Seq<(Seq<char>, JsonModel)>, i: int) -> Seq<KindModel>
    decreases es, es.len() - i,
{
    if 0 <= i < es.len() {
        seq![KindModel::Str(es[i].0), KindModel::NameSeparator] + value_tokens(es[i].1) + if i + 1 < es.len() {
            seq![KindModel::ValueSeparator] + members_tokens(es, i + 1)
        } else {
            Seq::empty()
        }
    } else {
        Seq::empty()
    }
}

/// The tokens of `ts` from `pos` on begin with tokens of the kinds `toks`.
pub open spec fn tokens_at(ts: Seq<Token>, pos: int, toks: Seq<KindModel>) -> bool {
    &&& 0 <= pos
    &&& pos + toks.len() <= ts.len()
    &&& forall|i: int| 0 <= i < toks.len() ==> #[trigger] ts[pos + i].spec_kind().model() == toks[i]
}

proof fn lemma_tokens_at_split(ts: Seq<Token>, pos: int, a: Seq<KindModel>, b: Seq<KindModel>)
    requires
        tokens_at(ts, pos, a + b),
    ensures
        tokens_at(ts, pos, a),
        tokens_at(ts, pos + a.len(), b),
{
    assert forall|i: int| 0 <= i < a.len() implies #[trigger] ts[pos + i].spec_kind().model() == a[i] by {
        assert((a + b)[i] == a[i]);
    }
    assert forall|i: int| 0 <= i < b.len() implies #[trigger] ts[pos + a.len() + i].spec_kind().model() == b[i] by {
        assert((a + b)[a.len() + i] == b[i]);
        assert(pos + (a.len() + i) == pos + a.len() + i);
    }
}

proof fn lemma_value_tokens_start(j: JsonModel)
    ensures
        value_tokens(j).len() > 0,
        !(value_tokens(j)[0] is EndArray),
        !(value_tokens(j)[0] is EndObject),
        !(value_tokens(j)[0] is Eof),
{
}

proof fn lemma_parse_value_tokens(ts: Seq<Token>, pos: int, b: nat, j: JsonModel)
    requires
        well_formed(j, b),
        tokens_at(ts, pos, value_tokens(j)),
    ensures
        parse_value(ts, pos, b) == Ok::<(JsonModel, int), ParseError>((j, pos + value_tokens(j).len())),
    decreases j, 0int,
{
    lemma_value_tokens_start(j);
    assert(ts[pos + 0].spec_kind().model() == value_tokens(j)[0]);
    assert(pos + 0 == pos);
    match j {
        JsonModel::Array(items) => {
            let body = elements_tokens(items, 0);
            assert(value_tokens(j) == seq![KindModel::BeginArray] + body + seq![KindModel::EndArray]);
            lemma_tokens_at_split(ts, pos, seq![KindModel::BeginArray] + body, seq![KindModel::EndArray]);
            lemma_tokens_at_split(ts, pos, seq![KindModel::BeginArray], body);
            assert((seq![KindModel::BeginArray] + body).len() == 1 + body.len());
            lemma_tokens_at_split(ts, pos + 1, body, seq![KindModel::EndArray]);
            assert(ts[pos + 1 + body.len() + 0].spec_kind().model() == KindModel::EndArray);
            if items.len() == 0 {
                assert(body.len() == 0);
                assert(ts[pos + 1 + 0].spec_kind().model() == KindModel::EndArray);
                assert(items =~= Seq::<JsonModel>::empty());
            } else {
                assert(tokens_at(ts, pos + 1, body + seq![KindModel::EndArray]));
                lemma_parse_elements_tokens(ts, pos + 1, (b - 1) as nat, items, 0);
                lemma_value_tokens_start(items[0]);
                assert(body[0] == value_tokens(items[0])[0]);
                assert(ts[pos + 1 + 0].spec_kind().model() == body[0]);
                assert(items.take(0) =~= Seq::<JsonModel>::empty());
            }
        },
        JsonModel::Object(es) => {
            let body = members_tokens(es, 0);
            assert(value_tokens(j) == seq![KindModel::BeginObject] + body + seq![KindModel::EndObject]);
            lemma_tokens_at_split(ts, pos, seq![KindModel::BeginObject] + body, seq![KindModel::EndObject]);
            lemma_tokens_at_split(ts, pos, seq![KindModel::BeginObject], body);
            assert((seq![KindModel::BeginObject] + body).len() == 1 + body.len());
            lemma_tokens_at_split(ts, pos + 1, body, seq![KindModel::EndObject]);
            assert(ts[pos + 1 + body.len() + 0].spec_kind().model() == KindModel::EndObject);
            if es.len() == 0 {
                assert(body.len() == 0);
                assert(ts[pos + 1 + 0].spec_kind().model() == KindModel::EndObject);
                assert(es =~= Seq::<(Seq<char>, JsonModel)>::empty());
            } else {
                assert(tokens_at(ts, pos + 1, body + seq![KindModel::EndObject]));
                lemma_parse_members_tokens(ts, pos + 1, (b - 1) as nat, es, 0);
                assert(body[0] == KindModel::Str(es[0].0));
                assert(ts[pos + 1 + 0].spec_kind().model() == body[0]);
                assert(es.take(0) =~= Seq::<(Seq<char>, JsonModel)>::empty());
            }
        },
        _ => {},
    }
}

proof fn lemma_parse_elements_tokens(ts: Seq<Token>, p: int, b: nat, items: Seq<JsonModel>, i: int)
    requires
        0 <= i < items.len(),
        forall|k: int| 0 <= k < items.len() ==> well_formed(#[trigger] items[k], b),
        tokens_at(ts, p, elements_tokens(items, i) + seq![KindModel::EndArray]),
    ensures
        parse_elements(ts, p, b, items.take(i)) == Ok::<(JsonModel, int), ParseError>(
            (JsonModel::Array(items), p + elements_tokens(items, i).len() + 1),
        ),
    decreases items, items.len() - i,
{
    let v = value_tokens(items[i]);
    let rest = if i + 1 < items.len() {
        seq![KindModel::ValueSeparator] + elements_tokens(items, i + 1)
    } else {
        Seq::<KindModel>::empty()
    };
    assert(elements_tokens(items, i) == v + rest);
    assert(elements_tokens(items, i) + seq![KindModel::EndArray] == v + (rest + seq![KindModel::EndArray]));
    lemma_tokens_at_split(ts, p, v, rest + seq![KindModel::EndArray]);
    lemma_parse_value_tokens(ts, p, b, items[i]);
    let q = p + v.len();
    lemma_value_tokens_start(items[i]);
    assert(items.take(i).push(items[i]) =~= items.take(i + 1));
    assert(ts[q + 0].spec_kind().model() == (rest + seq![KindModel::EndArray])[0]);
    assert(q + 0 == q);
    if i + 1 < items.len() {
        lemma_tokens_at_split(ts, q, seq![KindModel::ValueSeparator], elements_tokens(items, i + 1) + seq![KindModel::EndArray]);
        assert(rest + seq![KindModel::EndArray] == seq![KindModel::ValueSeparator] + (elements_tokens(items, i + 1) + seq![KindModel::EndArray]));
        lemma_parse_elements_tokens(ts, q + 1, b, items, i + 1);
    } else {
        assert(items.take(i + 1) =~= items);
    }
}

proof fn lemma_parse_members_tokens(ts: Seq<Token>, p: int, b: nat, es: Seq<(Seq<char>, JsonModel)>, i: int)
    requires
        0 <= i < es.len(),
        keys_unique(es),
        forall|k: int| 0 <= k < es.len() ==> well_formed(#[trigger] es[k].1, b),
        tokens_at(ts, p, members_tokens(es, i) + seq![KindModel::EndObject]),
    ensures
        parse_members(ts, p, b, es.take(i)) == Ok::<(JsonModel, int), ParseError>(
            (JsonModel::Object(es), p + members_tokens(es, i).len() + 1),
        ),
    decreases es, es.len() - i,
{
    let head = seq![KindModel::Str(es[i].0), KindModel::NameSeparator];
    let v = value_tokens(es[i].1);
    let rest = if i + 1 < es.len() {
        seq![KindModel::ValueSeparator] + members_tokens(es, i + 1)
    } else {
        Seq::<KindModel>::empty()
    };
    assert(members_tokens(es, i) == head + v + rest);
    assert(members_tokens(es, i) + seq![KindModel::EndObject] == head + (v + (rest + seq![KindModel::EndObject])));
    lemma_tokens_at_split(ts, p, head, v + (rest + seq![KindModel::EndObject]));
    lemma_tokens_at_split(ts, p + 2, v, rest + seq![KindModel::EndObject]);
    assert(ts[p + 0].spec_kind().model() == head[0]);
    assert(ts[p + 1].spec_kind().model() == head[1]);
    assert(p + 0 == p);
    lemma_parse_value_tokens(ts, p + 2, b, es[i].1);
    let q = p + 2 + v.len();
    lemma_value_tokens_start(es[i].1);
    // The key is new among the members read so far.
    lemma_key_index_from(es.take(i), es[i].0, 0);
    if key_index(es.take(i), es[i].0) >= 0 {
        let k = key_index(es.take(i), es[i].0);
        assert(es[k].0 == es[i].0);
    }
    assert(insert_member(es.take(i), es[i].0, es[i].1) =~= es.take(i + 1));
    assert(ts[q + 0].spec_kind().model() == (rest + seq![KindModel::EndObject])[0]);
    assert(q + 0 == q);
    if i + 1 < es.len() {
        lemma_tokens_at_split(ts, q, seq![KindModel::ValueSeparator], members_tokens(es, i + 1) + seq![KindModel::EndObject]);
        assert(rest + seq![KindModel::EndObject] == seq![KindModel::ValueSeparator] + (members_tokens(es, i + 1) + seq![KindModel::EndObject]));
        lemma_parse_members_tokens(ts, q + 1, b, es, i + 1);
    } else {
        assert(es.take(i + 1) =~= es);
    }
}

/// Parsing inverts writing out: the tokens that write out a tree whose objects
/// have unique keys and whose nesting stays within `MAX_DEPTH` parse without
/// error, back to that very tree, whatever their lines and whatever follows.
pub proof fn lemma_parse_round_trip(ts: Seq<Token>, j: JsonModel)
    requires
        well_formed(j, MAX_DEPTH as nat),
        tokens_at(ts, 0, value_tokens(j)),
    ensures
        parse_spec(ts) == Ok::<JsonModel, ParseError>(j),
        parse_value(ts, 0, MAX_DEPTH as nat) == Ok::<(JsonModel, int), ParseError>((j, value_tokens(j).len() as int)),
{
    lemma_parse_value_tokens(ts, 0, MAX_DEPTH as nat, j);
}

/// Every member of `insert_member(es, k, v)` is a member of `es` or `(k, v)`.
proof fn lemma_insert_members(es: Seq<(Seq<char>, JsonModel)>, k: Seq<char>, v: JsonModel, b: nat)
    requires
        forall|i: int| 0 <= i < es.len() ==> well_formed(#[trigger] es[i].1, b),
        well_formed(v, b),
    ensures
        forall|i: int| 0 <= i < insert_member(es, k, v).len() ==> well_formed(#[trigger] insert_member(es, k, v)[i].1, b),
{
    let es2 = insert_member(es, k, v);
    let idx = key_index(es, k);
    lemma_key_index_from(es, k, 0);
    assert forall|i: int| 0 <= i < es2.len() implies well_formed(#[trigger] es2[i].1, b) by {
        if idx >= 0 {
            if i == idx {
                assert(es2[i] == (k, v));
            } else {
                assert(es2[i] == es[i]);
            }
        } else if i < es.len() {
            assert(es2[i] == es[i]);
        } else {
            assert(es2[i] == (k, v));
        }
    }
}

proof fn lemma_parsed_value_well_formed(ts: Seq<Token>, pos: int, b: nat)
    ensures
        parse_value(ts, pos, b) matches Ok((j, _)) ==> well_formed(j, b),
    decreases b, 1int, 0int,
{
    if !at_end(ts, pos) && b > 0 {
        let k = kind_at(ts, pos);
        if k is BeginObject {
            lemma_parsed_object_well_formed(ts, pos + 1, (b - 1) as nat);
        } else if k is BeginArray {
            lemma_parsed_array_well_formed(ts, pos + 1, (b - 1) as nat);
        }
    }
}

proof fn lemma_parsed_object_well_formed(ts: Seq<Token>, pos: int, b: nat)
    ensures
        parse_object_body(ts, pos, b) matches Ok((j, _)) ==> well_formed(j, b + 1),
    decreases b, 3int, 0int,
{
    if !(!at_end(ts, pos) && kind_at(ts, pos) is EndObject) {
        lemma_parsed_members_well_formed(ts, pos, b, Seq::empty());
    }
}

proof fn lemma_parsed_members_well_formed(ts: Seq<Token>, pos: int, b: nat, es: Seq<(Seq<char>, JsonModel)>)
    requires
        keys_unique(es),
        forall|i: int| 0 <= i < es.len() ==> well_formed(#[trigger] es[i].1, b),
    ensures
        parse_members(ts, pos, b, es) matches Ok((j, _)) ==> well_formed(j, b + 1),
    decreases b, 2int, ts.len() - pos,
{
    if !at_end(ts, pos) && kind_at(ts, pos) is String && !at_end(ts, pos + 1) && kind_at(ts, pos + 1) is NameSeparator {
        lemma_parsed_value_well_formed(ts, pos + 2, b);
        match parse_value(ts, pos + 2, b) {
            Ok((v, q)) => {
                let key = kind_at(ts, pos)->String_0@;
                lemma_insert_keeps_keys_unique(es, key, v);
                lemma_insert_members(es, key, v, b);
                if pos < q <= ts.len() && !at_end(ts, q) && kind_at(ts, q) is ValueSeparator {
                    lemma_parsed_members_well_formed(ts, q + 1, b, insert_member(es, key, v));
                }
            },
            Err(_) => {},
        }
    }
}

proof fn lemma_parsed_array_well_formed(ts: Seq<Token>, pos: int, b: nat)
    ensures
        parse_array_body(ts, pos, b) matches Ok((j, _)) ==> well_formed(j, b + 1),
    decreases b, 3int, 0int,
{
    if !(!at_end(ts, pos) && kind_at(ts, pos) is EndArray) {
        lemma_parsed_elements_well_formed(ts, pos, b, Seq::empty());
    }
}

proof fn lemma_parsed_elements_well_formed(ts: Seq<Token>, pos: int, b: nat, items: Seq<JsonModel>)
    requires
        forall|i: int| 0 <= i < items.len() ==> well_formed(#[trigger] items[i], b),
    ensures
        parse_elements(ts, pos, b, items) matches Ok((j, _)) ==> well_formed(j, b + 1),
    decreases b, 2int, ts.len() - pos,
{
    lemma_parsed_value_well_formed(ts, pos, b);
    match parse_value(ts, pos, b) {
        Ok((v, q)) => {
            let items2 = items.push(v);
            assert forall|i: int| 0 <= i < items2.len() implies well_formed(#[trigger] items2[i], b) by {
                if i < items.len() {
                    assert(items2[i] == items[i]);
                }
            }
            if pos < q <= ts.len() && !at_end(ts, q) && kind_at(ts, q) is ValueSeparator {
                lemma_parsed_elements_well_formed(ts, q + 1, b, items2);
            }
        },
        Err(_) => {},
    }
}

/// Every tree that parsing gives is well formed: no object has two members
/// with equal keys (a repeated key keeps its last value), and arrays and
/// objects nest at most `MAX_DEPTH` deep.
pub proof fn lemma_parsed_tree_well_formed(ts: Seq<Token>, pos: int)
    ensures
        parse_value(ts, pos, MAX_DEPTH as nat) matches Ok((j, _)) ==> well_formed(j, MAX_DEPTH as nat),
{
    lemma_parsed_value_well_formed(ts, pos, MAX_DEPTH as nat);
}

} // verus!
