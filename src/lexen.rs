//! The lexer: text to tokens.
use vstd::prelude::*;
use crate::text::{chars_of, string_of, char_from_code};
use crate::token::{Kind, KindModel, Token};

verus! {

/// Why lexing stopped.
#[derive(Debug, Clone, PartialEq, Eq)]
pub enum LexError {
    /// A character that starts no token.
    UnknownCharacter { ch: char, line: u32 },
    /// End of input inside a string literal.
    UnterminatedString { line: u32 },
    /// A `\u` escape without four hex digits, or naming no Unicode scalar value.
    InvalidEscape { line: u32 },
    /// A numeral that breaks the number grammar.
    InvalidNumber { line: u32 },
    /// A run of lowercase letters other than `true`, `false`, `null`.
    UnknownLiteral { text: String, line: u32 },
}

/// The mathematical value of a [`LexError`].
pub enum LexErrorModel {
    UnknownCharacter(char, nat),
    UnterminatedString(nat),
    InvalidEscape(nat),
    InvalidNumber(nat),
    UnknownLiteral(Seq<char>, nat),
}

impl LexError {
    pub open spec fn model(&self) -> LexErrorModel {
        match self {
            LexError::UnknownCharacter { ch, line } => LexErrorModel::UnknownCharacter(*ch, *line as nat),
            LexError::UnterminatedString { line } => LexErrorModel::UnterminatedString(*line as nat),
            LexError::InvalidEscape { line } => LexErrorModel::InvalidEscape(*line as nat),
            LexError::InvalidNumber { line } => LexErrorModel::InvalidNumber(*line as nat),
            LexError::UnknownLiteral { text, line } => LexErrorModel::UnknownLiteral(text@, *line as nat),
        }
    }
}

pub open spec fn is_ws(c: char) -> bool {
    c == ' ' || c == '\t' || c == '\r' || c == '\n'
}

pub open spec fn is_digit(c: char) -> bool {
    '0' <= c && c <= '9'
}

pub open spec fn is_lower(c: char) -> bool {
    'a' <= c && c <= 'z'
}

pub open spec fn is_structural(c: char) -> bool {
    c == '{' || c == '}' || c == '[' || c == ']' || c == ':' || c == ','
}

/// A character that ends a numeral.
pub open spec fn ends_number(c: char) -> bool {
    is_ws(c) || is_structural(c)
}

/// Position and line after the whitespace that starts at `pos`.
pub open spec fn skip_ws(s: Seq<char>, pos: int, line: nat) -> (int, nat)
    decreases s.len() - pos,
{
    if 0 <= pos < s.len() && is_ws(s[pos]) {
        skip_ws(s, pos + 1, if s[pos] == '\n' { line + 1 } else { line })
    } else {
        (pos, line)
    }
}

/// The end of the run of characters from `pos` that satisfy `f`.
pub open spec fn run_end(s: Seq<char>, pos: int, f: spec_fn(char) -> bool) -> int
    decreases s.len() - pos,
{
    if 0 <= pos < s.len() && f(s[pos]) {
        run_end(s, pos + 1, f)
    } else {
        pos
    }
}

pub open spec fn digits_end(t: Seq<char>, i: int) -> int {
    run_end(t, i, |c: char| is_digit(c))
}

/// `t` matches `['-'] digits ['.' digits] [('e'|'E') ['+'|'-'] digits]`.
pub open spec fn valid_number(t: Seq<char>) -> bool {
    let a: int = if t.len() > 0 && t[0] == '-' { 1 } else { 0 };
    let b = digits_end(t, a);
    let c = if b < t.len() && t[b] == '.' { digits_end(t, b + 1) } else { b };
    let has_exp = c < t.len() && (t[c] == 'e' || t[c] == 'E');
    let e: int = if has_exp && c + 1 < t.len() && (t[c + 1] == '+' || t[c + 1] == '-') {
        c + 2
    } else {
        c + 1
    };
    let d = if has_exp { digits_end(t, e) } else { c };
    &&& b > a
    &&& (c == b || c > b + 1)
    &&& (has_exp ==> d > e)
    &&& d == t.len()
}

/// The end of the numeral that starts at `pos`.
pub open spec fn number_end(s: Seq<char>, pos: int) -> int {
    run_end(s, pos, |c: char| !ends_number(c))
}

/// The end of the literal (a run of lowercase letters) that starts at `pos`.
pub open spec fn literal_end(s: Seq<char>, pos: int) -> int {
    run_end(s, pos, |c: char| is_lower(c))
}

/// The token kind of a literal word, if it is one.
pub open spec fn literal_kind(w: Seq<char>) -> Option<KindModel> {
    if w == seq!['t', 'r', 'u', 'e'] {
        Some(KindModel::Boolean(true))
    } else if w == seq!['f', 'a', 'l', 's', 'e'] {
        Some(KindModel::Boolean(false))
    } else if w == seq!['n', 'u', 'l', 'l'] {
        Some(KindModel::Null)
    } else {
        None
    }
}


pub open spec fn hex_value(c: char) -> Option<nat> {
    if '0' <= c && c <= '9' {
        Some((c as nat - '0' as nat) as nat)
    } else if 'a' <= c && c <= 'f' {
        Some((c as nat - 'a' as nat + 10) as nat)
    } else if 'A' <= c && c <= 'F' {
        Some((c as nat - 'A' as nat + 10) as nat)
    } else {
        None
    }
}

/// A Unicode scalar value: a code point outside the surrogate range.
pub open spec fn is_scalar(code: nat) -> bool {
    code < 0xD800 || (0xE000 <= code && code <= 0x10FFFF)
}

/// The character that four hex digits from `i` name, if they are four hex digits
/// naming a Unicode scalar value.
pub open spec fn unicode_escape(s: Seq<char>, i: int) -> Option<char> {
    if 0 <= i && i + 4 <= s.len() && hex_value(s[i]) is Some && hex_value(s[i + 1]) is Some
        && hex_value(s[i + 2]) is Some && hex_value(s[i + 3]) is Some {
        let code = hex_value(s[i])->0 * 4096 + hex_value(s[i + 1])->0 * 256
            + hex_value(s[i + 2])->0 * 16 + hex_value(s[i + 3])->0;
        if is_scalar(code) {
            Some(code as char)
        } else {
            None
        }
    } else {
        None
    }
}

/// The character an escape `\e` stands for, for every `e` other than `u`/`U`;
/// an unrecognised escape stands for the character itself.
pub open spec fn unescape(e: char) -> char {
    if e == 'b' {
        '\x08'
    } else if e == 't' {
        '\t'
    } else if e == 'n' {
        '\n'
    } else if e == 'f' {
        '\x0c'
    } else if e == 'r' {
        '\r'
    } else {
        e
    }
}

/// Scans the rest of a string literal from `pos` (just after the opening quote or
/// an earlier character), having collected `acc`; on success gives the content,
/// the position after the closing quote and the line there.
pub open spec fn scan_string(s: Seq<char>, pos: int, line: nat, acc: Seq<char>) -> Result<
    (Seq<char>, int, nat),
    LexErrorModel,
>
    decreases s.len() - pos,
{
    if !(0 <= pos < s.len()) {
        Err(LexErrorModel::UnterminatedString(line))
    } else if s[pos] == '"' {
        Ok((acc, pos + 1, line))
    } else if s[pos] == '\\' {
        if pos + 1 >= s.len() {
            Err(LexErrorModel::UnterminatedString(line))
        } else if s[pos + 1] == 'u' || s[pos + 1] == 'U' {
            match unicode_escape(s, pos + 2) {
                Some(c) => scan_string(s, pos + 6, line, acc.push(c)),
                None => Err(LexErrorModel::InvalidEscape(line)),
            }
        } else {
            scan_string(s, pos + 2, if s[pos + 1] == '\n' { line + 1 } else { line }, acc.push(unescape(s[pos + 1])))
        }
    } else {
        scan_string(s, pos + 1, if s[pos] == '\n' { line + 1 } else { line }, acc.push(s[pos]))
    }
}

/// One token from `pos`, where a token starts: its kind, the position after it
/// and the line there.
pub open spec fn lex_step(s: Seq<char>, pos: int, line: nat) -> Result<(KindModel, int, nat), LexErrorModel> {
    let c = s[pos];
    if c == '{' {
        Ok((KindModel::BeginObject, pos + 1, line))
    } else if c == '[' {
        Ok((KindModel::BeginArray, pos + 1, line))
    } else if c == '}' {
        Ok((KindModel::EndObject, pos + 1, line))
    } else if c == ']' {
        Ok((KindModel::EndArray, pos + 1, line))
    } else if c == ':' {
        Ok((KindModel::NameSeparator, pos + 1, line))
    } else if c == ',' {
        Ok((KindModel::ValueSeparator, pos + 1, line))
    } else if c == '"' {
        match scan_string(s, pos + 1, line, Seq::empty()) {
            Ok((t, q, l)) => Ok((KindModel::Str(t), q, l)),
            Err(e) => Err(e),
        }
    } else if c == '-' || is_digit(c) {
        let t = s.subrange(pos, number_end(s, pos));
        if valid_number(t) {
            Ok((KindModel::Number(t), number_end(s, pos), line))
        } else {
            Err(LexErrorModel::InvalidNumber(line))
        }
    } else if c == 't' || c == 'f' || c == 'n' {
        let w = s.subrange(pos, literal_end(s, pos));
        match literal_kind(w) {
            Some(k) => Ok((k, literal_end(s, pos), line)),
            None => Err(LexErrorModel::UnknownLiteral(w, line)),
        }
    } else {
        Err(LexErrorModel::UnknownCharacter(c, line))
    }
}

/// The tokens of `s` from `pos` on, each with its line, ending with `EOF`.
pub open spec fn lex_from(s: Seq<char>, pos: int, line: nat) -> Result<Seq<(KindModel, nat)>, LexErrorModel>
    decreases s.len() - pos,
{
    let (p, l) = skip_ws(s, pos, line);
    if !(0 <= p < s.len()) {
        Ok(seq![(KindModel::Eof, l)])
    } else {
        match lex_step(s, p, l) {
            Err(e) => Err(e),
            Ok((k, q, l2)) => if pos < q <= s.len() {
                match lex_from(s, q, l2) {
                    Ok(rest) => Ok(seq![(k, l)] + rest),
                    Err(e) => Err(e),
                }
            } else {
                Err(LexErrorModel::UnknownCharacter(s[p], l))
            },
        }
    }
}

/// The tokens of `s`, lines counted from 1.
pub open spec fn lex_spec(s: Seq<char>) -> Result<Seq<(KindModel, nat)>, LexErrorModel> {
    lex_from(s, 0, 1)
}

pub open spec fn token_model(t: Token) -> (KindModel, nat) {
    (t.spec_kind().model(), t.spec_line() as nat)
}

pub open spec fn tokens_model(ts: Seq<Token>) -> Seq<(KindModel, nat)> {
    ts.map_values(|t: Token| token_model(t))
}

pub open spec fn lex_result_model(r: Result<Vec<Token>, LexError>) -> Result<Seq<(KindModel, nat)>, LexErrorModel> {
    match r {
        Ok(ts) => Ok(tokens_model(ts@)),
        Err(e) => Err(e.model()),
    }
}

pub open spec fn step_model(r: Result<(Kind, usize, u32), LexError>) -> Result<(KindModel, int, nat), LexErrorModel> {
    match r {
        Ok((k, q, l)) => Ok((k.model(), q as int, l as nat)),
        Err(e) => Err(e.model()),
    }
}

fn is_ws_char(c: char) -> (r: bool)
    ensures
        r == is_ws(c),
{
    c == ' ' || c == '\t' || c == '\r' || c == '\n'
}

fn is_digit_char(c: char) -> (r: bool)
    ensures
        r == is_digit(c),
{
    '0' <= c && c <= '9'
}

fn skip_whitespace(s: &Vec<char>, pos: usize, line: u32) -> (r: (usize, u32))
    requires
        pos <= s.len(),
        line <= pos + 1,
        s.len() < u32::MAX,
    ensures
        (r.0 as int, r.1 as nat) == skip_ws(s@, pos as int, line as nat),
        pos <= r.0 <= s.len(),
        r.1 <= r.0 + 1,
{
    let mut p: usize = pos;
    let mut l: u32 = line;
    while p < s.len() && is_ws_char(s[p])
        invariant
            pos <= p <= s.len(),
            l <= p + 1,
            s.len() < u32::MAX,
            skip_ws(s@, pos as int, line as nat) == skip_ws(s@, p as int, l as nat),
        decreases s.len() - p,
    {
        if s[p] == '\n' {
            l = l + 1;
        }
        p = p + 1;
    }
    (p, l)
}

fn digits_from(t: &Vec<char>, i: usize) -> (r: usize)
    requires
        i <= t.len(),
    ensures
        r as int == digits_end(t@, i as int),
        i <= r <= t.len(),
{
    let mut j: usize = i;
    while j < t.len() && is_digit_char(t[j])
        invariant
            i <= j <= t.len(),
            digits_end(t@, i as int) == digits_end(t@, j as int),
        decreases t.len() - j,
    {
        j = j + 1;
    }
    j
}

/// Whether `t` matches the number grammar.
pub fn is_valid_number(t: &Vec<char>) -> (r: bool)
    ensures
        r == valid_number(t@),
{
    let n = t.len();
    let a: usize = if n > 0 && t[0] == '-' { 1 } else { 0 };
    let b = digits_from(t, a);
    if b == a {
        return false;
    }
    let c = if b < n && t[b] == '.' { digits_from(t, b + 1) } else { b };
    if c != b && c == b + 1 {
        return false;
    }
    let has_exp = c < n && (t[c] == 'e' || t[c] == 'E');
    if has_exp {
        let e: usize = if c + 1 < n && (t[c + 1] == '+' || t[c + 1] == '-') { c + 2 } else { c + 1 };
        if e > n {
            return false;
        }
        let d = digits_from(t, e);
        d > e && d == n
    } else {
        c == n
    }
}

fn number_end_from(s: &Vec<char>, pos: usize) -> (r: usize)
    requires
        pos <= s.len(),
    ensures
        r as int == number_end(s@, pos as int),
        pos <= r <= s.len(),
{
    let mut j: usize = pos;
    while j < s.len() && !(is_ws_char(s[j]) || s[j] == '{' || s[j] == '}' || s[j] == '[' || s[j] == ']'
        || s[j] == ':' || s[j] == ',')
        invariant
            pos <= j <= s.len(),
            number_end(s@, pos as int) == number_end(s@, j as int),
        decreases s.len() - j,
    {
        j = j + 1;
    }
    j
}

fn literal_end_from(s: &Vec<char>, pos: usize) -> (r: usize)
    requires
        pos <= s.len(),
    ensures
        r as int == literal_end(s@, pos as int),
        pos <= r <= s.len(),
{
    let mut j: usize = pos;
    while j < s.len() && 'a' <= s[j] && s[j] <= 'z'
        invariant
            pos <= j <= s.len(),
            literal_end(s@, pos as int) == literal_end(s@, j as int),
        decreases s.len() - j,
    {
        j = j + 1;
    }
    j
}

fn slice_chars(s: &Vec<char>, from: usize, to: usize) -> (r: Vec<char>)
    requires
        from <= to <= s.len(),
    ensures
        r@ == s@.subrange(from as int, to as int),
{
    let mut v: Vec<char> = Vec::new();
    let mut j: usize = from;
    while j < to
        invariant
            from <= j <= to <= s.len(),
            v@ == s@.subrange(from as int, j as int),
        decreases to - j,
    {
        v.push(s[j]);
        j = j + 1;
        assert(v@ =~= s@.subrange(from as int, j as int));
    }
    v
}

fn read_number(s: &Vec<char>, pos: usize, line: u32) -> (r: Result<(Kind, usize, u32), LexError>)
    requires
        pos < s.len(),
        s[pos as int] == '-' || is_digit(s[pos as int]),
    ensures
        step_model(r) == lex_step(s@, pos as int, line as nat),
        r matches Ok((_, q, l)) ==> pos < q <= s.len() && l == line,
{
    let end = number_end_from(s, pos);
    let t = slice_chars(s, pos, end);
    if is_valid_number(&t) {
        Ok((Kind::Number(string_of(&t)), end, line))
    } else {
        Err(LexError::InvalidNumber { line })
    }
}

fn read_literal(s: &Vec<char>, pos: usize, line: u32) -> (r: Result<(Kind, usize, u32), LexError>)
    requires
        pos < s.len(),
        s[pos as int] == 't' || s[pos as int] == 'f' || s[pos as int] == 'n',
    ensures
        step_model(r) == lex_step(s@, pos as int, line as nat),
        r matches Ok((_, q, l)) ==> pos < q <= s.len() && l == line,
{
    let end = literal_end_from(s, pos);
    let w = slice_chars(s, pos, end);
    let n = w.len();
    if n == 4 && w[0] == 't' && w[1] == 'r' && w[2] == 'u' && w[3] == 'e' {
        assert(w@ =~= seq!['t', 'r', 'u', 'e']);
        Ok((Kind::Boolean(true), end, line))
    } else if n == 5 && w[0] == 'f' && w[1] == 'a' && w[2] == 'l' && w[3] == 's' && w[4] == 'e' {
        assert(w@ =~= seq!['f', 'a', 'l', 's', 'e']);
        Ok((Kind::Boolean(false), end, line))
    } else if n == 4 && w[0] == 'n' && w[1] == 'u' && w[2] == 'l' && w[3] == 'l' {
        assert(w@ =~= seq!['n', 'u', 'l', 'l']);
        Ok((Kind::Null, end, line))
    } else {
        assert(literal_kind(w@) is None) by {
            if w@ == seq!['t', 'r', 'u', 'e'] {
                assert(w@[0] == 't' && w@[3] == 'e');
            }
            if w@ == seq!['f', 'a', 'l', 's', 'e'] {
                assert(w@[0] == 'f' && w@[4] == 'e');
            }
            if w@ == seq!['n', 'u', 'l', 'l'] {
                assert(w@[0] == 'n' && w@[3] == 'l');
            }
        }
        Err(LexError::UnknownLiteral { text: string_of(&w), line })
    }
}

fn hex_digit(c: char) -> (r: Option<u32>)
    ensures
        r matches Some(v) ==> hex_value(c) == Some(v as nat) && v < 16,
        r is None ==> hex_value(c) is None,
{
    if '0' <= c && c <= '9' {
        Some(c as u32 - '0' as u32)
    } else if 'a' <= c && c <= 'f' {
        Some(c as u32 - 'a' as u32 + 10)
    } else if 'A' <= c && c <= 'F' {
        Some(c as u32 - 'A' as u32 + 10)
    } else {
        None
    }
}

/// Decodes the four hex digits of a `\u` escape that start at `i`.
fn read_unicode_escape(s: &Vec<char>, i: usize) -> (r: Option<char>)
    requires
        i <= s.len(),
    ensures
        r == unicode_escape(s@, i as int),
{
    if s.len() - i < 4 {
        return None;
    }
    let d0 = hex_digit(s[i]);
    let d1 = hex_digit(s[i + 1]);
    let d2 = hex_digit(s[i + 2]);
    let d3 = hex_digit(s[i + 3]);
    match (d0, d1, d2, d3) {
        (Some(a), Some(b), Some(c), Some(d)) => {
            let code: u32 = a * 4096 + b * 256 + c * 16 + d;
            let r = char_from_code(code);
            match r {
                Some(ch) => Some(ch),
                None => None,
            }
        },
        _ => None,
    }
}

fn read_string(s: &Vec<char>, pos: usize, line: u32) -> (r: Result<(Kind, usize, u32), LexError>)
    requires
        pos < s.len(),
        s[pos as int] == '"',
        line <= pos + 1,
        s.len() < u32::MAX,
    ensures
        step_model(r) == lex_step(s@, pos as int, line as nat),
        r matches Ok((_, q, l)) ==> pos < q <= s.len() && l <= q + 1,
{
    let mut acc: Vec<char> = Vec::new();
    let mut p: usize = pos + 1;
    let mut l: u32 = line;
    while p < s.len()
        invariant
            pos < p <= s.len(),
            s[pos as int] == '"',
            l <= p + 1,
            s.len() < u32::MAX,
            scan_string(s@, pos + 1, line as nat, Seq::empty()) == scan_string(s@, p as int, l as nat, acc@),
        decreases s.len() - p,
    {
        let c = s[p];
        if c == '"' {
            let t = string_of(&acc);
            return Ok((Kind::String(t), p + 1, l));
        } else if c == '\\' {
            if p + 1 >= s.len() {
                return Err(LexError::UnterminatedString { line: l });
            }
            let e = s[p + 1];
            if e == 'u' || e == 'U' {
                match read_unicode_escape(s, p + 2) {
                    Some(ch) => {
                        acc.push(ch);
                        p = p + 6;
                    },
                    None => {
                        return Err(LexError::InvalidEscape { line: l });
                    },
                }
            } else {
                let ch = if e == 'b' {
                    '\x08'
                } else if e == 't' {
                    '\t'
                } else if e == 'n' {
                    '\n'
                } else if e == 'f' {
                    '\x0c'
                } else if e == 'r' {
                    '\r'
                } else {
                    e
                };
                if e == '\n' {
                    l = l + 1;
                }
                acc.push(ch);
                p = p + 2;
            }
        } else {
            if c == '\n' {
                l = l + 1;
            }
            acc.push(c);
            p = p + 1;
        }
    }
    Err(LexError::UnterminatedString { line: l })
}

/// Reads the token that starts at `pos`.
fn start(s: &Vec<char>, pos: usize, line: u32) -> (r: Result<(Kind, usize, u32), LexError>)
    requires
        pos < s.len(),
        line <= pos + 1,
        s.len() < u32::MAX,
    ensures
        step_model(r) == lex_step(s@, pos as int, line as nat),
        r matches Ok((_, q, l)) ==> pos < q <= s.len() && l <= q + 1,
{
    let c = s[pos];
    if c == '{' {
        Ok((Kind::BeginObject, pos + 1, line))
    } else if c == '[' {
        Ok((Kind::BeginArray, pos + 1, line))
    } else if c == '}' {
        Ok((Kind::EndObject, pos + 1, line))
    } else if c == ']' {
        Ok((Kind::EndArray, pos + 1, line))
    } else if c == ':' {
        Ok((Kind::NameSeparator, pos + 1, line))
    } else if c == ',' {
        Ok((Kind::ValueSeparator, pos + 1, line))
    } else if c == '"' {
        read_string(s, pos, line)
    } else if c == '-' || is_digit_char(c) {
        read_number(s, pos, line)
    } else if c == 't' || c == 'f' || c == 'n' {
        read_literal(s, pos, line)
    } else {
        Err(LexError::UnknownCharacter { ch: c, line })
    }
}

/// `pre` followed by the tokens of `r`, or the error of `r`.
pub open spec fn prepend(pre: Seq<(KindModel, nat)>, r: Result<Seq<(KindModel, nat)>, LexErrorModel>) -> Result<
    Seq<(KindModel, nat)>,
    LexErrorModel,
> {
    match r {
        Ok(rest) => Ok(pre + rest),
        Err(e) => Err(e),
    }
}

/// Holds the text to be lexed.
pub struct Lexer {
    pub content: String,
}

impl Lexer {
    pub fn new(input: String) -> (r: Lexer)
        ensures
            r.content == input,
    {
        Lexer { content: input }
    }

    /// The tokens of the text, the last one `EOF`, or the first error met.
    pub fn lex(&mut self) -> (r: Result<Vec<Token>, LexError>)
        requires
            old(self).content@.len() < u32::MAX,
        ensures
            *final(self) == *old(self),
            lex_result_model(r) == lex_spec(old(self).content@),
    {
        let s = chars_of(self.content.as_str());
        let mut tokens: Vec<Token> = Vec::new();
        let mut pos: usize = 0;
        let mut line: u32 = 1;
        assert(tokens_model(tokens@) =~= Seq::<(KindModel, nat)>::empty());
        assert(prepend(Seq::empty(), lex_from(s@, 0, 1)) == lex_from(s@, 0, 1)) by {
            match lex_from(s@, 0, 1) {
                Ok(rest) => assert(Seq::<(KindModel, nat)>::empty() + rest =~= rest),
                Err(_) => {},
            }
        }
        loop
            invariant
                pos <= s.len(),
                line <= pos + 1,
                s.len() < u32::MAX,
                s@ == self.content@,
                *self == *old(self),
                lex_spec(s@) == prepend(tokens_model(tokens@), lex_from(s@, pos as int, line as nat)),
            decreases s.len() - pos,
        {
            let ghost pre = tokens_model(tokens@);
            let (p, l) = skip_whitespace(&s, pos, line);
            if p >= s.len() {
                let t = Token::new(Kind::EOF, l);
                tokens.push(t);
                assert(tokens_model(tokens@) =~= pre + seq![(KindModel::Eof, l as nat)]);
                return Ok(tokens);
            }
            match start(&s, p, l) {
                Err(e) => {
                    return Err(e);
                },
                Ok((k, q, l2)) => {
                    let ghost km = k.model();
                    let t = Token::new(k, l);
                    tokens.push(t);
                    proof {
                        assert(tokens_model(tokens@) =~= pre + seq![(km, l as nat)]);
                        match lex_from(s@, q as int, l2 as nat) {
                            Ok(rest) => {
                                assert(pre + (seq![(km, l as nat)] + rest) =~= (pre + seq![(km, l as nat)]) + rest);
                            },
                            Err(_) => {},
                        }
                    }
                    pos = q;
                    line = l2;
                },
            }
        }
    }
}

proof fn lemma_skip_ws_line(s: Seq<char>, pos: int, line: nat)
    ensures
        skip_ws(s, pos, line).1 >= line,
        skip_ws(s, pos, line).0 >= pos,
    decreases s.len() - pos,
{
    if 0 <= pos < s.len() && is_ws(s[pos]) {
        lemma_skip_ws_line(s, pos + 1, if s[pos] == '\n' { line + 1 } else { line });
    }
}

proof fn lemma_scan_string_line(s: Seq<char>, pos: int, line: nat, acc: Seq<char>)
    ensures
        scan_string(s, pos, line, acc) matches Ok((_, _, l)) ==> l >= line,
    decreases s.len() - pos,
{
    if 0 <= pos < s.len() && s[pos] != '"' {
        if s[pos] == '\\' {
            if pos + 1 < s.len() {
                if s[pos + 1] == 'u' || s[pos + 1] == 'U' {
                    if let Some(c) = unicode_escape(s, pos + 2) {
                        lemma_scan_string_line(s, pos + 6, line, acc.push(c));
                    }
                } else {
                    lemma_scan_string_line(
                        s,
                        pos + 2,
                        if s[pos + 1] == '\n' { line + 1 } else { line },
                        acc.push(unescape(s[pos + 1])),
                    );
                }
            }
        } else {
            lemma_scan_string_line(s, pos + 1, if s[pos] == '\n' { line + 1 } else { line }, acc.push(s[pos]));
        }
    }
}

/// A lexed token sequence ends with its one `EOF`, its lines never decrease,
/// and none is before `line`.
proof fn lemma_lex_from_shape(s: Seq<char>, pos: int, line: nat)
    ensures
        lex_from(s, pos, line) matches Ok(ts) ==> {
            &&& ts.len() >= 1
            &&& ts.last().0 is Eof
            &&& forall|i: int| 0 <= i < ts.len() - 1 ==> !(#[trigger] ts[i].0 is Eof)
            &&& forall|i: int, j: int| 0 <= i <= j < ts.len() ==> ts[i].1 <= ts[j].1
            &&& forall|i: int| 0 <= i < ts.len() ==> line <= #[trigger] ts[i].1
        },
    decreases s.len() - pos,
{
    let (p, l) = skip_ws(s, pos, line);
    lemma_skip_ws_line(s, pos, line);
    if 0 <= p < s.len() {
        if s[p] == '"' {
            lemma_scan_string_line(s, p + 1, l, Seq::empty());
        }
        match lex_step(s, p, l) {
            Ok((k, q, l2)) => {
                if pos < q <= s.len() {
                    lemma_lex_from_shape(s, q, l2);
                    if let Ok(rest) = lex_from(s, q, l2) {
                        let ts = seq![(k, l2)] + rest;
                        assert(!(k is Eof));
                        assert forall|i: int| 0 <= i < ts.len() - 1 implies !(#[trigger] ts[i].0 is Eof) by {
                            if i > 0 {
                                assert(ts[i] == rest[i - 1]);
                            }
                        }
                        assert forall|i: int, j: int| 0 <= i <= j < ts.len() implies ts[i].1 <= ts[j].1 by {
                            if i > 0 {
                                assert(ts[i] == rest[i - 1] && ts[j] == rest[j - 1]);
                            } else if j > 0 {
                                assert(ts[j] == rest[j - 1]);
                                assert(l <= l2 && l2 <= rest[j - 1].1);
                            }
                        }
                        assert forall|i: int| 0 <= i < ts.len() implies line <= #[trigger] ts[i].1 by {
                            if i > 0 {
                                assert(ts[i] == rest[i - 1]);
                            }
                        }
                        assert(ts.last() == rest.last());
                    }
                }
            },
            Err(_) => {},
        }
    }
}

/// The shape of every successful lex: exactly one `EOF`, the last token; lines
/// start at 1 and never decrease along the sequence.
pub proof fn lemma_lex_shape(s: Seq<char>)
    ensures
        lex_spec(s) matches Ok(ts) ==> {
            &&& ts.len() >= 1
            &&& ts.last().0 is Eof
            &&& forall|i: int| 0 <= i < ts.len() - 1 ==> !(#[trigger] ts[i].0 is Eof)
            &&& forall|i: int, j: int| 0 <= i <= j < ts.len() ==> ts[i].1 <= ts[j].1
            &&& forall|i: int| 0 <= i < ts.len() ==> 1 <= #[trigger] ts[i].1
        },
{
    lemma_lex_from_shape(s, 0, 1);
}

} // verus!
