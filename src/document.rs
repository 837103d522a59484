//! Documents of the grammar, and what lexing and parsing make of them: any
//! layout of a tree's tokens (whitespace, escapes) lexes and parses back to the
//! tree.
use vstd::prelude::*;
use crate::json::{well_formed, JsonModel};
use crate::lexen::{
    ends_number, is_digit, is_ws, lex_from, lex_spec, lex_step, literal_end, number_end, prepend,
    run_end, scan_string, skip_ws, tokens_model, unescape, unicode_escape, valid_number, digits_end,
};
use crate::parsen::{
    elements_tokens, lemma_parse_round_trip, members_tokens, parse_spec, value_tokens,
    ParseError, MAX_DEPTH,
};
use crate::token::{KindModel, Token};

verus! {

/// How a character of a string's content is written between quotes.
pub open spec fn escape_char(c: char) -> Seq<char> {
    if c == '"' {
        seq!['\\', '"']
    } else if c == '\\' {
        seq!['\\', '\\']
    } else if c == '\n' {
        seq!['\\', 'n']
    } else {
        seq![c]
    }
}

pub open spec fn escape_text(t: Seq<char>) -> Seq<char>
    decreases t.len(),
{
    if t.len() == 0 {
        Seq::empty()
    } else {
        escape_char(t[0]) + escape_text(t.drop_first())
    }
}

pub open spec fn quoted(t: Seq<char>) -> Seq<char> {
    seq!['"'] + escape_text(t) + seq!['"']
}

/// The text of `j`, on one line and without whitespace.
pub open spec fn write_value(j: JsonModel) -> Seq<char>
    decreases j, 0int,
{
    match j {
        JsonModel::Null => seq!['n', 'u', 'l', 'l'],
        JsonModel::Boolean(b) => if b {
            seq!['t', 'r', 'u', 'e']
        } else {
            seq!['f', 'a', 'l', 's', 'e']
        },
        JsonModel::Number(t) => t,
        JsonModel::Str(t) => quoted(t),
        JsonModel::Array(items) => seq!['['] + write_elements(items, 0) + seq![']'],
        JsonModel::Object(es) => seq!['{'] + write_members(es, 0) + seq!['}'],
    }
}

pub open spec fn write_elements(items: Seq<JsonModel>, i: int) -> Seq<char>
    decreases items, items.len() - i,
{
    if 0 <= i < items.len() {
        write_value(items[i]) + if i + 1 < items.len() {
            seq![','] + write_elements(items, i + 1)
        } else {
            Seq::empty()
        }
    } else {
        Seq::empty()
    }
}

pub open spec fn write_members(es: Seq<(Seq<char>, JsonModel)>, i: int) -> Seq<char>
    decreases es, es.len() - i,
{
    if 0 <= i < es.len() {
        quoted(es[i].0) + seq![':'] + write_value(es[i].1) + if i + 1 < es.len() {
            seq![','] + write_members(es, i + 1)
        } else {
            Seq::empty()
        }
    } else {
        Seq::empty()
    }
}

/// Every number of `j` holds a numeral of the number grammar.
pub open spec fn numerals_valid(j: JsonModel) -> bool
    decreases j,
{
    match j {
        JsonModel::Number(t) => valid_number(t),
        JsonModel::Array(items) => forall|i: int| 0 <= i < items.len() ==> numerals_valid(#[trigger] items[i]),
        JsonModel::Object(es) => forall|i: int| 0 <= i < es.len() ==> numerals_valid(#[trigger] es[i].1),
        _ => true,
    }
}

/// Each kind paired with line `l`.
pub open spec fn with_line(ks: Seq<KindModel>, l: nat) -> Seq<(KindModel, nat)> {
    ks.map_values(|k: KindModel| (k, l))
}

/// `s` holds `w` from `p` on.
pub open spec fn text_at(s: Seq<char>, p: int, w: Seq<char>) -> bool {
    &&& 0 <= p
    &&& p + w.len() <= s.len()
    &&& forall|i: int| 0 <= i < w.len() ==> #[trigger] s[p + i] == w[i]
}

/// A token may end at `q`: the text ends there or a delimiter stands there.
pub open spec fn delim_at(s: Seq<char>, q: int) -> bool {
    q == s.len() || (0 <= q < s.len() && ends_number(s[q]))
}

proof fn lemma_text_at_split(s: Seq<char>, p: int, a: Seq<char>, b: Seq<char>)
    requires
        text_at(s, p, a + b),
    ensures
        text_at(s, p, a),
        text_at(s, p + a.len(), b),
{
    assert forall|i: int| 0 <= i < a.len() implies #[trigger] s[p + i] == a[i] by {
        assert((a + b)[i] == a[i]);
    }
    assert forall|i: int| 0 <= i < b.len() implies #[trigger] s[p + a.len() + i] == b[i] by {
        assert((a + b)[a.len() + i] == b[i]);
        assert(p + (a.len() + i) == p + a.len() + i);
    }
}

proof fn lemma_run_end_exact(s: Seq<char>, p: int, q: int, f: spec_fn(char) -> bool)
    requires
        0 <= p <= q <= s.len(),
        forall|i: int| p <= i < q ==> f(#[trigger] s[i]),
        q == s.len() || !f(s[q]),
    ensures
        run_end(s, p, f) == q,
    decreases q - p,
{
    if p < q {
        lemma_run_end_exact(s, p + 1, q, f);
    }
}

proof fn lemma_run_end_facts(t: Seq<char>, a: int, f: spec_fn(char) -> bool)
    requires
        0 <= a,
    ensures
        a <= run_end(t, a, f),
        run_end(t, a, f) <= a || run_end(t, a, f) <= t.len(),
        forall|i: int| a <= i < run_end(t, a, f) ==> f(#[trigger] t[i]),
    decreases t.len() - a,
{
    if a < t.len() && f(t[a]) {
        lemma_run_end_facts(t, a + 1, f);
    }
}

/// A numeral of the number grammar starts with `-` or a digit and holds no
/// delimiter.
proof fn lemma_valid_number_chars(t: Seq<char>)
    requires
        valid_number(t),
    ensures
        t.len() > 0,
        t[0] == '-' || is_digit(t[0]),
        forall|i: int| 0 <= i < t.len() ==> !ends_number(#[trigger] t[i]),
{
    let dig = |c: char| is_digit(c);
    let a: int = if t.len() > 0 && t[0] == '-' { 1 } else { 0 };
    let b = digits_end(t, a);
    lemma_run_end_facts(t, a, dig);
    let c = if b < t.len() && t[b] == '.' { digits_end(t, b + 1) } else { b };
    if b < t.len() && t[b] == '.' {
        lemma_run_end_facts(t, b + 1, dig);
    }
    let has_exp = c < t.len() && (t[c] == 'e' || t[c] == 'E');
    let e: int = if has_exp && c + 1 < t.len() && (t[c + 1] == '+' || t[c + 1] == '-') {
        c + 2
    } else {
        c + 1
    };
    if has_exp {
        lemma_run_end_facts(t, e, dig);
    }
    assert(t[a] == t[a]);
    assert forall|i: int| 0 <= i < t.len() implies !ends_number(#[trigger] t[i]) by {
        if i < a {
        } else if i < b {
            assert(dig(t[i]));
        } else if i == b {
        } else if i < c {
            assert(dig(t[i]));
        } else if i == c {
        } else if i < e {
        } else {
            assert(dig(t[i]));
        }
    }
}

proof fn lemma_prepend_assoc(
    a: Seq<(KindModel, nat)>,
    b: Seq<(KindModel, nat)>,
    r: Result<Seq<(KindModel, nat)>, crate::lexen::LexErrorModel>,
)
    ensures
        prepend(a, prepend(b, r)) == prepend(a + b, r),
{
    if let Ok(rest) = r {
        assert(a + (b + rest) =~= (a + b) + rest);
    }
}

proof fn lemma_with_line_concat(a: Seq<KindModel>, b: Seq<KindModel>, l: nat)
    ensures
        with_line(a + b, l) == with_line(a, l) + with_line(b, l),
{
    assert(with_line(a + b, l) =~= with_line(a, l) + with_line(b, l));
}

/// A token read at `p` (where no whitespace stands) comes first.
proof fn lemma_lex_one(s: Seq<char>, p: int, line: nat, k: KindModel, q: int)
    requires
        0 <= p < q <= s.len(),
        !is_ws(s[p]),
        lex_step(s, p, line) == Ok::<(KindModel, int, nat), crate::lexen::LexErrorModel>((k, q, line)),
    ensures
        lex_from(s, p, line) == prepend(with_line(seq![k], line), lex_from(s, q, line)),
{
    assert(skip_ws(s, p, line) == (p, line));
    assert(with_line(seq![k], line) =~= seq![(k, line)]);
}

/// Scanning an escaped text and its closing quote gives the text back.
proof fn lemma_scan_escaped(s: Seq<char>, p: int, line: nat, acc: Seq<char>, t: Seq<char>)
    requires
        text_at(s, p, escape_text(t) + seq!['"']),
    ensures
        scan_string(s, p, line, acc) == Ok::<(Seq<char>, int, nat), crate::lexen::LexErrorModel>(
            (acc + t, p + escape_text(t).len() + 1, line),
        ),
    decreases t.len(),
{
    let w = escape_text(t) + seq!['"'];
    if t.len() == 0 {
        assert(escape_text(t).len() == 0);
        assert(s[p + 0] == w[0]);
        assert(acc + t =~= acc);
    } else {
        let c = t[0];
        let rest = t.drop_first();
        let e = escape_char(c);
        assert(escape_text(t) == e + escape_text(rest));
        assert(w == e + (escape_text(rest) + seq!['"']));
        lemma_text_at_split(s, p, e, escape_text(rest) + seq!['"']);
        assert(s[p + 0] == e[0]);
        assert(p + 0 == p);
        if e.len() == 2 {
            assert(s[p + 1] == e[1]);
        }
        lemma_scan_escaped(s, p + e.len(), line, acc.push(c), rest);
        assert(acc.push(c) + rest =~= acc + t);
    }
}

proof fn lemma_literal_end_exact(s: Seq<char>, p: int, q: int)
    requires
        0 <= p <= q <= s.len(),
        forall|i: int| p <= i < q ==> crate::lexen::is_lower(#[trigger] s[i]),
        q == s.len() || !crate::lexen::is_lower(s[q]),
    ensures
        literal_end(s, p) == q,
    decreases q - p,
{
    if p < q {
        lemma_literal_end_exact(s, p + 1, q);
    }
}

proof fn lemma_number_end_exact(s: Seq<char>, p: int, q: int)
    requires
        0 <= p <= q <= s.len(),
        forall|i: int| p <= i < q ==> !ends_number(#[trigger] s[i]),
        q == s.len() || ends_number(s[q]),
    ensures
        number_end(s, p) == q,
    decreases q - p,
{
    if p < q {
        lemma_number_end_exact(s, p + 1, q);
    }
}

/// Lexing the text of a leaf (or a quoted key) at `p` gives its token.
proof fn lemma_lex_word(s: Seq<char>, p: int, line: nat, w: Seq<char>, k: KindModel)
    requires
        text_at(s, p, w),
        delim_at(s, p + w.len()),
        (k == KindModel::Null && w == seq!['n', 'u', 'l', 'l']) || (k == KindModel::Boolean(true) && w == seq![
            't',
            'r',
            'u',
            'e',
        ]) || (k == KindModel::Boolean(false) && w == seq!['f', 'a', 'l', 's', 'e']) || (k
            == KindModel::Number(w) && valid_number(w)),
    ensures
        lex_from(s, p, line) == prepend(with_line(seq![k], line), lex_from(s, p + w.len(), line)),
{
    let q = p + w.len();
    assert(s[p + 0] == w[0]);
    assert(p + 0 == p);
    if k is Number {
        lemma_valid_number_chars(w);
        assert forall|i: int| p <= i < q implies !ends_number(#[trigger] s[i]) by {
            assert(s[p + (i - p)] == w[i - p]);
        }
        lemma_number_end_exact(s, p, q);
        assert forall|i: int| 0 <= i < w.len() implies s.subrange(p, q)[i] == w[i] by {
            assert(s[p + i] == w[i]);
        }
        assert(s.subrange(p, q) =~= w);
    } else {
        assert forall|i: int| p <= i < q implies crate::lexen::is_lower(#[trigger] s[i]) by {
            assert(s[p + (i - p)] == w[i - p]);
        }
        lemma_literal_end_exact(s, p, q);
        assert forall|i: int| 0 <= i < w.len() implies s.subrange(p, q)[i] == w[i] by {
            assert(s[p + i] == w[i]);
        }
        assert(s.subrange(p, q) =~= w);
    }
    lemma_lex_one(s, p, line, k, q);
}

/// Lexing a quoted text at `p` gives one string token.
proof fn lemma_lex_quoted(s: Seq<char>, p: int, line: nat, t: Seq<char>)
    requires
        text_at(s, p, quoted(t)),
    ensures
        lex_from(s, p, line) == prepend(
            with_line(seq![KindModel::Str(t)], line),
            lex_from(s, p + quoted(t).len(), line),
        ),
{
    lemma_text_at_split(s, p, seq!['"'], escape_text(t) + seq!['"']);
    assert(quoted(t) == seq!['"'] + (escape_text(t) + seq!['"']));
    assert(s[p + 0] == '"');
    assert(p + 0 == p);
    lemma_scan_escaped(s, p + 1, line, Seq::empty(), t);
    assert(Seq::<char>::empty() + t =~= t);
    lemma_lex_one(s, p, line, KindModel::Str(t), p + quoted(t).len());
}

/// Lexing a punctuation character at `p`.
proof fn lemma_lex_punct(s: Seq<char>, p: int, line: nat, c: char, k: KindModel)
    requires
        0 <= p < s.len(),
        s[p] == c,
        (c == '[' && k == KindModel::BeginArray) || (c == ']' && k == KindModel::EndArray) || (c == '{' && k
            == KindModel::BeginObject) || (c == '}' && k == KindModel::EndObject) || (c == ':' && k
            == KindModel::NameSeparator) || (c == ',' && k == KindModel::ValueSeparator),
    ensures
        lex_from(s, p, line) == prepend(with_line(seq![k], line), lex_from(s, p + 1, line)),
{
    lemma_lex_one(s, p, line, k, p + 1);
}

proof fn lemma_lex_value(s: Seq<char>, p: int, line: nat, j: JsonModel)
    requires
        numerals_valid(j),
        text_at(s, p, write_value(j)),
        delim_at(s, p + write_value(j).len()),
    ensures
        lex_from(s, p, line) == prepend(
            with_line(value_tokens(j), line),
            lex_from(s, p + write_value(j).len(), line),
        ),
    decreases j, 0int,
{
    let n = write_value(j).len();
    match j {
        JsonModel::Null => {
            lemma_lex_word(s, p, line, write_value(j), KindModel::Null);
        },
        JsonModel::Boolean(b) => {
            lemma_lex_word(s, p, line, write_value(j), KindModel::Boolean(b));
        },
        JsonModel::Number(t) => {
            lemma_lex_word(s, p, line, t, KindModel::Number(t));
        },
        JsonModel::Str(t) => {
            lemma_lex_quoted(s, p, line, t);
        },
        JsonModel::Array(items) => {
            let body = write_elements(items, 0);
            assert(write_value(j) == seq!['['] + body + seq![']']);
            lemma_text_at_split(s, p, seq!['['] + body, seq![']']);
            lemma_text_at_split(s, p, seq!['['], body);
            assert(s[p + 0] == '[');
            assert(p + 0 == p);
            assert(s[p + (1 + body.len()) + 0] == ']');
            lemma_lex_punct(s, p, line, '[', KindModel::BeginArray);
            lemma_lex_punct(s, p + 1 + body.len(), line, ']', KindModel::EndArray);
            let a = with_line(seq![KindModel::BeginArray], line);
            let z = with_line(seq![KindModel::EndArray], line);
            let end = lex_from(s, p + n, line);
            if items.len() == 0 {
                assert(body.len() == 0);
                assert(elements_tokens(items, 0).len() == 0);
                lemma_prepend_assoc(a, z, end);
                assert(value_tokens(j) =~= seq![KindModel::BeginArray] + seq![KindModel::EndArray]);
                lemma_with_line_concat(seq![KindModel::BeginArray], seq![KindModel::EndArray], line);
            } else {
                assert(s[p + 1 + body.len()] == ']');
                lemma_lex_elements(s, p + 1, line, items, 0);
                let m = with_line(elements_tokens(items, 0), line);
                lemma_prepend_assoc(m, z, end);
                lemma_prepend_assoc(a, m + z, end);
                assert(value_tokens(j) == seq![KindModel::BeginArray] + elements_tokens(items, 0) + seq![
                    KindModel::EndArray,
                ]);
                lemma_with_line_concat(seq![KindModel::BeginArray] + elements_tokens(items, 0), seq![KindModel::EndArray], line);
                lemma_with_line_concat(seq![KindModel::BeginArray], elements_tokens(items, 0), line);
                assert(a + (m + z) =~= (a + m) + z);
            }
        },
        JsonModel::Object(es) => {
            let body = write_members(es, 0);
            assert(write_value(j) == seq!['{'] + body + seq!['}']);
            lemma_text_at_split(s, p, seq!['{'] + body, seq!['}']);
            lemma_text_at_split(s, p, seq!['{'], body);
            assert(s[p + 0] == '{');
            assert(p + 0 == p);
            assert(s[p + (1 + body.len()) + 0] == '}');
            lemma_lex_punct(s, p, line, '{', KindModel::BeginObject);
            lemma_lex_punct(s, p + 1 + body.len(), line, '}', KindModel::EndObject);
            let a = with_line(seq![KindModel::BeginObject], line);
            let z = with_line(seq![KindModel::EndObject], line);
            let end = lex_from(s, p + n, line);
            if es.len() == 0 {
                assert(body.len() == 0);
                assert(members_tokens(es, 0).len() == 0);
                lemma_prepend_assoc(a, z, end);
                assert(value_tokens(j) =~= seq![KindModel::BeginObject] + seq![KindModel::EndObject]);
                lemma_with_line_concat(seq![KindModel::BeginObject], seq![KindModel::EndObject], line);
            } else {
                assert(s[p + 1 + body.len()] == '}');
                lemma_lex_members(s, p + 1, line, es, 0);
                let m = with_line(members_tokens(es, 0), line);
                lemma_prepend_assoc(m, z, end);
                lemma_prepend_assoc(a, m + z, end);
                assert(value_tokens(j) == seq![KindModel::BeginObject] + members_tokens(es, 0) + seq![
                    KindModel::EndObject,
                ]);
                lemma_with_line_concat(seq![KindModel::BeginObject] + members_tokens(es, 0), seq![KindModel::EndObject], line);
                lemma_with_line_concat(seq![KindModel::BeginObject], members_tokens(es, 0), line);
                assert(a + (m + z) =~= (a + m) + z);
            }
        },
    }
}

proof fn lemma_lex_elements(s: Seq<char>, p: int, line: nat, items: Seq<JsonModel>, i: int)
    requires
        0 <= i < items.len(),
        forall|k: int| 0 <= k < items.len() ==> numerals_valid(#[trigger] items[k]),
        text_at(s, p, write_elements(items, i)),
        delim_at(s, p + write_elements(items, i).len()),
    ensures
        lex_from(s, p, line) == prepend(
            with_line(elements_tokens(items, i), line),
            lex_from(s, p + write_elements(items, i).len(), line),
        ),
    decreases items, items.len() - i,
{
    let w = write_value(items[i]);
    let n = w.len();
    let total = write_elements(items, i).len();
    let end = lex_from(s, p + total, line);
    let v = with_line(value_tokens(items[i]), line);
    if i + 1 < items.len() {
        let rest = write_elements(items, i + 1);
        assert(write_elements(items, i) == w + (seq![','] + rest));
        lemma_text_at_split(s, p, w, seq![','] + rest);
        lemma_text_at_split(s, p + n, seq![','], rest);
        assert(s[p + n + 0] == ',');
        assert(p + n + 0 == p + n);
        lemma_lex_value(s, p, line, items[i]);
        lemma_lex_punct(s, p + n, line, ',', KindModel::ValueSeparator);
        assert(p + n + 1 + rest.len() == p + total);
        lemma_lex_elements(s, p + n + 1, line, items, i + 1);
        let c = with_line(seq![KindModel::ValueSeparator], line);
        let r = with_line(elements_tokens(items, i + 1), line);
        lemma_prepend_assoc(c, r, end);
        lemma_prepend_assoc(v, c + r, end);
        assert(elements_tokens(items, i) == value_tokens(items[i]) + (seq![KindModel::ValueSeparator]
            + elements_tokens(items, i + 1)));
        lemma_with_line_concat(value_tokens(items[i]), seq![KindModel::ValueSeparator] + elements_tokens(items, i + 1), line);
        lemma_with_line_concat(seq![KindModel::ValueSeparator], elements_tokens(items, i + 1), line);
    } else {
        assert(write_elements(items, i) =~= w);
        assert(elements_tokens(items, i) =~= value_tokens(items[i]));
        lemma_lex_value(s, p, line, items[i]);
    }
}

proof fn lemma_lex_members(s: Seq<char>, p: int, line: nat, es: Seq<(Seq<char>, JsonModel)>, i: int)
    requires
        0 <= i < es.len(),
        forall|k: int| 0 <= k < es.len() ==> numerals_valid(#[trigger] es[k].1),
        text_at(s, p, write_members(es, i)),
        delim_at(s, p + write_members(es, i).len()),
    ensures
        lex_from(s, p, line) == prepend(
            with_line(members_tokens(es, i), line),
            lex_from(s, p + write_members(es, i).len(), line),
        ),
    decreases es, es.len() - i,
{
    let key = quoted(es[i].0);
    let kl = key.len();
    let w = write_value(es[i].1);
    let n = w.len();
    let total = write_members(es, i).len();
    let end = lex_from(s, p + total, line);
    let tail = if i + 1 < es.len() {
        seq![','] + write_members(es, i + 1)
    } else {
        Seq::<char>::empty()
    };
    assert(write_members(es, i) == key + (seq![':'] + (w + tail)));
    lemma_text_at_split(s, p, key, seq![':'] + (w + tail));
    lemma_text_at_split(s, p + kl, seq![':'], w + tail);
    lemma_text_at_split(s, p + kl + 1, w, tail);
    assert(s[p + kl + 0] == ':');
    assert(p + kl + 0 == p + kl);
    lemma_lex_quoted(s, p, line, es[i].0);
    lemma_lex_punct(s, p + kl, line, ':', KindModel::NameSeparator);
    let kt = with_line(seq![KindModel::Str(es[i].0)], line);
    let ct = with_line(seq![KindModel::NameSeparator], line);
    let v = with_line(value_tokens(es[i].1), line);
    let q = p + kl + 1 + n;
    if i + 1 < es.len() {
        let rest = write_members(es, i + 1);
        lemma_text_at_split(s, q, seq![','], rest);
        assert(s[q + 0] == ',');
        assert(q + 0 == q);
        lemma_lex_value(s, p + kl + 1, line, es[i].1);
        lemma_lex_punct(s, q, line, ',', KindModel::ValueSeparator);
        assert(q + 1 + rest.len() == p + total);
        lemma_lex_members(s, q + 1, line, es, i + 1);
        let c = with_line(seq![KindModel::ValueSeparator], line);
        let r = with_line(members_tokens(es, i + 1), line);
        lemma_prepend_assoc(c, r, end);
        lemma_prepend_assoc(v, c + r, end);
        lemma_prepend_assoc(ct, v + (c + r), end);
        lemma_prepend_assoc(kt, ct + (v + (c + r)), end);
        assert(members_tokens(es, i) =~= seq![KindModel::Str(es[i].0)] + (seq![KindModel::NameSeparator] + (
        value_tokens(es[i].1) + (seq![KindModel::ValueSeparator] + members_tokens(es, i + 1)))));
        assert(with_line(members_tokens(es, i), line) =~= kt + (ct + (v + (c + r))));
    } else {
        assert(tail.len() == 0);
        lemma_lex_value(s, p + kl + 1, line, es[i].1);
        lemma_prepend_assoc(ct, v, end);
        lemma_prepend_assoc(kt, ct + v, end);
        assert(members_tokens(es, i) =~= seq![KindModel::Str(es[i].0)] + (seq![KindModel::NameSeparator]
            + value_tokens(es[i].1)));
        assert(with_line(members_tokens(es, i), line) =~= kt + (ct + v));
    }
}

/// A document written out from a tree whose numbers are numerals of the number
/// grammar lexes without error, to the tokens of the tree, all on line 1,
/// followed by `EOF`.
pub proof fn lemma_document_lexes(j: JsonModel)
    requires
        numerals_valid(j),
    ensures
        lex_spec(write_value(j)) == Ok::<Seq<(KindModel, nat)>, crate::lexen::LexErrorModel>(
            with_line(value_tokens(j), 1) + seq![(KindModel::Eof, 1nat)],
        ),
{
    let s = write_value(j);
    assert(text_at(s, 0, s)) by {
        assert forall|i: int| 0 <= i < s.len() implies #[trigger] s[0 + i] == s[i] by {
            assert(0 + i == i);
        }
    }
    lemma_lex_value(s, 0, 1, j);
    assert(skip_ws(s, s.len() as int, 1) == (s.len() as int, 1nat));
    assert(lex_from(s, s.len() as int, 1) == Ok::<Seq<(KindModel, nat)>, crate::lexen::LexErrorModel>(
        seq![(KindModel::Eof, 1nat)],
    ));
}

/// Lexing and then parsing a document gives back the tree it was written
/// from: for a tree whose objects have unique keys, whose numbers are numerals
/// of the number grammar and whose nesting stays within `MAX_DEPTH`, lexing its
/// text succeeds, and parsing the tokens that lexing gives succeeds with that
/// very tree.
pub proof fn lemma_document_round_trip(j: JsonModel, ts: Seq<Token>)
    requires
        well_formed(j, MAX_DEPTH as nat),
        numerals_valid(j),
    ensures
        lex_spec(write_value(j)) is Ok,
        lex_spec(write_value(j)) == Ok::<Seq<(KindModel, nat)>, crate::lexen::LexErrorModel>(tokens_model(ts))
            ==> parse_spec(ts) == Ok::<JsonModel, ParseError>(j),
{
    lemma_document_lexes(j);
    let toks = value_tokens(j);
    let lexed = with_line(toks, 1) + seq![(KindModel::Eof, 1nat)];
    if lexed == tokens_model(ts) {
        assert(ts.len() == lexed.len());
        assert forall|i: int| 0 <= i < toks.len() implies #[trigger] ts[0 + i].spec_kind().model() == toks[i] by {
            assert(0 + i == i);
            assert(tokens_model(ts)[i] == crate::lexen::token_model(ts[i]));
            assert(lexed[i] == (toks[i], 1nat));
        }
        lemma_parse_round_trip(ts, j);
    }
}

/// A token that only a delimiter may follow: a number or a literal.
pub open spec fn is_word_kind(k: KindModel) -> bool {
    k is Number || k is Boolean || k is Null
}

/// A token that closes or separates: `,`, `]`, `}`.
pub open spec fn is_closer(k: KindModel) -> bool {
    k is ValueSeparator || k is EndArray || k is EndObject
}

/// In `toks`, every number or literal but the last token is followed by a
/// closer.
pub open spec fn words_closed(toks: Seq<KindModel>) -> bool {
    forall|i: int| 0 <= i < toks.len() - 1 && is_word_kind(#[trigger] toks[i]) ==> is_closer(toks[i + 1])
}

proof fn lemma_words_closed_concat(a: Seq<KindModel>, b: Seq<KindModel>)
    requires
        words_closed(a),
        words_closed(b),
        a.len() > 0 && b.len() > 0 && is_word_kind(a.last()) ==> is_closer(b[0]),
    ensures
        words_closed(a + b),
{
    let c = a + b;
    assert forall|i: int| 0 <= i < c.len() - 1 && is_word_kind(#[trigger] c[i]) implies is_closer(c[i + 1]) by {
        if i < a.len() - 1 {
            assert(c[i] == a[i] && c[i + 1] == a[i + 1]);
        } else if i == a.len() - 1 {
            assert(c[i] == a.last() && c[i + 1] == b[0]);
        } else {
            assert(c[i] == b[i - a.len()] && c[i + 1] == b[i - a.len() + 1]);
        }
    }
}

proof fn lemma_value_words_closed(j: JsonModel)
    ensures
        words_closed(value_tokens(j)),
        value_tokens(j).len() > 0,
    decreases j, 0int,
{
    match j {
        JsonModel::Array(items) => {
            let a = seq![KindModel::BeginArray];
            let z = seq![KindModel::EndArray];
            let b = elements_tokens(items, 0);
            if items.len() > 0 {
                lemma_elements_words_closed(items, 0);
            }
            lemma_words_closed_concat(a, b);
            lemma_words_closed_concat(a + b, z);
            if b.len() > 0 {
                assert((a + b).last() == b.last());
            }
        },
        JsonModel::Object(es) => {
            let a = seq![KindModel::BeginObject];
            let z = seq![KindModel::EndObject];
            let b = members_tokens(es, 0);
            if es.len() > 0 {
                lemma_members_words_closed(es, 0);
            }
            lemma_words_closed_concat(a, b);
            lemma_words_closed_concat(a + b, z);
            if b.len() > 0 {
                assert((a + b).last() == b.last());
            }
        },
        _ => {},
    }
}

proof fn lemma_elements_words_closed(items: Seq<JsonModel>, i: int)
    requires
        0 <= i < items.len(),
    ensures
        words_closed(elements_tokens(items, i)),
        elements_tokens(items, i).len() > 0,
    decreases items, items.len() - i,
{
    let v = value_tokens(items[i]);
    lemma_value_words_closed(items[i]);
    if i + 1 < items.len() {
        let c = seq![KindModel::ValueSeparator];
        let r = elements_tokens(items, i + 1);
        lemma_elements_words_closed(items, i + 1);
        lemma_words_closed_concat(c, r);
        lemma_words_closed_concat(v, c + r);
    } else {
        assert(elements_tokens(items, i) =~= v);
    }
}

proof fn lemma_members_words_closed(es: Seq<(Seq<char>, JsonModel)>, i: int)
    requires
        0 <= i < es.len(),
    ensures
        words_closed(members_tokens(es, i)),
        members_tokens(es, i).len() > 0,
    decreases es, es.len() - i,
{
    let h = seq![KindModel::Str(es[i].0), KindModel::NameSeparator];
    let v = value_tokens(es[i].1);
    lemma_value_words_closed(es[i].1);
    lemma_words_closed_concat(h, v);
    if i + 1 < es.len() {
        let c = seq![KindModel::ValueSeparator];
        let r = members_tokens(es, i + 1);
        lemma_members_words_closed(es, i + 1);
        lemma_words_closed_concat(c, r);
        lemma_words_closed_concat(h + v, c + r);
        assert(members_tokens(es, i) == (h + v) + (c + r));
        assert((h + v).last() == v.last());
    } else {
        assert(members_tokens(es, i) =~= h + v);
    }
}

/// `p` is a way to write the character `c` inside a string literal: the
/// character itself (but a quote or a backslash), a two-character escape, or
/// a `\u` escape with four hex digits.
pub open spec fn piece_ok(p: Seq<char>, c: char) -> bool {
    ||| p == seq![c] && c != '"' && c != '\\'
    ||| p.len() == 2 && p[0] == '\\' && p[1] != 'u' && p[1] != 'U' && unescape(p[1]) == c
    ||| p.len() == 6 && p[0] == '\\' && (p[1] == 'u' || p[1] == 'U') && unicode_escape(p, 2) == Some(c)
}

pub open spec fn concat(ps: Seq<Seq<char>>) -> Seq<char>
    decreases ps.len(),
{
    if ps.len() == 0 {
        Seq::empty()
    } else {
        ps[0] + concat(ps.drop_first())
    }
}

/// `t` is a string literal whose content is `v`.
pub open spec fn string_text(t: Seq<char>, v: Seq<char>) -> bool {
    exists|ps: Seq<Seq<char>>|
        ps.len() == v.len() && (forall|i: int| 0 <= i < v.len() ==> piece_ok(#[trigger] ps[i], v[i])) && t
            == seq!['"'] + concat(ps) + seq!['"']
}

/// `t` is a text of a token of kind `k`.
pub open spec fn token_text(t: Seq<char>, k: KindModel) -> bool {
    match k {
        KindModel::BeginArray => t == seq!['['],
        KindModel::BeginObject => t == seq!['{'],
        KindModel::EndArray => t == seq![']'],
        KindModel::EndObject => t == seq!['}'],
        KindModel::NameSeparator => t == seq![':'],
        KindModel::ValueSeparator => t == seq![','],
        KindModel::Boolean(b) => t == if b {
            seq!['t', 'r', 'u', 'e']
        } else {
            seq!['f', 'a', 'l', 's', 'e']
        },
        KindModel::Null => t == seq!['n', 'u', 'l', 'l'],
        KindModel::Number(n) => t == n && valid_number(n),
        KindModel::Str(v) => string_text(t, v),
        KindModel::Eof => false,
    }
}

pub open spec fn all_ws(g: Seq<char>) -> bool {
    forall|i: int| 0 <= i < g.len() ==> is_ws(#[trigger] g[i])
}

/// The text `gaps[i] + texts[i] + gaps[i + 1] + ... + gaps[n]`.
pub open spec fn layout(gaps: Seq<Seq<char>>, texts: Seq<Seq<char>>, i: int) -> Seq<char>
    decreases texts.len() - i,
{
    if 0 <= i < texts.len() {
        gaps[i] + texts[i] + layout(gaps, texts, i + 1)
    } else {
        gaps[i]
    }
}

/// Scanning written pieces and the closing quote gives their characters.
proof fn lemma_scan_pieces(s: Seq<char>, p: int, line: nat, acc: Seq<char>, ps: Seq<Seq<char>>, v: Seq<char>)
    requires
        ps.len() == v.len(),
        forall|i: int| 0 <= i < v.len() ==> piece_ok(#[trigger] ps[i], v[i]),
        text_at(s, p, concat(ps) + seq!['"']),
    ensures
        scan_string(s, p, line, acc) matches Ok((r, q, _)) && r == acc + v && q == p + concat(ps).len() + 1,
    decreases ps.len(),
{
    let w = concat(ps) + seq!['"'];
    if ps.len() == 0 {
        assert(s[p + 0] == w[0]);
        assert(p + 0 == p);
        assert(acc + v =~= acc);
    } else {
        let e = ps[0];
        let rest = ps.drop_first();
        let vr = v.drop_first();
        assert(piece_ok(ps[0], v[0]));
        assert(concat(ps) == e + concat(rest));
        assert(w == e + (concat(rest) + seq!['"']));
        lemma_text_at_split(s, p, e, concat(rest) + seq!['"']);
        assert(s[p + 0] == e[0]);
        assert(p + 0 == p);
        if e.len() >= 2 {
            assert(s[p + 1] == e[1]);
        }
        if e.len() == 6 {
            assert(s[p + 2] == e[2] && s[p + 3] == e[3] && s[p + 4] == e[4] && s[p + 5] == e[5]);
            assert(unicode_escape(s, p + 2) == unicode_escape(e, 2));
        }
        assert forall|i: int| 0 <= i < vr.len() implies piece_ok(#[trigger] rest[i], vr[i]) by {
            assert(piece_ok(ps[i + 1], v[i + 1]));
        }
        let l2: nat = if e.len() == 1 && v[0] == '\n' || e.len() == 2 && e[1] == '\n' { line + 1 } else { line };
        lemma_scan_pieces(s, p + e.len(), l2, acc.push(v[0]), rest, vr);
        assert(acc.push(v[0]) + vr =~= acc + v);
    }
}

/// Lexing a token text at `p` reads exactly that token.
proof fn lemma_token_step(s: Seq<char>, p: int, line: nat, t: Seq<char>, k: KindModel)
    requires
        text_at(s, p, t),
        token_text(t, k),
        is_word_kind(k) ==> delim_at(s, p + t.len()),
    ensures
        t.len() > 0,
        p < s.len(),
        !is_ws(s[p]),
        lex_step(s, p, line) matches Ok((k2, q, _)) && k2 == k && q == p + t.len(),
{
    let q = p + t.len();
    match k {
        KindModel::Str(v) => {
            let ps = choose|ps: Seq<Seq<char>>|
                ps.len() == v.len() && (forall|i: int| 0 <= i < v.len() ==> piece_ok(#[trigger] ps[i], v[i]))
                    && t == seq!['"'] + concat(ps) + seq!['"'];
            assert(t == seq!['"'] + (concat(ps) + seq!['"']));
            lemma_text_at_split(s, p, seq!['"'], concat(ps) + seq!['"']);
            assert(s[p + 0] == '"');
            assert(p + 0 == p);
            lemma_scan_pieces(s, p + 1, line, Seq::empty(), ps, v);
            assert(Seq::<char>::empty() + v =~= v);
        },
        KindModel::Number(n) => {
            lemma_valid_number_chars(t);
            assert(s[p + 0] == t[0]);
            assert(p + 0 == p);
            assert forall|i: int| p <= i < q implies !ends_number(#[trigger] s[i]) by {
                assert(s[p + (i - p)] == t[i - p]);
            }
            lemma_number_end_exact(s, p, q);
            assert forall|i: int| 0 <= i < t.len() implies s.subrange(p, q)[i] == t[i] by {
                assert(s[p + i] == t[i]);
            }
            assert(s.subrange(p, q) =~= t);
        },
        KindModel::Boolean(_) | KindModel::Null => {
            assert(s[p + 0] == t[0]);
            assert(p + 0 == p);
            assert forall|i: int| p <= i < q implies crate::lexen::is_lower(#[trigger] s[i]) by {
                assert(s[p + (i - p)] == t[i - p]);
            }
            lemma_literal_end_exact(s, p, q);
            assert forall|i: int| 0 <= i < t.len() implies s.subrange(p, q)[i] == t[i] by {
                assert(s[p + i] == t[i]);
            }
            assert(s.subrange(p, q) =~= t);
        },
        _ => {
            assert(s[p + 0] == t[0]);
            assert(p + 0 == p);
        },
    }
}

pub open spec fn kinds(ts: Seq<(KindModel, nat)>) -> Seq<KindModel> {
    ts.map_values(|x: (KindModel, nat)| x.0)
}

proof fn lemma_skip_gap(s: Seq<char>, p: int, line: nat, g: Seq<char>)
    requires
        text_at(s, p, g),
        all_ws(g),
        p + g.len() == s.len() || !is_ws(s[p + g.len()]),
    ensures
        skip_ws(s, p, line).0 == p + g.len(),
    decreases g.len(),
{
    if g.len() > 0 {
        assert(s[p + 0] == g[0]);
        assert(p + 0 == p);
        let r = g.drop_first();
        assert forall|i: int| 0 <= i < r.len() implies #[trigger] s[p + 1 + i] == r[i] by {
            assert(s[p + (i + 1)] == g[i + 1]);
            assert(p + (i + 1) == p + 1 + i);
        }
        lemma_skip_gap(s, p + 1, if s[p] == '\n' { line + 1 } else { line }, r);
    }
}

proof fn lemma_lex_layout(
    s: Seq<char>,
    p: int,
    line: nat,
    gaps: Seq<Seq<char>>,
    texts: Seq<Seq<char>>,
    toks: Seq<KindModel>,
    i: int,
)
    requires
        texts.len() == toks.len(),
        gaps.len() == texts.len() + 1,
        0 <= i <= texts.len(),
        forall|k: int| 0 <= k < texts.len() ==> token_text(#[trigger] texts[k], toks[k]),
        forall|k: int| 0 <= k < gaps.len() ==> all_ws(#[trigger] gaps[k]),
        words_closed(toks),
        text_at(s, p, layout(gaps, texts, i)),
        p + layout(gaps, texts, i).len() == s.len(),
    ensures
        lex_from(s, p, line) matches Ok(r) && kinds(r) == toks.subrange(i, toks.len() as int) + seq![KindModel::Eof],
    decreases texts.len() - i,
{
    let n = texts.len() as int;
    let g = gaps[i];
    assert(all_ws(gaps[i]));
    if i == n {
        assert(layout(gaps, texts, i) == g);
        lemma_skip_gap(s, p, line, g);
        let l = skip_ws(s, p, line).1;
        assert(lex_from(s, p, line) == Ok::<Seq<(KindModel, nat)>, crate::lexen::LexErrorModel>(
            seq![(KindModel::Eof, l)],
        ));
        assert(kinds(seq![(KindModel::Eof, l)]) =~= toks.subrange(i, n) + seq![KindModel::Eof]);
    } else {
        let t = texts[i];
        let rest = layout(gaps, texts, i + 1);
        assert(layout(gaps, texts, i) == g + (t + rest));
        lemma_text_at_split(s, p, g, t + rest);
        lemma_text_at_split(s, p + g.len(), t, rest);
        let p1 = p + g.len();
        let q = p1 + t.len();
        assert(token_text(texts[i], toks[i]));
        if is_word_kind(toks[i]) {
            if i + 1 < n {
                assert(is_closer(toks[i + 1]));
                assert(token_text(texts[i + 1], toks[i + 1]));
                let g2 = gaps[i + 1];
                assert(all_ws(gaps[i + 1]));
                assert(rest == g2 + (texts[i + 1] + layout(gaps, texts, i + 2)));
                lemma_text_at_split(s, q, g2, texts[i + 1] + layout(gaps, texts, i + 2));
                lemma_text_at_split(s, q + g2.len(), texts[i + 1], layout(gaps, texts, i + 2));
                if g2.len() > 0 {
                    assert(s[q + 0] == g2[0]);
                } else {
                    assert(s[q + g2.len() + 0] == texts[i + 1][0]);
                }
                assert(q + 0 == q);
            } else {
                assert(rest == gaps[n]);
                assert(all_ws(gaps[n]));
                if rest.len() > 0 {
                    assert(s[q + 0] == rest[0]);
                    assert(q + 0 == q);
                }
            }
        }
        lemma_token_step(s, p1, skip_ws(s, p, line).1, t, toks[i]);
        lemma_skip_gap(s, p, line, g);
        lemma_skip_ws_line_pos(s, p, line);
        let l1 = skip_ws(s, p, line).1;
        assert(skip_ws(s, p, line) == (p1, l1));
        let l2 = lex_step(s, p1, l1)->Ok_0.2;
        lemma_lex_layout(s, q, l2, gaps, texts, toks, i + 1);
        let r2 = lex_from(s, q, l2)->Ok_0;
        assert(lex_from(s, p, line) == Ok::<Seq<(KindModel, nat)>, crate::lexen::LexErrorModel>(
            seq![(toks[i], l1)] + r2,
        ));
        assert(kinds(seq![(toks[i], l1)] + r2) =~= seq![toks[i]] + kinds(r2));
        assert(toks.subrange(i, n) + seq![KindModel::Eof] =~= seq![toks[i]] + (toks.subrange(i + 1, n) + seq![
            KindModel::Eof,
        ]));
    }
}

proof fn lemma_skip_ws_line_pos(s: Seq<char>, pos: int, line: nat)
    ensures
        skip_ws(s, pos, line).0 >= pos,
    decreases s.len() - pos,
{
    if 0 <= pos < s.len() && is_ws(s[pos]) {
        lemma_skip_ws_line_pos(s, pos + 1, if s[pos] == '\n' { line + 1 } else { line });
    }
}

/// Lexing and then parsing any document of the grammar gives back its tree.
/// A document of a tree `j` is the sequence of its tokens (`value_tokens(j)`),
/// each written in any way the grammar allows (`token_text`: a string with any
/// mix of plain characters and escapes), with any whitespace before, between
/// and after them. When `j`'s objects have unique keys and its nesting stays
/// within `MAX_DEPTH`, lexing the document succeeds, giving the tokens of `j`
/// and `EOF`, and parsing the tokens that lexing gives succeeds with `j`.
pub proof fn lemma_any_document_round_trip(
    j: JsonModel,
    gaps: Seq<Seq<char>>,
    texts: Seq<Seq<char>>,
    ts: Seq<Token>,
)
    requires
        well_formed(j, MAX_DEPTH as nat),
        texts.len() == value_tokens(j).len(),
        gaps.len() == texts.len() + 1,
        forall|k: int| 0 <= k < texts.len() ==> token_text(#[trigger] texts[k], value_tokens(j)[k]),
        forall|k: int| 0 <= k < gaps.len() ==> all_ws(#[trigger] gaps[k]),
    ensures
        lex_spec(layout(gaps, texts, 0)) matches Ok(r) && kinds(r) == value_tokens(j) + seq![KindModel::Eof],
        lex_spec(layout(gaps, texts, 0)) == Ok::<Seq<(KindModel, nat)>, crate::lexen::LexErrorModel>(
            tokens_model(ts),
        ) ==> parse_spec(ts) == Ok::<JsonModel, ParseError>(j),
{
    let s = layout(gaps, texts, 0);
    let toks = value_tokens(j);
    assert(text_at(s, 0, s)) by {
        assert forall|i: int| 0 <= i < s.len() implies #[trigger] s[0 + i] == s[i] by {
            assert(0 + i == i);
        }
    }
    lemma_value_words_closed(j);
    lemma_lex_layout(s, 0, 1, gaps, texts, toks, 0);
    assert(toks.subrange(0, toks.len() as int) =~= toks);
    let r = lex_spec(s)->Ok_0;
    assert(kinds(r).len() == r.len());
    assert(kinds(r) == toks + seq![KindModel::Eof]);
    assert(r.len() == toks.len() + 1);
    if lex_spec(s) == Ok::<Seq<(KindModel, nat)>, crate::lexen::LexErrorModel>(tokens_model(ts)) {
        assert(r == tokens_model(ts));
        assert(tokens_model(ts).len() == ts.len());
        assert(ts.len() == r.len());
        assert forall|i: int| 0 <= i < toks.len() implies #[trigger] ts[0 + i].spec_kind().model() == toks[i] by {
            assert(0 + i == i);
            assert(kinds(r)[i] == r[i].0);
            assert(tokens_model(ts)[i] == crate::lexen::token_model(ts[i]));
            assert((toks + seq![KindModel::Eof])[i] == toks[i]);
        }
        lemma_parse_round_trip(ts, j);
    }
}

} // verus!
