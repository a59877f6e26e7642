//! The grammar of the component language, one statement per line:
//!
//! ```text
//! statement := identifier ':' widget_kind '=' value
//! widget_kind := "text-input" | "text-area" | "paragraph" | "radio"
//! value := string | '(' identifier (',' identifier)* ')' "=>" expression
//!        | '[' string (',' string)* ']'
//! ```
//!
//! A string is a double-quoted run of characters without quotes; in a choice
//! list it holds no comma either. Spaces, tabs and carriage returns around the
//! parts are ignored, and blank lines are skipped.
use vstd::prelude::*;
use vstd::string::*;
use crate::dcl::{strings_view, ComponentKind, Statement, StatementModel, Value, ValueModel};
use crate::text::{
    find_char, first_index, has_char, slice_string, split_on, split_trim,
    split_trimmed, starts_with_at, trim, trim_range,
};

verus! {

/// A character that may stand in an identifier.
pub open spec fn is_ident_char(c: char) -> bool {
    ('a' <= c <= 'z') || ('A' <= c <= 'Z') || ('0' <= c <= '9') || c == '_'
}

/// A non-empty run of identifier characters.
pub open spec fn is_ident(s: Seq<char>) -> bool {
    s.len() > 0 && forall|i: int| 0 <= i < s.len() ==> is_ident_char(#[trigger] s[i])
}

/// The widget named by a keyword.
pub open spec fn kind_of(s: Seq<char>) -> Option<ComponentKind> {
    if s == "text-input"@ {
        Some(ComponentKind::TextInput)
    } else if s == "text-area"@ {
        Some(ComponentKind::TextArea)
    } else if s == "paragraph"@ {
        Some(ComponentKind::Paragraph)
    } else if s == "radio"@ {
        Some(ComponentKind::Radio)
    } else {
        None
    }
}

/// A double-quoted string with no quote inside.
pub open spec fn is_quoted(s: Seq<char>) -> bool {
    &&& s.len() >= 2
    &&& s[0] == '"'
    &&& s.last() == '"'
    &&& !has_char(s.subrange(1, s.len() - 1), '"')
}

/// The text between the quotes.
pub open spec fn unquote(s: Seq<char>) -> Seq<char> {
    s.subrange(1, s.len() - 1)
}

/// The value of a derived cell written `(params) => body`, given the position
/// `k` of its closing parenthesis.
pub open spec fn parse_function(v: Seq<char>, k: int) -> Option<ValueModel> {
    let params = split_trimmed(v.subrange(1, k), ',');
    let after = trim(v.subrange(k + 1, v.len() as int));
    let body = trim(after.subrange(2, after.len() as int));
    if (forall|i: int| 0 <= i < params.len() ==> is_ident(#[trigger] params[i])) && after.len()
        >= 2 && after[0] == '=' && after[1] == '>' && body.len() > 0 {
        Some(ValueModel::Fn { variables: params, body })
    } else {
        None
    }
}

/// The value of a choice cell written `["a", "b"]`.
pub open spec fn parse_options(v: Seq<char>) -> Option<ValueModel> {
    let items = split_trimmed(v.subrange(1, v.len() - 1), ',');
    if v.len() >= 2 && v.last() == ']' && forall|i: int|
        0 <= i < items.len() ==> is_quoted(#[trigger] items[i]) {
        Some(ValueModel::Options { values: items.map_values(|t: Seq<char>| unquote(t)) })
    } else {
        None
    }
}

/// The value written as the trimmed text `v`, where it is one.
pub open spec fn parse_value(v: Seq<char>) -> Option<ValueModel> {
    if v.len() == 0 {
        None
    } else if v[0] == '"' {
        if is_quoted(v) {
            Some(ValueModel::Const { value: unquote(v) })
        } else {
            None
        }
    } else if v[0] == '(' {
        if has_char(v, ')') {
            parse_function(v, first_index(v, ')'))
        } else {
            None
        }
    } else if v[0] == '[' {
        parse_options(v)
    } else {
        None
    }
}

/// The statement written on the line `line`, where it is one.
pub open spec fn parse_statement(line: Seq<char>) -> Option<StatementModel> {
    if has_char(line, ':') {
        let i = first_index(line, ':');
        let name = trim(line.subrange(0, i));
        let rest = line.subrange(i + 1, line.len() as int);
        if has_char(rest, '=') {
            let j = first_index(rest, '=');
            let kind = kind_of(trim(rest.subrange(0, j)));
            let value = parse_value(trim(rest.subrange(j + 1, rest.len() as int)));
            if is_ident(name) && kind is Some && value is Some {
                Some(StatementModel { variable: name, kind: kind->0, value: value->0 })
            } else {
                None
            }
        } else {
            None
        }
    } else {
        None
    }
}

/// The statements of the given lines in order, skipping blank ones, or the
/// index of the first line that is neither blank nor a statement.
pub open spec fn parse_lines(lines: Seq<Seq<char>>) -> Result<Seq<StatementModel>, nat>
    decreases lines.len(),
{
    if lines.len() == 0 {
        Ok(Seq::empty())
    } else {
        match parse_lines(lines.drop_last()) {
            Err(e) => Err(e),
            Ok(sts) => {
                let line = lines.last();
                if trim(line).len() == 0 {
                    Ok(sts)
                } else {
                    match parse_statement(line) {
                        Some(st) => Ok(sts.push(st)),
                        None => Err((lines.len() - 1) as nat),
                    }
                }
            },
        }
    }
}

/// The statements of a whole document, or the index of its first bad line.
pub open spec fn parse_document(s: Seq<char>) -> Result<Seq<StatementModel>, nat> {
    parse_lines(split_on(s, '\n'))
}

fn is_ident_char_exec(c: char) -> (r: bool)
    ensures
        r == is_ident_char(c),
{
    ('a' <= c && c <= 'z') || ('A' <= c && c <= 'Z') || ('0' <= c && c <= '9') || c == '_'
}

fn is_identifier(t: &str) -> (r: bool)
    ensures
        r == is_ident(t@),
{
    let n = t.unicode_len();
    if n == 0 {
        return false;
    }
    let mut i: usize = 0;
    while i < n
        invariant
            n == t@.len(),
            i <= n,
            forall|j: int| 0 <= j < i ==> is_ident_char(#[trigger] t@[j]),
        decreases n - i,
    {
        if !is_ident_char_exec(t.get_char(i)) {
            return false;
        }
        i = i + 1;
    }
    true
}

/// Whether `s[a..b]` is exactly `lit`.
fn range_is(s: &str, n: usize, a: usize, b: usize, lit: &str) -> (r: bool)
    requires
        n == s@.len(),
        a <= b <= n,
    ensures
        r == (s@.subrange(a as int, b as int) == lit@),
{
    if b - a != lit.unicode_len() {
        return false;
    }
    starts_with_at(s, n, a, lit)
}

fn kind_exec(s: &str, n: usize, a: usize, b: usize) -> (r: Option<ComponentKind>)
    requires
        n == s@.len(),
        a <= b <= n,
    ensures
        r == kind_of(s@.subrange(a as int, b as int)),
{
    if range_is(s, n, a, b, "text-input") {
        Some(ComponentKind::TextInput)
    } else if range_is(s, n, a, b, "text-area") {
        Some(ComponentKind::TextArea)
    } else if range_is(s, n, a, b, "paragraph") {
        Some(ComponentKind::Paragraph)
    } else if range_is(s, n, a, b, "radio") {
        Some(ComponentKind::Radio)
    } else {
        None
    }
}

fn is_quoted_exec(t: &str) -> (r: bool)
    ensures
        r == is_quoted(t@),
{
    let n = t.unicode_len();
    if n < 2 {
        return false;
    }
    if t.get_char(0) != '"' || t.get_char(n - 1) != '"' {
        return false;
    }
    find_char(t, 1, n - 1, '"').is_none()
}

/// The view of a parsed value, where there is one.
pub open spec fn value_opt_view(v: Option<Value>) -> Option<ValueModel> {
    match v {
        Some(x) => Some(x@),
        None => None,
    }
}

fn parse_function_exec(s: &str, n: usize, a: usize, k: usize, b: usize) -> (r: Option<Value>)
    requires
        n == s@.len(),
        a < k < b <= n,
    ensures
        value_opt_view(r) == parse_function(s@.subrange(a as int, b as int), k - a),
{
    let ghost v = s@.subrange(a as int, b as int);
    let ghost kk = k - a;
    let params = split_trim(s, a + 1, k, ',');
    proof {
        assert(v.subrange(1, kk) =~= s@.subrange(a + 1, k as int));
        assert(v.subrange(kk + 1, v.len() as int) =~= s@.subrange(k + 1, b as int));
    }
    let ghost ps = split_trimmed(v.subrange(1, kk), ',');
    let m = params.len();
    let mut i: usize = 0;
    while i < m
        invariant
            m == params@.len(),
            params@.map_values(|p: String| p@) == ps,
            v == s@.subrange(a as int, b as int),
            kk == k - a,
            ps == split_trimmed(v.subrange(1, kk), ','),
            i <= m,
            forall|j: int| 0 <= j < i ==> is_ident(#[trigger] ps[j]),
        decreases m - i,
    {
        assert(ps[i as int] == params@[i as int]@);
        if !is_identifier(params[i].as_str()) {
            proof {
                assert(ps.len() == m);
                assert(!is_ident(ps[i as int]));
            }
            return None;
        }
        i = i + 1;
    }
    let (p, q) = trim_range(s, k + 1, b);
    let ghost after = trim(v.subrange(kk + 1, v.len() as int));
    if q - p < 2 {
        return None;
    }
    if !starts_with_at(s, n, p, "=>") {
        proof {
            reveal_strlit("=>");
            assert(s@.subrange(p as int, p + 2) != "=>"@);
            if after[0] == '=' && after[1] == '>' {
                assert(s@.subrange(p as int, p + 2) =~= "=>"@);
            }
        }
        return None;
    }
    proof {
        reveal_strlit("=>");
        assert(s@.subrange(p as int, p + 2)[0] == after[0]);
        assert(s@.subrange(p as int, p + 2)[1] == after[1]);
        assert(after.subrange(2, after.len() as int) =~= s@.subrange(p + 2, q as int));
    }
    let (c, d) = trim_range(s, p + 2, q);
    if c == d {
        return None;
    }
    let body = slice_string(s, c, d);
    let r = Value::Fn { variables: params, body };
    proof {
        assert(strings_view(params@) =~= ps);
    }
    Some(r)
}

fn parse_options_exec(s: &str, n: usize, a: usize, b: usize) -> (r: Option<Value>)
    requires
        n == s@.len(),
        a < b <= n,
    ensures
        value_opt_view(r) == parse_options(s@.subrange(a as int, b as int)),
{
    let ghost v = s@.subrange(a as int, b as int);
    if b - a < 2 || s.get_char(b - 1) != ']' {
        return None;
    }
    let items = split_trim(s, a + 1, b - 1, ',');
    proof {
        assert(v.subrange(1, v.len() - 1) =~= s@.subrange(a + 1, b - 1));
    }
    let ghost its = split_trimmed(v.subrange(1, v.len() - 1), ',');
    let m = items.len();
    let mut values: Vec<String> = Vec::new();
    let mut i: usize = 0;
    while i < m
        invariant
            m == items@.len(),
            items@.map_values(|p: String| p@) == its,
            v == s@.subrange(a as int, b as int),
            its == split_trimmed(v.subrange(1, v.len() - 1), ','),
            i <= m,
            forall|j: int| 0 <= j < i ==> is_quoted(#[trigger] its[j]),
            strings_view(values@) == its.subrange(0, i as int).map_values(
                |t: Seq<char>| unquote(t),
            ),
        decreases m - i,
    {
        let item = items[i].as_str();
        assert(its[i as int] == item@);
        if !is_quoted_exec(item) {
            proof {
                assert(its.len() == m);
                assert(!is_quoted(its[i as int]));
            }
            return None;
        }
        let len = item.unicode_len();
        let ghost prev = values@;
        values.push(slice_string(item, 1, len - 1));
        proof {
            assert(strings_view(values@) =~= strings_view(prev).push(unquote(item@)));
            assert(its.subrange(0, i + 1).map_values(|t: Seq<char>| unquote(t)) =~= its.subrange(
                0,
                i as int,
            ).map_values(|t: Seq<char>| unquote(t)).push(unquote(its[i as int])));
        }
        i = i + 1;
    }
    proof {
        assert(its.subrange(0, m as int) =~= its);
    }
    Some(Value::Options { values })
}

fn parse_value_exec(s: &str, n: usize, a: usize, b: usize) -> (r: Option<Value>)
    requires
        n == s@.len(),
        a <= b <= n,
    ensures
        value_opt_view(r) == parse_value(s@.subrange(a as int, b as int)),
{
    let ghost v = s@.subrange(a as int, b as int);
    if a == b {
        return None;
    }
    let first = s.get_char(a);
    if first == '"' {
        let text = slice_string(s, a, b);
        if is_quoted_exec(text.as_str()) {
            let len = text.unicode_len();
            Some(Value::Const { value: slice_string(text.as_str(), 1, len - 1) })
        } else {
            None
        }
    } else if first == '(' {
        match find_char(s, a, b, ')') {
            Some(k) => {
                assert(k != a);
                parse_function_exec(s, n, a, k, b)
            },
            None => None,
        }
    } else if first == '[' {
        parse_options_exec(s, n, a, b)
    } else {
        None
    }
}

/// The view of a parsed statement, where there is one.
pub open spec fn statement_opt_view(st: Option<Statement>) -> Option<StatementModel> {
    match st {
        Some(x) => Some(x@),
        None => None,
    }
}

/// Parses the line `s[a..b]` as a statement.
pub(crate) fn parse_statement_exec(s: &str, n: usize, a: usize, b: usize) -> (r: Option<
    Statement,
>)
    requires
        n == s@.len(),
        a <= b <= n,
    ensures
        statement_opt_view(r) == parse_statement(s@.subrange(a as int, b as int)),
{
    let ghost line = s@.subrange(a as int, b as int);
    let c = match find_char(s, a, b, ':') {
        Some(c) => c,
        None => return None,
    };
    let ghost rest = line.subrange(c - a + 1, line.len() as int);
    proof {
        assert(line.subrange(0, c - a) =~= s@.subrange(a as int, c as int));
        assert(rest =~= s@.subrange(c + 1, b as int));
    }
    let e = match find_char(s, c + 1, b, '=') {
        Some(e) => e,
        None => return None,
    };
    proof {
        assert(rest.subrange(0, e - (c + 1)) =~= s@.subrange(c + 1, e as int));
        assert(rest.subrange(e - (c + 1) + 1, rest.len() as int) =~= s@.subrange(e + 1, b as int));
    }
    let (na, nb) = trim_range(s, a, c);
    let name = slice_string(s, na, nb);
    if !is_identifier(name.as_str()) {
        return None;
    }
    let (ka, kb) = trim_range(s, c + 1, e);
    let kind = match kind_exec(s, n, ka, kb) {
        Some(k) => k,
        None => return None,
    };
    let (va, vb) = trim_range(s, e + 1, b);
    let value = match parse_value_exec(s, n, va, vb) {
        Some(v) => v,
        None => return None,
    };
    Some(Statement { variable: name, component_kind: kind, value })
}

/// Failure: once a line is neither blank nor a statement (an unknown widget
/// keyword, a function without its parameter list), the whole parse fails, at
/// that line or an earlier one, and yields no statements.
pub proof fn lemma_bad_line_fails(s: Seq<char>, k: int)
    requires
        0 <= k < split_on(s, '\n').len(),
        trim(split_on(s, '\n')[k]).len() > 0,
        parse_statement(split_on(s, '\n')[k]) is None,
    ensures
        parse_document(s) is Err,
        parse_document(s)->Err_0 <= k,
{
    lemma_bad_line_prefix(split_on(s, '\n'), k);
}

proof fn lemma_bad_line_prefix(lines: Seq<Seq<char>>, k: int)
    requires
        0 <= k < lines.len(),
        trim(lines[k]).len() > 0,
        parse_statement(lines[k]) is None,
    ensures
        parse_lines(lines) is Err,
        parse_lines(lines)->Err_0 <= k,
    decreases lines.len(),
{
    if k < lines.len() - 1 {
        lemma_bad_line_prefix(lines.drop_last(), k);
    } else {
        lemma_error_bound(lines.drop_last());
    }
}

proof fn lemma_error_bound(lines: Seq<Seq<char>>)
    ensures
        parse_lines(lines) is Err ==> parse_lines(lines)->Err_0 < lines.len(),
    decreases lines.len(),
{
    if lines.len() > 0 {
        lemma_error_bound(lines.drop_last());
    }
}

} // verus!
