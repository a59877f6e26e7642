//! Markup for a fenced code block of a document: the hidden element that holds
//! the code, an optional copy button, and the displayed code with its optional
//! script execution and line numbers.
use vstd::prelude::*;
use vstd::string::*;
use crate::dcl::{empty_element, escape_quotes};
use crate::dom::{
    attrs_view, copy_button, copy_button_node, element, nodes_view, owned, script_node, text_only,
    upsert, Dom, DomElement, Node,
};
use crate::text::{replace_all, replace_all_exec, same_text};

verus! {

/// What `str::trim` returns for the given characters.
pub uninterp spec fn trimmed_text(s: Seq<char>) -> Seq<char>;

/// Relies on `str::trim`: the text without leading and trailing Unicode
/// whitespace, which depends on the characters alone.
#[verifier::external_body]
fn trim_whitespace(s: &str) -> (r: &str)
    ensures
        r@ == trimmed_text(s@),
{
    s.trim()
}

/// The word `w` is one of `kinds`.
pub open spec fn has_kind(kinds: Seq<Seq<char>>, w: Seq<char>) -> bool {
    exists|i: int| 0 <= i < kinds.len() && kinds[i] == w
}

/// The language of a block: its first class, or nothing.
pub open spec fn block_language(kinds: Seq<Seq<char>>) -> Seq<char> {
    if kinds.len() > 0 {
        kinds[0]
    } else {
        Seq::empty()
    }
}

/// The number of line breaks in `s`.
pub open spec fn newlines(s: Seq<char>) -> nat
    decreases s.len(),
{
    if s.len() == 0 {
        0
    } else if s.last() == '\n' {
        newlines(s.drop_last()) + 1
    } else {
        newlines(s.drop_last())
    }
}

/// The number of lines `str::lines` finds: one per line break, and one more
/// where the text is not empty and does not end with a line break.
pub open spec fn line_count(s: Seq<char>) -> nat {
    if s.len() > 0 && s.last() != '\n' {
        newlines(s) + 1
    } else {
        newlines(s)
    }
}

/// The decimal digit for `d < 10`.
pub open spec fn digit(d: nat) -> char {
    if d == 0 {
        '0'
    } else if d == 1 {
        '1'
    } else if d == 2 {
        '2'
    } else if d == 3 {
        '3'
    } else if d == 4 {
        '4'
    } else if d == 5 {
        '5'
    } else if d == 6 {
        '6'
    } else if d == 7 {
        '7'
    } else if d == 8 {
        '8'
    } else {
        '9'
    }
}

/// `n` written in decimal.
pub open spec fn decimal(n: nat) -> Seq<char>
    decreases n,
{
    if n < 10 {
        seq![digit(n)]
    } else {
        decimal(n / 10).push(digit(n % 10))
    }
}

/// The number `n` in a span.
pub open spec fn number_span(n: nat) -> Seq<char> {
    "<span>"@ + decimal(n) + "</span>"@
}

/// The spans of the numbers `1..=k`, one per line.
pub open spec fn number_lines(k: nat) -> Seq<char>
    decreases k,
{
    if k == 0 {
        Seq::empty()
    } else if k == 1 {
        number_span(1)
    } else {
        number_lines((k - 1) as nat) + "\n"@ + number_span(k)
    }
}

/// The hidden element holding the block's code, and the copy button where the
/// block asks for one.
pub open spec fn head_nodes(identifier: Seq<char>, kinds: Seq<Seq<char>>, code: Seq<char>) -> Seq<
    Node,
> {
    let hidden = empty_element(
        "input"@,
        seq![("type"@, "hidden"@), ("id"@, identifier), ("value"@, escape_quotes(code))],
    );
    if has_kind(kinds, "copy"@) {
        seq![hidden, copy_button_node(identifier)]
    } else {
        seq![hidden]
    }
}

/// Code shown as markup text: `<` and `>` written as entities.
pub open spec fn escape_angles(s: Seq<char>) -> Seq<char> {
    replace_all(replace_all(s, "<"@, "&lt;"@), ">"@, "&gt;"@)
}

/// The displayed code: a `pre` holding a `code` element marked with the
/// language and named by the block's identifier.
pub open spec fn pre_node(identifier: Seq<char>, language: Seq<char>, shown: Seq<char>) -> Node {
    Node::Element {
        tag: "pre"@,
        attributes: Seq::empty(),
        children: seq![
            Node::Element {
                tag: "code"@,
                attributes: seq![("class"@, "language-"@ + language), ("name"@, identifier)],
                children: seq![Node::Text(shown)],
            },
        ],
    }
}

/// The column of line numbers beside displayed code of `k` lines.
pub open spec fn numbers_node(k: nat) -> Node {
    Node::Element {
        tag: "pre"@,
        attributes: seq![("class"@, "line-numbers"@)],
        children: seq![
            Node::Element {
                tag: "code"@,
                attributes: Seq::empty(),
                children: seq![Node::Text(number_lines(k))],
            },
        ],
    }
}

/// The nodes of a plain code block: its code as a script where it is marked
/// `script` in JavaScript, and its code displayed unless it is a script not
/// marked `show`, with a column of line numbers where it is marked
/// `linenumbers`.
pub open spec fn plain_nodes(identifier: Seq<char>, kinds: Seq<Seq<char>>, code: Seq<char>) -> Seq<
    Node,
> {
    let language = block_language(kinds);
    let script = has_kind(kinds, "script"@);
    let run = if script && (language == "js"@ || language == "javascript"@) {
        seq![script_node(code)]
    } else {
        Seq::empty()
    };
    let shown = escape_angles(trimmed_text(code));
    let pre = pre_node(identifier, language, shown);
    let display = if !script || has_kind(kinds, "show"@) {
        if has_kind(kinds, "linenumbers"@) {
            seq![
                Node::Element {
                    tag: "div"@,
                    attributes: seq![("style"@, "display: flex; flex-direction: row;"@)],
                    children: seq![
                        numbers_node(line_count(shown)),
                        Node::Element {
                            tag: "pre"@,
                            attributes: upsert(Seq::empty(), "style"@, "flex:1"@),
                            children: pre->Element_children,
                        },
                    ],
                },
            ]
        } else {
            seq![pre]
        }
    } else {
        Seq::empty()
    };
    run + display
}

fn has_kind_exec(kinds: &Vec<String>, w: &str) -> (r: bool)
    ensures
        r == has_kind(kinds@.map_values(|k: String| k@), w@),
{
    let ghost ks = kinds@.map_values(|k: String| k@);
    let mut i: usize = 0;
    while i < kinds.len()
        invariant
            ks == kinds@.map_values(|k: String| k@),
            i <= kinds@.len(),
            forall|j: int| 0 <= j < i ==> ks[j] != w@,
        decreases kinds@.len() - i,
    {
        if same_text(kinds[i].as_str(), w) {
            assert(ks[i as int] == w@);
            return true;
        }
        i = i + 1;
    }
    false
}

proof fn lemma_newlines_bound(s: Seq<char>)
    ensures
        newlines(s) <= s.len(),
    decreases s.len(),
{
    if s.len() > 0 {
        lemma_newlines_bound(s.drop_last());
    }
}

/// Counts the lines of `s` as `str::lines` does.
pub fn count_lines(s: &str) -> (r: usize)
    ensures
        r == line_count(s@),
{
    let n = s.unicode_len();
    let mut count: usize = 0;
    let mut i: usize = 0;
    proof {
        assert(s@.subrange(0, 0) =~= Seq::<char>::empty());
    }
    while i < n
        invariant
            n == s@.len(),
            i <= n,
            count == newlines(s@.subrange(0, i as int)),
            count <= i,
        decreases n - i,
    {
        let c = s.get_char(i);
        proof {
            assert(s@.subrange(0, i + 1).drop_last() =~= s@.subrange(0, i as int));
        }
        if c == '\n' {
            count = count + 1;
        }
        i = i + 1;
    }
    proof {
        assert(s@.subrange(0, n as int) =~= s@);
    }
    if n > 0 && s.get_char(n - 1) != '\n' {
        proof {
            lemma_newlines_bound(s@.drop_last());
        }
        count = count + 1;
    }
    count
}

fn digit_str(d: usize) -> (r: &'static str)
    requires
        d < 10,
    ensures
        r@ == seq![digit(d as nat)],
{
    proof {
        reveal_strlit("0");
        reveal_strlit("1");
        reveal_strlit("2");
        reveal_strlit("3");
        reveal_strlit("4");
        reveal_strlit("5");
        reveal_strlit("6");
        reveal_strlit("7");
        reveal_strlit("8");
        reveal_strlit("9");
    }
    let r = if d == 0 {
        "0"
    } else if d == 1 {
        "1"
    } else if d == 2 {
        "2"
    } else if d == 3 {
        "3"
    } else if d == 4 {
        "4"
    } else if d == 5 {
        "5"
    } else if d == 6 {
        "6"
    } else if d == 7 {
        "7"
    } else if d == 8 {
        "8"
    } else {
        "9"
    };
    assert(r@ =~= seq![digit(d as nat)]);
    r
}

/// Appends `n` in decimal to `out`.
pub fn push_decimal(out: &mut String, n: usize)
    ensures
        final(out)@ == old(out)@ + decimal(n as nat),
    decreases n,
{
    if n >= 10 {
        push_decimal(out, n / 10);
    }
    out.append(digit_str(n % 10));
    proof {
        if n >= 10 {
            assert(old(out)@ + decimal((n / 10) as nat) + seq![digit((n % 10) as nat)] =~= old(
                out,
            )@ + decimal(n as nat));
        } else {
            assert(n % 10 == n);
            assert(old(out)@ + seq![digit((n % 10) as nat)] =~= old(out)@ + decimal(n as nat));
        }
    }
}

fn number_lines_exec(k: usize) -> (r: String)
    ensures
        r@ == number_lines(k as nat),
{
    let mut out = String::new();
    let mut i: usize = 1;
    while i <= k
        invariant
            1 <= i,
            i <= k + 1,
            out@ == number_lines((i - 1) as nat),
        decreases k + 1 - i,
    {
        if i > 1 {
            out.append("\n");
        }
        out.append("<span>");
        push_decimal(&mut out, i);
        out.append("</span>");
        proof {
            if i > 1 {
                assert(out@ =~= number_lines((i - 1) as nat) + "\n"@ + number_span(i as nat));
            } else {
                assert(out@ =~= number_span(1));
            }
        }
        if i == k {
            return out;
        }
        i = i + 1;
    }
    out
}

fn push_node(v: &mut Vec<DomElement>, e: DomElement)
    ensures
        nodes_view(final(v)@) == nodes_view(old(v)@).push(e@),
{
    let ghost prev = v@;
    v.push(e);
    proof {
        assert(v@.drop_last() =~= prev);
    }
}

fn push_attr(a: &mut Vec<(String, String)>, k: &str, val: String)
    ensures
        attrs_view(final(a)@) == attrs_view(old(a)@).push((k@, val@)),
{
    let ghost prev = a@;
    a.push((owned(k), val));
    proof {
        assert(attrs_view(a@) =~= attrs_view(prev).push((k@, val@)));
    }
}

fn one_node(e: DomElement) -> (r: Dom)
    ensures
        r@ == seq![e@],
{
    let mut v: Vec<DomElement> = Vec::new();
    push_node(&mut v, e);
    proof {
        assert(nodes_view(Seq::<DomElement>::empty()) =~= Seq::<Node>::empty());
        assert(Seq::<Node>::empty().push(e@) =~= seq![e@]);
    }
    Dom(v)
}

/// The hidden element that holds a block's code, quotes escaped, followed by a
/// copy button where the block's classes include `copy`.
pub fn code_block_head(identifier: &str, kinds: &Vec<String>, code: &str) -> (r: Vec<DomElement>)
    ensures
        nodes_view(r@) == head_nodes(identifier@, kinds@.map_values(|k: String| k@), code@),
{
    let mut attributes: Vec<(String, String)> = Vec::new();
    push_attr(&mut attributes, "type", owned("hidden"));
    push_attr(&mut attributes, "id", owned(identifier));
    push_attr(&mut attributes, "value", replace_all_exec(code, "\"", "&quot;"));
    let mut r: Vec<DomElement> = Vec::new();
    let ghost empty = nodes_view(r@);
    push_node(&mut r, element("input", attributes, Dom(Vec::new())));
    let copy = has_kind_exec(kinds, "copy");
    if copy {
        push_node(&mut r, copy_button(identifier));
    }
    proof {
        assert(empty =~= Seq::<Node>::empty());
        assert(nodes_view(Seq::<DomElement>::empty()) =~= Seq::<Node>::empty());
        assert(attrs_view(attributes@) =~= seq![
            ("type"@, "hidden"@),
            ("id"@, identifier@),
            ("value"@, escape_quotes(code@)),
        ]);
        assert(nodes_view(r@) =~= head_nodes(identifier@, kinds@.map_values(|k: String| k@), code@));
    }
    r
}

/// The nodes of a plain code block (neither a component nor a diagram block):
/// the code run as a script where the block is a JavaScript `script`, and the
/// code displayed, with `<` and `>` escaped, unless it is a script not marked
/// `show`; displayed code gets a column of line numbers where the block is
/// marked `linenumbers`.
pub fn plain_code_nodes(identifier: &str, kinds: &Vec<String>, code: &str) -> (r: Vec<DomElement>)
    ensures
        nodes_view(r@) == plain_nodes(identifier@, kinds@.map_values(|k: String| k@), code@),
{
    let ghost ks = kinds@.map_values(|k: String| k@);
    let language = if kinds.len() > 0 {
        kinds[0].clone()
    } else {
        String::new()
    };
    assert(language@ == block_language(ks));
    let mut r: Vec<DomElement> = Vec::new();
    let ghost empty = nodes_view(r@);
    let script = has_kind_exec(kinds, "script");
    if script && (same_text(language.as_str(), "js") || same_text(language.as_str(), "javascript")) {
        push_node(&mut r, DomElement::script(code));
    }
    let ghost after_run = nodes_view(r@);
    if !script || has_kind_exec(kinds, "show") {
        let trimmed = trim_whitespace(code);
        let lt = replace_all_exec(trimmed, "<", "&lt;");
        let shown = replace_all_exec(lt.as_str(), ">", "&gt;");
        let lines = count_lines(shown.as_str());
        let mut class = owned("language-");
        class.append(language.as_str());
        let mut code_attrs: Vec<(String, String)> = Vec::new();
        push_attr(&mut code_attrs, "class", class);
        push_attr(&mut code_attrs, "name", owned(identifier));
        let code_el = element("code", code_attrs, text_only(shown));
        let pre = element("pre", Vec::new(), one_node(code_el));
        proof {
            assert(attrs_view(Seq::<(String, String)>::empty()) =~= Seq::empty());
            assert(attrs_view(code_attrs@) =~= seq![
                ("class"@, "language-"@ + language@),
                ("name"@, identifier@),
            ]);
            assert(pre@ == pre_node(identifier@, language@, escape_angles(trimmed_text(code@))));
        }
        if has_kind_exec(kinds, "linenumbers") {
            let mut number_attrs: Vec<(String, String)> = Vec::new();
            push_attr(&mut number_attrs, "class", owned("line-numbers"));
            let numbers_code = element("code", Vec::new(), text_only(number_lines_exec(lines)));
            let numbers = element("pre", number_attrs, one_node(numbers_code));
            let styled = pre.with_attr("style", "flex:1");
            let mut children: Vec<DomElement> = Vec::new();
            push_node(&mut children, numbers);
            push_node(&mut children, styled);
            let mut div_attrs: Vec<(String, String)> = Vec::new();
            push_attr(&mut div_attrs, "style", owned("display: flex; flex-direction: row;"));
            push_node(&mut r, element("div", div_attrs, Dom(children)));
            proof {
                assert(attrs_view(Seq::<(String, String)>::empty()) =~= Seq::empty());
                assert(nodes_view(Seq::<DomElement>::empty()) =~= Seq::<Node>::empty());
                assert(attrs_view(number_attrs@) =~= seq![("class"@, "line-numbers"@)]);
                assert(attrs_view(div_attrs@) =~= seq![
                    ("style"@, "display: flex; flex-direction: row;"@),
                ]);
                assert(numbers@ == numbers_node(line_count(shown@)));
                assert(nodes_view(children@) =~= seq![numbers@, styled@]);
            }
        } else {
            push_node(&mut r, pre);
        }
    }
    proof {
        assert(empty =~= Seq::<Node>::empty());
        assert(nodes_view(r@) =~= plain_nodes(identifier@, ks, code@));
    }
    r
}

} // verus!
