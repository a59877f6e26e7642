//! The component language: its syntax tree, and the compiler from statements
//! to markup nodes with the event listeners that carry values from source
//! cells to derived cells.
use vstd::prelude::*;
use vstd::string::*;
use crate::dom::{
    attrs_view, element, html_seq, nodes_view, owned, script_node, text_only, Dom, DomElement,
    Node,
};
use crate::parse::{parse_document, parse_lines, parse_statement_exec};
use crate::text::{lemma_split_len, replace_all, replace_all_exec, split_on, trim_range};

verus! {

/// A parsed document: its statements in source order.
#[derive(Debug)]
pub struct DeclarativeComponentLanguage {
    pub statements: Vec<Statement>,
}

/// A syntax error: the 1-based number of the first line that is neither blank
/// nor a well-formed statement.
#[derive(Debug, Clone, Copy, PartialEq, Eq, Structural)]
pub struct ParseError {
    pub line: usize,
}

/// One declaration: a cell name, the widget that shows it, and its value.
#[derive(Debug)]
pub struct Statement {
    pub variable: String,
    pub component_kind: ComponentKind,
    pub value: Value,
}

/// The widget a cell is rendered as.
#[derive(Debug, Clone, Copy, PartialEq, Eq, Structural)]
pub enum ComponentKind {
    TextInput,
    TextArea,
    Paragraph,
    Radio,
}

/// What a cell holds: an expression over other cells, a fixed literal, or a
/// choice among literals.
#[derive(Debug)]
pub enum Value {
    Fn { variables: Vec<String>, body: String },
    Const { value: String },
    Options { values: Vec<String> },
}

/// The abstract value of a `Value`.
pub enum ValueModel {
    Fn { variables: Seq<Seq<char>>, body: Seq<char> },
    Const { value: Seq<char> },
    Options { values: Seq<Seq<char>> },
}

/// The abstract value of a `Statement`.
pub struct StatementModel {
    pub variable: Seq<char>,
    pub kind: ComponentKind,
    pub value: ValueModel,
}

/// The characters of each string in `v`.
pub open spec fn strings_view(v: Seq<String>) -> Seq<Seq<char>> {
    v.map_values(|s: String| s@)
}

impl View for Value {
    type V = ValueModel;

    open spec fn view(&self) -> ValueModel {
        match self {
            Value::Fn { variables, body } => ValueModel::Fn {
                variables: strings_view(variables@),
                body: body@,
            },
            Value::Const { value } => ValueModel::Const { value: value@ },
            Value::Options { values } => ValueModel::Options { values: strings_view(values@) },
        }
    }
}

impl View for Statement {
    type V = StatementModel;

    open spec fn view(&self) -> StatementModel {
        StatementModel { variable: self.variable@, kind: self.component_kind, value: self.value@ }
    }
}

/// The abstract values of a sequence of statements.
pub open spec fn statements_view(v: Seq<Statement>) -> Seq<StatementModel> {
    v.map_values(|s: Statement| s@)
}

impl View for DeclarativeComponentLanguage {
    type V = Seq<StatementModel>;

    open spec fn view(&self) -> Seq<StatementModel> {
        statements_view(self.statements@)
    }
}

/// The tag a widget renders as.
pub open spec fn kind_tag(k: ComponentKind) -> Seq<char> {
    match k {
        ComponentKind::TextInput => "input"@,
        ComponentKind::TextArea => "textarea"@,
        ComponentKind::Paragraph => "p"@,
        ComponentKind::Radio => "input"@,
    }
}

/// The attributes every element of a widget carries.
pub open spec fn kind_attributes(k: ComponentKind) -> Seq<(Seq<char>, Seq<char>)> {
    match k {
        ComponentKind::TextInput => seq![("type"@, "text"@)],
        ComponentKind::Radio => seq![("type"@, "radio"@)],
        _ => Seq::empty(),
    }
}

/// The property through which a widget's value is read and written.
pub open spec fn kind_accessor(k: ComponentKind) -> Seq<char> {
    match k {
        ComponentKind::TextInput | ComponentKind::TextArea => "value"@,
        ComponentKind::Paragraph => "innerHTML"@,
        ComponentKind::Radio => "checked"@,
    }
}

/// An element with the given tag and attributes and no children.
pub open spec fn empty_element(tag: Seq<char>, attributes: Seq<(Seq<char>, Seq<char>)>) -> Node {
    Node::Element { tag, attributes, children: Seq::empty() }
}

/// The expression that reads the current value of the element with id `v`.
pub open spec fn lookup_expr(v: Seq<char>) -> Seq<char> {
    "document.getElementById(\""@ + v + "\").value"@
}

/// `body` with each input name, in order, replaced by the read of that
/// input's current value.
pub open spec fn substitute(body: Seq<char>, inputs: Seq<Seq<char>>) -> Seq<char>
    decreases inputs.len(),
{
    if inputs.len() == 0 {
        body
    } else {
        let v = inputs.last();
        replace_all(substitute(body, inputs.drop_last()), v, lookup_expr(v))
    }
}

/// The listener that, on input to `input`, writes `expr` into the property
/// `accessor` of the element `target`.
pub open spec fn fn_listener(
    input: Seq<char>,
    target: Seq<char>,
    accessor: Seq<char>,
    expr: Seq<char>,
) -> Seq<char> {
    "\n    document.getElementById(\""@ + input
        + "\").addEventListener('input', function(event) {\n    document.getElementById(\""@
        + target + "\")."@ + accessor + " = "@ + expr + "\n});\n"@
}

/// One listener script per input, in the order of the inputs.
pub open spec fn fn_listeners(
    inputs: Seq<Seq<char>>,
    target: Seq<char>,
    accessor: Seq<char>,
    expr: Seq<char>,
) -> Seq<Node> {
    inputs.map_values(|v: Seq<char>| script_node(fn_listener(v, target, accessor, expr)))
}

/// The id of the radio control for `choice` of cell `var`.
pub open spec fn choice_id(var: Seq<char>, choice: Seq<char>) -> Seq<char> {
    var + "_"@ + choice
}

/// The listener that, when the radio for `choice` is picked, stores `choice`
/// in the hidden element `var` and fires an input event on it.
pub open spec fn choice_listener(var: Seq<char>, choice: Seq<char>) -> Seq<char> {
    "\n    document.getElementById(\""@ + choice_id(var, choice)
        + "\").addEventListener('input', function(event) {\n    document.getElementById(\""@
        + var + "\").value = \""@ + choice + "\";\n    document.getElementById(\""@ + var
        + "\").dispatchEvent(new Event('input'));\n});\n"@
}

/// The radio control for `choice` of cell `var`.
pub open spec fn radio_node(var: Seq<char>, choice: Seq<char>) -> Node {
    empty_element(
        "input"@,
        seq![
            ("type"@, "radio"@),
            ("name"@, var),
            ("value"@, choice),
            ("id"@, choice_id(var, choice)),
        ],
    )
}

/// The label of the radio control for `choice` of cell `var`.
pub open spec fn label_node(var: Seq<char>, choice: Seq<char>) -> Node {
    Node::Element {
        tag: "label"@,
        attributes: seq![("for"@, choice_id(var, choice))],
        children: seq![Node::Text(choice)],
    }
}

/// The radio control, its listener and its label, for each choice in order.
pub open spec fn choices_nodes(var: Seq<char>, choices: Seq<Seq<char>>) -> Seq<Node>
    decreases choices.len(),
{
    if choices.len() == 0 {
        Seq::empty()
    } else {
        let c = choices.last();
        choices_nodes(var, choices.drop_last()) + seq![
            radio_node(var, c),
            script_node(choice_listener(var, c)),
            label_node(var, c),
        ]
    }
}

/// The hidden element that stores the current choice of cell `var`.
pub open spec fn hidden_node(var: Seq<char>) -> Node {
    empty_element("input"@, seq![("type"@, "hidden"@), ("id"@, var)])
}

/// A literal with each double quote written as `&quot;`.
pub open spec fn escape_quotes(s: Seq<char>) -> Seq<char> {
    replace_all(s, "\""@, "&quot;"@)
}

/// The nodes one statement compiles to.
pub open spec fn statement_nodes(st: StatementModel) -> Seq<Node> {
    let tag = kind_tag(st.kind);
    let base = kind_attributes(st.kind);
    match st.value {
        ValueModel::Const { value } => seq![
            empty_element(tag, base + seq![("id"@, st.variable), ("value"@, escape_quotes(value))]),
        ],
        ValueModel::Fn { variables, body } => fn_listeners(
            variables,
            st.variable,
            kind_accessor(st.kind),
            substitute(body, variables),
        ) + seq![empty_element(tag, base + seq![("id"@, st.variable)])],
        ValueModel::Options { values } => seq![hidden_node(st.variable)] + choices_nodes(
            st.variable,
            values,
        ),
    }
}

/// The nodes of all statements, each statement's group after the previous one.
pub open spec fn program_nodes(sts: Seq<StatementModel>) -> Seq<Node>
    decreases sts.len(),
{
    if sts.len() == 0 {
        Seq::empty()
    } else {
        program_nodes(sts.drop_last()) + statement_nodes(sts.last())
    }
}

/// Appends `e` to the nodes in `v`.
fn push_node(v: &mut Vec<DomElement>, e: DomElement)
    ensures
        nodes_view(final(v)@) == nodes_view(old(v)@).push(e@),
{
    let ghost prev = v@;
    v.push(e);
    proof {
        assert(v@.drop_last() =~= prev);
    }
}

/// Appends the pair `(k, val)` to `a`.
fn push_attr(a: &mut Vec<(String, String)>, k: &str, val: String)
    ensures
        attrs_view(final(a)@) == attrs_view(old(a)@).push((k@, val@)),
{
    let ghost prev = a@;
    a.push((owned(k), val));
    proof {
        assert(attrs_view(a@) =~= attrs_view(prev).push((k@, val@)));
    }
}

/// An element with the given tag and attributes and no children.
fn bare_element(tag: &str, attributes: Vec<(String, String)>) -> (r: DomElement)
    ensures
        r@ == empty_element(tag@, attrs_view(attributes@)),
{
    let v: Vec<DomElement> = Vec::new();
    let r = element(tag, attributes, Dom(v));
    assert(nodes_view(v@) =~= Seq::<Node>::empty());
    r
}

/// `a` followed by `b`.
fn concat_str(a: &str, b: &str) -> (r: String)
    ensures
        r@ == a@ + b@,
{
    let mut r = owned(a);
    r.append(b);
    r
}

fn lookup_exec(v: &str) -> (r: String)
    ensures
        r@ == lookup_expr(v@),
{
    let mut r = owned("document.getElementById(\"");
    r.append(v);
    r.append("\").value");
    r
}

fn fn_listener_exec(input: &str, target: &str, accessor: &str, expr: &str) -> (r: String)
    ensures
        r@ == fn_listener(input@, target@, accessor@, expr@),
{
    let mut r = owned("\n    document.getElementById(\"");
    r.append(input);
    r.append("\").addEventListener('input', function(event) {\n    document.getElementById(\"");
    r.append(target);
    r.append("\").");
    r.append(accessor);
    r.append(" = ");
    r.append(expr);
    r.append("\n});\n");
    r
}

fn choice_listener_exec(var: &str, id: &str, choice: &str) -> (r: String)
    requires
        id@ == choice_id(var@, choice@),
    ensures
        r@ == choice_listener(var@, choice@),
{
    let mut r = owned("\n    document.getElementById(\"");
    r.append(id);
    r.append("\").addEventListener('input', function(event) {\n    document.getElementById(\"");
    r.append(var);
    r.append("\").value = \"");
    r.append(choice);
    r.append("\";\n    document.getElementById(\"");
    r.append(var);
    r.append("\").dispatchEvent(new Event('input'));\n});\n");
    r
}

impl ComponentKind {
    /// The attributes every element of this widget carries.
    pub fn attributes(&self) -> (r: Vec<(String, String)>)
        ensures
            attrs_view(r@) == kind_attributes(*self),
    {
        let mut r: Vec<(String, String)> = Vec::new();
        match self {
            ComponentKind::TextInput => push_attr(&mut r, "type", owned("text")),
            ComponentKind::Radio => push_attr(&mut r, "type", owned("radio")),
            ComponentKind::TextArea | ComponentKind::Paragraph => {},
        }
        assert(attrs_view(r@) =~= kind_attributes(*self));
        r
    }

    /// The property through which this widget's value is read and written.
    pub fn accessor(&self) -> (r: String)
        ensures
            r@ == kind_accessor(*self),
    {
        match self {
            ComponentKind::TextInput | ComponentKind::TextArea => owned("value"),
            ComponentKind::Paragraph => owned("innerHTML"),
            ComponentKind::Radio => owned("checked"),
        }
    }

    /// The tag this widget renders as.
    pub fn tag(&self) -> (r: String)
        ensures
            r@ == kind_tag(*self),
    {
        match self {
            ComponentKind::TextInput => owned("input"),
            ComponentKind::TextArea => owned("textarea"),
            ComponentKind::Paragraph => owned("p"),
            ComponentKind::Radio => owned("input"),
        }
    }
}

/// Appends the nodes of a constant cell.
fn compile_const(out: &mut Vec<DomElement>, st: &Statement, value: &String)
    requires
        st.value == (Value::Const { value: *value }),
    ensures
        nodes_view(final(out)@) == nodes_view(old(out)@) + statement_nodes(st@),
{
    let mut attributes = st.component_kind.attributes();
    let ghost base = attrs_view(attributes@);
    push_attr(&mut attributes, "id", st.variable.clone());
    push_attr(&mut attributes, "value", replace_all_exec(value.as_str(), "\"", "&quot;"));
    let tag = st.component_kind.tag();
    let e = bare_element(tag.as_str(), attributes);
    let ghost prev = nodes_view(out@);
    push_node(out, e);
    proof {
        assert(attrs_view(attributes@) =~= base + seq![
            ("id"@, st.variable@),
            ("value"@, escape_quotes(value@)),
        ]);
        assert(nodes_view(out@) =~= prev + statement_nodes(st@));
    }
}

/// Appends the nodes of a derived cell: one listener per input, then the
/// cell's own element.
fn compile_fn(out: &mut Vec<DomElement>, st: &Statement, variables: &Vec<String>, body: &String)
    requires
        st.value == (Value::Fn { variables: *variables, body: *body }),
    ensures
        nodes_view(final(out)@) == nodes_view(old(out)@) + statement_nodes(st@),
{
    let ghost inputs = strings_view(variables@);
    let n = variables.len();
    let mut expr = body.clone();
    let mut i: usize = 0;
    while i < n
        invariant
            n == variables@.len(),
            inputs == strings_view(variables@),
            i <= n,
            expr@ == substitute(body@, inputs.subrange(0, i as int)),
        decreases n - i,
    {
        let v = &variables[i];
        let read = lookup_exec(v.as_str());
        expr = replace_all_exec(expr.as_str(), v.as_str(), read.as_str());
        proof {
            assert(inputs.subrange(0, i + 1).drop_last() =~= inputs.subrange(0, i as int));
        }
        i = i + 1;
    }
    proof {
        assert(inputs.subrange(0, n as int) =~= inputs);
    }
    let accessor = st.component_kind.accessor();
    let ghost start = nodes_view(out@);
    let mut i: usize = 0;
    while i < n
        invariant
            n == variables@.len(),
            inputs == strings_view(variables@),
            i <= n,
            expr@ == substitute(body@, inputs),
            accessor@ == kind_accessor(st.component_kind),
            nodes_view(out@) == start + fn_listeners(
                inputs.subrange(0, i as int),
                st.variable@,
                accessor@,
                expr@,
            ),
        decreases n - i,
    {
        let text = fn_listener_exec(
            variables[i].as_str(),
            st.variable.as_str(),
            accessor.as_str(),
            expr.as_str(),
        );
        let e = DomElement::script(text.as_str());
        push_node(out, e);
        proof {
            assert(fn_listeners(inputs.subrange(0, i + 1), st.variable@, accessor@, expr@)
                =~= fn_listeners(inputs.subrange(0, i as int), st.variable@, accessor@, expr@).push(
                script_node(fn_listener(inputs[i as int], st.variable@, accessor@, expr@)),
            ));
        }
        i = i + 1;
    }
    let mut attributes = st.component_kind.attributes();
    let ghost base = attrs_view(attributes@);
    push_attr(&mut attributes, "id", st.variable.clone());
    let tag = st.component_kind.tag();
    let e = bare_element(tag.as_str(), attributes);
    push_node(out, e);
    proof {
        assert(inputs.subrange(0, n as int) =~= inputs);
        assert(attrs_view(attributes@) =~= base + seq![("id"@, st.variable@)]);
        assert(nodes_view(out@) =~= start + statement_nodes(st@));
    }
}

/// Appends the nodes of a choice cell: the hidden store, then for each choice
/// its radio control, its listener and its label.
fn compile_options(out: &mut Vec<DomElement>, st: &Statement, values: &Vec<String>)
    requires
        st.value == (Value::Options { values: *values }),
    ensures
        nodes_view(final(out)@) == nodes_view(old(out)@) + statement_nodes(st@),
{
    let ghost choices = strings_view(values@);
    let ghost var = st.variable@;
    let ghost start = nodes_view(out@);
    let mut hidden: Vec<(String, String)> = Vec::new();
    push_attr(&mut hidden, "type", owned("hidden"));
    push_attr(&mut hidden, "id", st.variable.clone());
    push_node(out, bare_element("input", hidden));
    proof {
        assert(attrs_view(hidden@) =~= seq![("type"@, "hidden"@), ("id"@, var)]);
        assert(choices.subrange(0, 0) =~= Seq::<Seq<char>>::empty());
        assert(nodes_view(out@) =~= start + seq![hidden_node(var)] + choices_nodes(
            var,
            choices.subrange(0, 0),
        ));
    }
    let n = values.len();
    let mut i: usize = 0;
    while i < n
        invariant
            n == values@.len(),
            choices == strings_view(values@),
            var == st.variable@,
            i <= n,
            nodes_view(out@) == start + seq![hidden_node(var)] + choices_nodes(
                var,
                choices.subrange(0, i as int),
            ),
        decreases n - i,
    {
        let choice = &values[i];
        let mut id = concat_str(st.variable.as_str(), "_");
        id.append(choice.as_str());
        let mut radio: Vec<(String, String)> = Vec::new();
        push_attr(&mut radio, "type", owned("radio"));
        push_attr(&mut radio, "name", st.variable.clone());
        push_attr(&mut radio, "value", choice.clone());
        push_attr(&mut radio, "id", id.clone());
        let ghost before = nodes_view(out@);
        push_node(out, bare_element("input", radio));
        let listener = choice_listener_exec(st.variable.as_str(), id.as_str(), choice.as_str());
        push_node(out, DomElement::script(listener.as_str()));
        let mut label_attrs: Vec<(String, String)> = Vec::new();
        push_attr(&mut label_attrs, "for", id);
        push_node(out, element("label", label_attrs, text_only(choice.clone())));
        proof {
            let c = choices[i as int];
            assert(attrs_view(radio@) =~= seq![
                ("type"@, "radio"@),
                ("name"@, var),
                ("value"@, c),
                ("id"@, choice_id(var, c)),
            ]);
            assert(attrs_view(label_attrs@) =~= seq![("for"@, choice_id(var, c))]);
            assert(choices.subrange(0, i + 1).drop_last() =~= choices.subrange(0, i as int));
            assert(nodes_view(out@) =~= before + seq![
                radio_node(var, c),
                script_node(choice_listener(var, c)),
                label_node(var, c),
            ]);
        }
        i = i + 1;
    }
    proof {
        assert(choices.subrange(0, n as int) =~= choices);
        assert(nodes_view(out@) =~= start + statement_nodes(st@));
    }
}

impl DeclarativeComponentLanguage {
    /// Compiles the statements, in source order, to markup nodes with their
    /// event wiring.
    pub fn to_dom(&self) -> (r: Dom)
        ensures
            r@ == program_nodes(self@),
    {
        let mut out: Vec<DomElement> = Vec::new();
        let ghost sts = self@;
        let n = self.statements.len();
        let mut i: usize = 0;
        proof {
            assert(nodes_view(out@) =~= Seq::<Node>::empty());
            assert(sts.subrange(0, 0) =~= Seq::<StatementModel>::empty());
        }
        while i < n
            invariant
                n == self.statements@.len(),
                sts == self@,
                i <= n,
                nodes_view(out@) == program_nodes(sts.subrange(0, i as int)),
            decreases n - i,
        {
            let st = &self.statements[i];
            match &st.value {
                Value::Const { value } => compile_const(&mut out, st, value),
                Value::Fn { variables, body } => compile_fn(&mut out, st, variables, body),
                Value::Options { values } => compile_options(&mut out, st, values),
            }
            proof {
                assert(sts.subrange(0, i + 1).drop_last() =~= sts.subrange(0, i as int));
            }
            i = i + 1;
        }
        proof {
            assert(sts.subrange(0, n as int) =~= sts);
        }
        Dom(out)
    }
}

proof fn lemma_split_push_line(s: Seq<char>, c: char)
    ensures
        split_on(s.push(c), '\n') == (if c == '\n' {
            split_on(s, '\n').push(Seq::<char>::empty())
        } else {
            split_on(s, '\n').update(
                split_on(s, '\n').len() - 1,
                split_on(s, '\n').last().push(c),
            )
        }),
{
    assert(s.push(c).drop_last() =~= s);
}

/// The lines before a line break of `s` stay lines of every longer prefix of `s`.
proof fn lemma_lines_prefix(s: Seq<char>, i: int, j: int)
    requires
        0 <= i < j <= s.len(),
        s[i] == '\n',
    ensures
        split_on(s.subrange(0, j), '\n').len() > split_on(s.subrange(0, i), '\n').len(),
        split_on(s.subrange(0, j), '\n').subrange(0, split_on(s.subrange(0, i), '\n').len() as int)
            == split_on(s.subrange(0, i), '\n'),
    decreases j - i,
{
    let m = split_on(s.subrange(0, i), '\n').len() as int;
    assert(s.subrange(0, j) =~= s.subrange(0, j - 1).push(s[j - 1]));
    lemma_split_push_line(s.subrange(0, j - 1), s[j - 1]);
    if j == i + 1 {
        assert(split_on(s.subrange(0, j), '\n').subrange(0, m) =~= split_on(s.subrange(0, i), '\n'));
    } else {
        lemma_lines_prefix(s, i, j - 1);
        lemma_split_len(s.subrange(0, j - 1), '\n');
        assert(split_on(s.subrange(0, j), '\n').subrange(0, m) =~= split_on(
            s.subrange(0, j - 1),
            '\n',
        ).subrange(0, m));
    }
}

/// A bad line stays the first bad line when more lines follow.
proof fn lemma_error_kept(lines: Seq<Seq<char>>, k: int)
    requires
        0 <= k <= lines.len(),
        parse_lines(lines.subrange(0, k)) is Err,
    ensures
        parse_lines(lines) == parse_lines(lines.subrange(0, k)),
    decreases lines.len() - k,
{
    if k < lines.len() {
        assert(lines.subrange(0, k + 1).drop_last() =~= lines.subrange(0, k));
        lemma_error_kept(lines, k + 1);
    } else {
        assert(lines.subrange(0, k) =~= lines);
    }
}

/// Parses a whole document: one statement per non-blank line, in order. Fails
/// with the number of the first line that is not a statement.
pub fn parse_dcl(s: &str) -> (r: Result<DeclarativeComponentLanguage, ParseError>)
    ensures
        match r {
            Ok(d) => parse_document(s@) == Ok::<Seq<StatementModel>, nat>(d@),
            Err(e) => e.line >= 1 && parse_document(s@) == Err::<Seq<StatementModel>, nat>(
                (e.line - 1) as nat,
            ),
        },
{
    let n = s.unicode_len();
    let mut statements: Vec<Statement> = Vec::new();
    let mut start: usize = 0;
    let mut line: usize = 0;
    let mut i: usize = 0;
    proof {
        assert(s@.subrange(0, 0) =~= Seq::<char>::empty());
        assert(split_on(Seq::<char>::empty(), '\n').drop_last() =~= Seq::<Seq<char>>::empty());
        assert(statements_view(statements@) =~= Seq::<StatementModel>::empty());
    }
    loop
        invariant
            n == s@.len(),
            start <= i <= n,
            line <= start,
            split_on(s@.subrange(0, i as int), '\n').len() == line + 1,
            split_on(s@.subrange(0, i as int), '\n').last() == s@.subrange(start as int, i as int),
            parse_lines(split_on(s@.subrange(0, i as int), '\n').drop_last()) == Ok::<
                Seq<StatementModel>,
                nat,
            >(statements_view(statements@)),
        decreases n - i,
    {
        let ghost lines = split_on(s@.subrange(0, i as int), '\n');
        let at_end = i == n;
        let c = if at_end {
            '\n'
        } else {
            s.get_char(i)
        };
        if c == '\n' {
            let ghost prev = statements_view(statements@);
            proof {
                assert(lines.drop_last().push(lines.last()) =~= lines);
                if at_end {
                    assert(s@.subrange(0, i as int) =~= s@);
                } else {
                    lemma_lines_prefix(s@, i as int, n as int);
                    assert(s@.subrange(0, n as int) =~= s@);
                }
            }
            let (a, b) = trim_range(s, start, i);
            if a < b {
                match parse_statement_exec(s, n, start, i) {
                    Some(st) => {
                        statements.push(st);
                        proof {
                            assert(statements_view(statements@) =~= prev.push(st@));
                        }
                    },
                    None => {
                        proof {
                            assert(parse_lines(lines) == Err::<Seq<StatementModel>, nat>(
                                line as nat,
                            ));
                            if !at_end {
                                lemma_error_kept(split_on(s@, '\n'), lines.len() as int);
                            }
                        }
                        return Err(ParseError { line: line + 1 });
                    },
                }
            }
            if at_end {
                return Ok(DeclarativeComponentLanguage { statements });
            }
            proof {
                assert(s@.subrange(0, i + 1) =~= s@.subrange(0, i as int).push(c));
                lemma_split_push_line(s@.subrange(0, i as int), c);
                assert(split_on(s@.subrange(0, i + 1), '\n').drop_last() =~= lines);
                assert(s@.subrange(i + 1, i + 1) =~= Seq::<char>::empty());
            }
            line = line + 1;
            start = i + 1;
        } else {
            proof {
                assert(s@.subrange(0, i + 1) =~= s@.subrange(0, i as int).push(c));
                lemma_split_push_line(s@.subrange(0, i as int), c);
                assert(s@.subrange(start as int, i + 1) =~= s@.subrange(start as int, i as int).push(
                    c,
                ));
                assert(split_on(s@.subrange(0, i + 1), '\n').drop_last() =~= lines.drop_last());
            }
        }
        i = i + 1;
    }
}

/// Compiles a document to markup text: the statements are parsed, compiled to
/// markup nodes in source order, and serialized. A syntax error gives no output.
pub fn dcl_to_html(s: &str) -> (r: Result<String, ParseError>)
    ensures
        match parse_document(s@) {
            Ok(sts) => r is Ok && r->Ok_0@ == html_seq(program_nodes(sts)),
            Err(e) => r is Err && r->Err_0.line == e + 1,
        },
{
    match parse_dcl(s) {
        Ok(d) => {
            let dom = d.to_dom();
            Ok(dom.to_raw_html())
        },
        Err(e) => Err(e),
    }
}

/// The output of a sequence of statements is the output of each part, in order.
pub proof fn lemma_program_concat(a: Seq<StatementModel>, b: Seq<StatementModel>)
    ensures
        program_nodes(a + b) == program_nodes(a) + program_nodes(b),
    decreases b.len(),
{
    if b.len() == 0 {
        assert(a + b =~= a);
        assert(program_nodes(a) + program_nodes(b) =~= program_nodes(a));
    } else {
        assert((a + b).drop_last() =~= a + b.drop_last());
        lemma_program_concat(a, b.drop_last());
        assert(program_nodes(a + b) =~= program_nodes(a) + program_nodes(b));
    }
}

/// Order preservation: the nodes of statement `i` come after those of every
/// earlier statement and before those of every later one, whatever the kinds
/// of value.
pub proof fn lemma_order_preserved(sts: Seq<StatementModel>, i: int)
    requires
        0 <= i < sts.len(),
    ensures
        program_nodes(sts) == program_nodes(sts.subrange(0, i)) + statement_nodes(sts[i])
            + program_nodes(sts.subrange(i + 1, sts.len() as int)),
        statement_nodes(sts[i]).len() >= 1,
{
    let pre = sts.subrange(0, i);
    let post = sts.subrange(i + 1, sts.len() as int);
    assert(sts =~= pre.push(sts[i]) + post);
    lemma_program_concat(pre.push(sts[i]), post);
    assert(pre.push(sts[i]).drop_last() =~= pre);
}

} // verus!
