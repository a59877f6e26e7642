use devy::{copy_button, ComponentKind, DeclarativeComponentLanguage, Dom, DomElement, Statement, Value};

fn s(x: &str) -> String {
    x.to_string()
}

fn el(tag: &str, attributes: &[(&str, &str)], children: Vec<DomElement>) -> DomElement {
    DomElement::Element {
        tag: s(tag),
        attributes: attributes.iter().map(|(k, v)| (s(k), s(v))).collect(),
        children: Dom(children),
    }
}

fn attributes_of(e: &DomElement) -> Vec<(String, String)> {
    match e {
        DomElement::Element { attributes, .. } => attributes.clone(),
        DomElement::Text(_) => panic!("text has no attributes"),
    }
}

/// Reads the attribute pairs back from the opening tag of serialized markup.
fn read_attributes(html: &str) -> Vec<(String, String)> {
    let open_end = html.find('>').unwrap();
    let mut rest = &html[..open_end];
    rest = &rest[rest.find(' ').unwrap_or(rest.len())..];
    let mut out = vec![];
    while let Some(eq) = rest.find("=\"") {
        let key = rest[..eq].trim().to_string();
        let after = &rest[eq + 2..];
        let close = after.find('"').unwrap();
        out.push((key, after[..close].to_string()));
        rest = &after[close + 1..];
    }
    out
}

#[test]
fn serialized_attributes_read_back() {
    let e = el(
        "div",
        &[("class", "a b"), ("data-x", "1=2"), ("style", "flex:1")],
        vec![DomElement::Text(s("hi"))],
    );
    let html = Dom(vec![e]).to_raw_html();
    assert_eq!(
        html,
        "<div class=\"a b\"  data-x=\"1=2\"  style=\"flex:1\" >hi</div>"
    );
    assert_eq!(
        read_attributes(&html),
        vec![(s("class"), s("a b")), (s("data-x"), s("1=2")), (s("style"), s("flex:1"))]
    );
}

#[test]
fn nested_tree_serializes_depth_first() {
    let tree = Dom(vec![
        DomElement::Text(s("<raw>")),
        el(
            "pre",
            &[],
            vec![el("code", &[("class", "language-rs")], vec![DomElement::Text(s("x < y"))])],
        ),
        el("br", &[], vec![]),
    ]);
    assert_eq!(
        tree.to_raw_html(),
        "<raw><pre><code class=\"language-rs\" >x < y</code></pre><br></br>"
    );
    assert_eq!(Dom(vec![]).to_raw_html(), "");
}

#[test]
fn with_attr_appends_new_key() {
    let e = el("pre", &[("class", "x")], vec![DomElement::Text(s("body"))]);
    let r = e.with_attr("style", "flex:1");
    assert_eq!(attributes_of(&r), vec![(s("class"), s("x")), (s("style"), s("flex:1"))]);
    assert_eq!(
        Dom(vec![r]).to_raw_html(),
        "<pre class=\"x\"  style=\"flex:1\" >body</pre>"
    );
    assert_eq!(attributes_of(&e), vec![(s("class"), s("x"))]);
}

#[test]
fn with_attr_replaces_existing_key() {
    let e = el("p", &[("id", "a"), ("style", "old"), ("title", "t")], vec![]);
    let r = e.with_attr("style", "new");
    assert_eq!(
        attributes_of(&r),
        vec![(s("id"), s("a")), (s("style"), s("new")), (s("title"), s("t"))]
    );
}

#[test]
fn with_attr_updates_every_duplicate() {
    let e = el("p", &[("k", "1"), ("j", "2"), ("k", "3")], vec![]);
    let r = e.with_attr("k", "9");
    assert_eq!(
        attributes_of(&r),
        vec![(s("k"), s("9")), (s("j"), s("2")), (s("k"), s("9"))]
    );
}

#[test]
fn script_wraps_body() {
    let e = DomElement::script("alert(1)");
    assert_eq!(Dom(vec![e]).to_raw_html(), "<script>alert(1)</script>");
}

#[test]
fn copy_button_copies_by_id() {
    let b = copy_button("code1");
    assert_eq!(
        Dom(vec![b]).to_raw_html(),
        "<button onclick=\"navigator.clipboard.writeText(document.getElementById('code1').value);\" >Copy</button>"
    );
}

#[test]
fn widget_kinds_table() {
    let none: Vec<(String, String)> = vec![];
    assert_eq!(ComponentKind::TextInput.tag(), "input");
    assert_eq!(ComponentKind::TextArea.tag(), "textarea");
    assert_eq!(ComponentKind::Paragraph.tag(), "p");
    assert_eq!(ComponentKind::Radio.tag(), "input");
    assert_eq!(ComponentKind::TextInput.accessor(), "value");
    assert_eq!(ComponentKind::TextArea.accessor(), "value");
    assert_eq!(ComponentKind::Paragraph.accessor(), "innerHTML");
    assert_eq!(ComponentKind::Radio.accessor(), "checked");
    assert_eq!(ComponentKind::TextInput.attributes(), vec![(s("type"), s("text"))]);
    assert_eq!(ComponentKind::Radio.attributes(), vec![(s("type"), s("radio"))]);
    assert_eq!(ComponentKind::TextArea.attributes(), none);
    assert_eq!(ComponentKind::Paragraph.attributes(), none);
}

#[test]
fn const_quotes_are_escaped() {
    let program = DeclarativeComponentLanguage {
        statements: vec![Statement {
            variable: s("q"),
            component_kind: ComponentKind::Paragraph,
            value: Value::Const { value: s("say \"hi\"") },
        }],
    };
    assert_eq!(
        program.to_dom().to_raw_html(),
        "<p id=\"q\"  value=\"say &quot;hi&quot;\" ></p>"
    );
}

#[test]
fn radio_const_and_derived_radio() {
    let program = DeclarativeComponentLanguage {
        statements: vec![
            Statement {
                variable: s("r"),
                component_kind: ComponentKind::Radio,
                value: Value::Const { value: s("on") },
            },
            Statement {
                variable: s("t"),
                component_kind: ComponentKind::Radio,
                value: Value::Fn { variables: vec![], body: s("true") },
            },
        ],
    };
    assert_eq!(
        program.to_dom().to_raw_html(),
        "<input type=\"radio\"  id=\"r\"  value=\"on\" ></input><input type=\"radio\"  id=\"t\" ></input>"
    );
}

#[test]
fn empty_choice_list_gives_only_the_store() {
    let program = DeclarativeComponentLanguage {
        statements: vec![Statement {
            variable: s("c"),
            component_kind: ComponentKind::Radio,
            value: Value::Options { values: vec![] },
        }],
    };
    assert_eq!(
        program.to_dom().to_raw_html(),
        "<input type=\"hidden\"  id=\"c\" ></input>"
    );
}

#[test]
fn derived_checked_uses_accessor_of_target() {
    let program = DeclarativeComponentLanguage {
        statements: vec![Statement {
            variable: s("t"),
            component_kind: ComponentKind::Radio,
            value: Value::Fn { variables: vec![s("u")], body: s("u == 1") },
        }],
    };
    let html = program.to_dom().to_raw_html();
    assert!(html.contains(
        "document.getElementById(\"t\").checked = document.getElementById(\"u\").value == 1\n"
    ));
}
