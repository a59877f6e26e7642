use devy::{dcl_to_html, parse_dcl, ComponentKind, Dom, DomElement, ParseError, Value};

fn s(x: &str) -> String {
    x.to_string()
}

fn pairs(a: &[(&str, &str)]) -> Vec<(String, String)> {
    a.iter().map(|(k, v)| (k.to_string(), v.to_string())).collect()
}

fn element_parts(e: &DomElement) -> (String, Vec<(String, String)>, &Dom) {
    match e {
        DomElement::Element { tag, attributes, children } => {
            (tag.clone(), attributes.clone(), children)
        }
        DomElement::Text(t) => panic!("expected an element, found text {:?}", t),
    }
}

fn script_text(e: &DomElement) -> String {
    let (tag, attributes, children) = element_parts(e);
    assert_eq!(tag, "script");
    assert!(attributes.is_empty());
    assert_eq!(children.0.len(), 1);
    match &children.0[0] {
        DomElement::Text(t) => t.clone(),
        _ => panic!("script without text"),
    }
}

#[test]
fn const_compiles_to_one_input() {
    let program = parse_dcl("x: text-input = \"hello\"").unwrap();
    let dom = program.to_dom();
    assert_eq!(dom.0.len(), 1);
    let (tag, attributes, children) = element_parts(&dom.0[0]);
    assert_eq!(tag, "input");
    assert_eq!(attributes, pairs(&[("type", "text"), ("id", "x"), ("value", "hello")]));
    assert!(children.0.is_empty());
    assert_eq!(
        dom.to_raw_html(),
        "<input type=\"text\"  id=\"x\"  value=\"hello\" ></input>"
    );
}

#[test]
fn fn_fans_out_one_listener_per_input() {
    let program = parse_dcl("y: paragraph = (a, b) => a + b").unwrap();
    let dom = program.to_dom();
    assert_eq!(dom.0.len(), 3);
    let expr = "document.getElementById(\"a\").value + document.getElementById(\"b\").value";
    let first = script_text(&dom.0[0]);
    assert_eq!(
        first,
        format!(
            "\n    document.getElementById(\"a\").addEventListener('input', function(event) {{\n    document.getElementById(\"y\").innerHTML = {}\n}});\n",
            expr
        )
    );
    let second = script_text(&dom.0[1]);
    assert_eq!(
        second,
        format!(
            "\n    document.getElementById(\"b\").addEventListener('input', function(event) {{\n    document.getElementById(\"y\").innerHTML = {}\n}});\n",
            expr
        )
    );
    let (tag, attributes, children) = element_parts(&dom.0[2]);
    assert_eq!(tag, "p");
    assert_eq!(attributes, pairs(&[("id", "y")]));
    assert!(children.0.is_empty());
}

#[test]
fn options_expand_to_hidden_store_radios_scripts_labels() {
    let program = parse_dcl("c: radio = [\"red\",\"green\"]").unwrap();
    let dom = program.to_dom();
    assert_eq!(dom.0.len(), 7);
    let (tag, attributes, _) = element_parts(&dom.0[0]);
    assert_eq!(tag, "input");
    assert_eq!(attributes, pairs(&[("type", "hidden"), ("id", "c")]));
    for (n, choice) in ["red", "green"].iter().enumerate() {
        let base = 1 + 3 * n;
        let id = format!("c_{}", choice);
        let (tag, attributes, children) = element_parts(&dom.0[base]);
        assert_eq!(tag, "input");
        assert_eq!(
            attributes,
            pairs(&[("type", "radio"), ("name", "c"), ("value", choice), ("id", &id)])
        );
        assert!(children.0.is_empty());
        let listener = script_text(&dom.0[base + 1]);
        assert_eq!(
            listener,
            format!(
                "\n    document.getElementById(\"{}\").addEventListener('input', function(event) {{\n    document.getElementById(\"c\").value = \"{}\";\n    document.getElementById(\"c\").dispatchEvent(new Event('input'));\n}});\n",
                id, choice
            )
        );
        let (tag, attributes, children) = element_parts(&dom.0[base + 2]);
        assert_eq!(tag, "label");
        assert_eq!(attributes, pairs(&[("for", &id)]));
        assert_eq!(children.0.len(), 1);
        assert!(matches!(&children.0[0], DomElement::Text(t) if t == choice));
    }
}

#[test]
fn choice_cell_feeds_derived_cell() {
    let program = parse_dcl("c: radio = [\"x\", \"y\"]\nz: paragraph = (c) => c").unwrap();
    let dom = program.to_dom();
    assert_eq!(dom.0.len(), 1 + 6 + 2);
    let radio_listener = script_text(&dom.0[2]);
    assert!(radio_listener
        .contains("document.getElementById(\"c\").dispatchEvent(new Event('input'));"));
    let z_listener = script_text(&dom.0[7]);
    assert!(z_listener.starts_with(
        "\n    document.getElementById(\"c\").addEventListener('input', function(event) {"
    ));
    assert!(z_listener.contains(
        "document.getElementById(\"z\").innerHTML = document.getElementById(\"c\").value\n"
    ));
    let (tag, attributes, _) = element_parts(&dom.0[8]);
    assert_eq!(tag, "p");
    assert_eq!(attributes, pairs(&[("id", "z")]));
}

#[test]
fn output_groups_follow_statement_order() {
    let src = "a: text-area = \"one\"\nb: radio = [\"p\"]\nc: text-input = (a) => a\nd: paragraph = \"two\"";
    let dom = parse_dcl(src).unwrap().to_dom();
    assert_eq!(dom.0.len(), 1 + 4 + 2 + 1);
    let ids: Vec<Option<String>> = dom
        .0
        .iter()
        .map(|e| match e {
            DomElement::Element { attributes, .. } => attributes
                .iter()
                .find(|(k, _)| k == "id")
                .map(|(_, v)| v.clone()),
            DomElement::Text(_) => None,
        })
        .collect();
    assert_eq!(
        ids,
        vec![
            Some(s("a")),
            Some(s("b")),
            Some(s("b_p")),
            None,
            None,
            None,
            Some(s("c")),
            Some(s("d")),
        ]
    );
    let (tag, _, _) = element_parts(&dom.0[0]);
    assert_eq!(tag, "textarea");
}

#[test]
fn unknown_widget_kind_fails() {
    let r = parse_dcl("x: slider = \"a\"");
    assert_eq!(r.unwrap_err(), ParseError { line: 1 });
}

#[test]
fn function_without_parentheses_fails() {
    let r = parse_dcl("y: paragraph = a, b => a + b");
    assert_eq!(r.unwrap_err(), ParseError { line: 1 });
}

#[test]
fn error_names_first_bad_line() {
    let src = "a: text-input = \"1\"\n\nb: text-area = oops\nc: radio = what";
    assert_eq!(parse_dcl(src).unwrap_err(), ParseError { line: 3 });
    assert_eq!(dcl_to_html(src), Err(ParseError { line: 3 }));
}

#[test]
fn malformed_values_fail() {
    assert!(parse_dcl("x: text-input = hello").is_err());
    assert!(parse_dcl("x: text-input = \"a\"b\"").is_err());
    assert!(parse_dcl("x: radio = []").is_err());
    assert!(parse_dcl("x: radio = [\"a\", b]").is_err());
    assert!(parse_dcl("x: paragraph = () => 1").is_err());
    assert!(parse_dcl("x: paragraph = (a) =>   ").is_err());
    assert!(parse_dcl("x: paragraph = (a-b) => 1").is_err());
    assert!(parse_dcl("x: paragraph = (a) -> a").is_err());
    assert!(parse_dcl("x-y: paragraph = \"a\"").is_err());
    assert!(parse_dcl("x paragraph = \"a\"").is_err());
    assert!(parse_dcl("x: paragraph \"a\"").is_err());
}

#[test]
fn blank_lines_and_spacing_are_ignored() {
    let src = "\n  \t\r\n  x :  text-input  =  \"v w\"  \r\n\n y:paragraph=( a ,b )=>  a*b \n";
    let program = parse_dcl(src).unwrap();
    assert_eq!(program.statements.len(), 2);
    let first = &program.statements[0];
    assert_eq!(first.variable, "x");
    assert_eq!(first.component_kind, ComponentKind::TextInput);
    assert!(matches!(&first.value, Value::Const { value } if value == "v w"));
    let second = &program.statements[1];
    assert_eq!(second.variable, "y");
    assert_eq!(second.component_kind, ComponentKind::Paragraph);
    match &second.value {
        Value::Fn { variables, body } => {
            assert_eq!(variables, &vec![s("a"), s("b")]);
            assert_eq!(body, "a*b");
        }
        _ => panic!("expected a function value"),
    }
}

#[test]
fn empty_document_has_no_statements() {
    assert_eq!(parse_dcl("").unwrap().statements.len(), 0);
    assert_eq!(parse_dcl("\n \n").unwrap().statements.len(), 0);
    assert_eq!(dcl_to_html(""), Ok(String::new()));
}

#[test]
fn options_parse_in_order() {
    let program = parse_dcl("c: radio = [ \"b\" , \"a\",\"c d\" ]").unwrap();
    match &program.statements[0].value {
        Value::Options { values } => assert_eq!(values, &vec![s("b"), s("a"), s("c d")]),
        _ => panic!("expected options"),
    }
    assert_eq!(program.statements[0].component_kind, ComponentKind::Radio);
}

#[test]
fn text_area_kind_parses() {
    let program = parse_dcl("t: text-area = \"x\"").unwrap();
    assert_eq!(program.statements[0].component_kind, ComponentKind::TextArea);
    let dom = program.to_dom();
    assert_eq!(dom.to_raw_html(), "<textarea id=\"t\"  value=\"x\" ></textarea>");
}

#[test]
fn whole_document_to_html() {
    let html = dcl_to_html("n: text-input = \"5\"\nm: paragraph = (n) => n * 2").unwrap();
    let expected = String::new()
        + "<input type=\"text\"  id=\"n\"  value=\"5\" ></input>"
        + "<script>\n    document.getElementById(\"n\").addEventListener('input', function(event) {\n    document.getElementById(\"m\").innerHTML = document.getElementById(\"n\").value * 2\n});\n</script>"
        + "<p id=\"m\" ></p>";
    assert_eq!(html, expected);
}

#[test]
fn substitution_replaces_every_occurrence() {
    let program = parse_dcl("r: text-area = (w) => w + w").unwrap();
    let dom = program.to_dom();
    let listener = script_text(&dom.0[0]);
    assert!(listener.contains(
        "document.getElementById(\"r\").value = document.getElementById(\"w\").value + document.getElementById(\"w\").value\n"
    ));
}
