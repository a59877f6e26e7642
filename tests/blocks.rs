use devy::block::{code_block_head, count_lines, plain_code_nodes, push_decimal};
use devy::Dom;

fn kinds(k: &[&str]) -> Vec<String> {
    k.iter().map(|x| x.to_string()).collect()
}

fn html(nodes: Vec<devy::DomElement>) -> String {
    Dom(nodes).to_raw_html()
}

#[test]
fn head_holds_escaped_code() {
    let nodes = code_block_head("b1", &kinds(&["rust"]), "say \"x\"");
    assert_eq!(
        html(nodes),
        "<input type=\"hidden\"  id=\"b1\"  value=\"say &quot;x&quot;\" ></input>"
    );
}

#[test]
fn head_adds_copy_button_when_asked() {
    let nodes = code_block_head("b2", &kinds(&["rust", "copy"]), "x");
    assert_eq!(nodes.len(), 2);
    assert_eq!(
        html(nodes),
        "<input type=\"hidden\"  id=\"b2\"  value=\"x\" ></input><button onclick=\"navigator.clipboard.writeText(document.getElementById('b2').value);\" >Copy</button>"
    );
}

#[test]
fn plain_block_is_trimmed_and_escaped() {
    let nodes = plain_code_nodes("c", &kinds(&["html"]), "  \n<b>x</b>\n\n");
    assert_eq!(
        html(nodes),
        "<pre><code class=\"language-html\"  name=\"c\" >&lt;b&gt;x&lt;/b&gt;</code></pre>"
    );
}

#[test]
fn plain_block_without_language() {
    let nodes = plain_code_nodes("c", &kinds(&[]), "a");
    assert_eq!(html(nodes), "<pre><code class=\"language-\"  name=\"c\" >a</code></pre>");
}

#[test]
fn script_block_runs_and_hides() {
    let nodes = plain_code_nodes("s", &kinds(&["js", "script"]), "go()");
    assert_eq!(html(nodes), "<script>go()</script>");
}

#[test]
fn script_block_marked_show_runs_and_shows() {
    let nodes = plain_code_nodes("s", &kinds(&["javascript", "script", "show"]), "go()");
    assert_eq!(
        html(nodes),
        "<script>go()</script><pre><code class=\"language-javascript\"  name=\"s\" >go()</code></pre>"
    );
}

#[test]
fn script_in_other_language_is_not_run() {
    let nodes = plain_code_nodes("s", &kinds(&["python", "script"]), "go()");
    assert!(nodes.is_empty());
}

#[test]
fn line_numbers_beside_code() {
    let nodes = plain_code_nodes("n", &kinds(&["txt", "linenumbers"]), "a\nb\n");
    assert_eq!(
        html(nodes),
        "<div style=\"display: flex; flex-direction: row;\" ><pre class=\"line-numbers\" ><code><span>1</span>\n<span>2</span></code></pre><pre style=\"flex:1\" ><code class=\"language-txt\"  name=\"n\" >a\nb</code></pre></div>"
    );
}

#[test]
fn line_numbers_past_nine() {
    let code = (1..=12).map(|i| format!("l{}", i)).collect::<Vec<_>>().join("\n");
    let out = html(plain_code_nodes("n", &kinds(&["txt", "linenumbers"]), &code));
    assert!(out.contains("<span>9</span>\n<span>10</span>\n<span>11</span>\n<span>12</span></code>"));
    assert!(!out.contains("<span>13</span>"));
}

#[test]
fn counts_lines_like_std() {
    for text in ["", "a", "a\n", "a\nb", "a\n\nb\n", "\n", "\n\n", "x\r\ny"] {
        assert_eq!(count_lines(text), text.lines().count(), "{:?}", text);
    }
}

#[test]
fn writes_decimal_numbers() {
    for n in [0usize, 7, 10, 42, 1000, 98765] {
        let mut s = String::from("#");
        push_decimal(&mut s, n);
        assert_eq!(s, format!("#{}", n));
    }
}
