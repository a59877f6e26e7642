use devy::text::{replace_all_exec, same_text, split_trim, trim_range};
use devy::{Dom, DomElement};

#[test]
fn replace_matches_std() {
    let cases = [
        ("a + b", "a", "X"),
        ("aaa", "aa", "b"),
        ("abc", "", "-"),
        ("", "", "-"),
        ("", "x", "y"),
        ("xyz", "xyzw", "q"),
        ("say \"hi\"", "\"", "&quot;"),
    ];
    for (s, pat, rep) in cases {
        assert_eq!(replace_all_exec(s, pat, rep), s.replace(pat, rep), "{:?}", (s, pat, rep));
    }
}

#[test]
fn split_and_trim_pieces() {
    let s = "( a , b ,, c\t)";
    let pieces = split_trim(s, 1, s.chars().count() - 1, ',');
    assert_eq!(pieces, vec!["a", "b", "", "c"]);
    assert_eq!(split_trim("", 0, 0, ','), vec![""]);
}

#[test]
fn trim_bounds() {
    assert_eq!(trim_range("  ab c \t", 0, 8), (2, 6));
    assert_eq!(trim_range("   ", 0, 3), (3, 3));
    assert_eq!(trim_range("xy", 1, 1), (1, 1));
}

#[test]
fn same_text_compares_characters() {
    assert!(same_text("copy", "copy"));
    assert!(!same_text("copy", "cop"));
    assert!(!same_text("copy", "copz"));
    assert!(same_text("", ""));
}

#[test]
fn deep_copy_keeps_structure() {
    let tree = Dom(vec![DomElement::Element {
        tag: "a".to_string(),
        attributes: vec![("href".to_string(), "#x".to_string())],
        children: Dom(vec![DomElement::Text("t".to_string())]),
    }]);
    let copy = tree.deep_copy();
    assert_eq!(copy.to_raw_html(), tree.to_raw_html());
    assert_eq!(copy.to_raw_html(), "<a href=\"#x\" >t</a>");
}
