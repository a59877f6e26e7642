//! The markup tree: text nodes and tagged elements with ordered attributes and
//! children, and its serialization to markup text.
use vstd::prelude::*;
use vstd::string::*;
use crate::text::same_text;

verus! {

broadcast use vstd::std_specs::vec::group_vec_axioms, vstd::seq::group_seq_axioms;

/// A sequence of markup nodes.
#[derive(Debug)]
pub struct Dom(pub Vec<DomElement>);

/// One markup node: a run of text or a tagged element.
#[derive(Debug)]
pub enum DomElement {
    Text(String),
    Element { tag: String, attributes: Vec<(String, String)>, children: Dom },
}

/// The abstract value of a markup node.
pub enum Node {
    Text(Seq<char>),
    Element { tag: Seq<char>, attributes: Seq<(Seq<char>, Seq<char>)>, children: Seq<Node> },
}

/// The abstract value of a list of attribute pairs.
pub open spec fn attrs_view(a: Seq<(String, String)>) -> Seq<(Seq<char>, Seq<char>)> {
    a.map_values(|p: (String, String)| (p.0@, p.1@))
}

/// The abstract value of a markup node.
pub open spec fn node_view(e: DomElement) -> Node
    decreases e,
{
    match e {
        DomElement::Text(t) => Node::Text(t@),
        DomElement::Element { tag, attributes, children } => Node::Element {
            tag: tag@,
            attributes: attrs_view(attributes@),
            children: nodes_view(children.0@),
        },
    }
}

/// The abstract value of a sequence of markup nodes.
pub open spec fn nodes_view(s: Seq<DomElement>) -> Seq<Node>
    decreases s,
{
    if s.len() == 0 {
        Seq::empty()
    } else {
        nodes_view(s.drop_last()).push(node_view(s.last()))
    }
}

impl View for DomElement {
    type V = Node;

    open spec fn view(&self) -> Node {
        node_view(*self)
    }
}

impl View for Dom {
    type V = Seq<Node>;

    open spec fn view(&self) -> Seq<Node> {
        nodes_view(self.0@)
    }
}

/// The markup text of one attribute: ` key="value" `.
pub open spec fn attr_html(k: Seq<char>, v: Seq<char>) -> Seq<char> {
    " "@ + k + "=\""@ + v + "\" "@
}

/// The markup text of an attribute list, in order.
pub open spec fn attrs_html(a: Seq<(Seq<char>, Seq<char>)>) -> Seq<char>
    decreases a.len(),
{
    if a.len() == 0 {
        Seq::empty()
    } else {
        attrs_html(a.drop_last()) + attr_html(a.last().0, a.last().1)
    }
}

/// The markup text of a node: text verbatim; an element as its opening tag with
/// its attributes, its children, and its closing tag.
pub open spec fn html(n: Node) -> Seq<char>
    decreases n,
{
    match n {
        Node::Text(t) => t,
        Node::Element { tag, attributes, children } => "<"@ + tag + attrs_html(attributes) + ">"@
            + html_seq(children) + "</"@ + tag + ">"@,
    }
}

/// The markup text of a sequence of nodes, one after the other.
pub open spec fn html_seq(ns: Seq<Node>) -> Seq<char>
    decreases ns,
{
    if ns.len() == 0 {
        Seq::empty()
    } else {
        html_seq(ns.drop_last()) + html(ns.last())
    }
}

proof fn lemma_nodes_view_len(s: Seq<DomElement>)
    ensures
        nodes_view(s).len() == s.len(),
        forall|i: int| 0 <= i < s.len() ==> #[trigger] nodes_view(s)[i] == node_view(s[i]),
    decreases s.len(),
{
    if s.len() > 0 {
        lemma_nodes_view_len(s.drop_last());
    }
}

/// The pair `p` with its value replaced by `v` where its key is `k`.
pub open spec fn set_if_key(p: (Seq<char>, Seq<char>), k: Seq<char>, v: Seq<char>) -> (Seq<char>, Seq<char>) {
    if p.0 == k {
        (p.0, v)
    } else {
        p
    }
}

/// `a` with `set_if_key` applied to every pair.
pub open spec fn set_all(a: Seq<(Seq<char>, Seq<char>)>, k: Seq<char>, v: Seq<char>) -> Seq<
    (Seq<char>, Seq<char>),
> {
    a.map_values(|p: (Seq<char>, Seq<char>)| set_if_key(p, k, v))
}

/// `a` with the value of every pair keyed `k` set to `v`, or with `(k, v)`
/// appended where no pair has that key.
pub open spec fn upsert(a: Seq<(Seq<char>, Seq<char>)>, k: Seq<char>, v: Seq<char>) -> Seq<
    (Seq<char>, Seq<char>),
> {
    if exists|i: int| 0 <= i < a.len() && a[i].0 == k {
        set_all(a, k, v)
    } else {
        a.push((k, v))
    }
}

/// An element with no attributes whose single child is the text `body`.
pub open spec fn script_node(body: Seq<char>) -> Node {
    Node::Element { tag: "script"@, attributes: Seq::empty(), children: seq![Node::Text(body)] }
}

/// The script that copies the value of the element with id `id` to the clipboard.
pub open spec fn copy_script(id: Seq<char>) -> Seq<char> {
    "navigator.clipboard.writeText(document.getElementById('"@ + id + "').value);"@
}

/// A button labelled `Copy` that copies the value of element `id`.
pub open spec fn copy_button_node(id: Seq<char>) -> Node {
    Node::Element {
        tag: "button"@,
        attributes: seq![("onclick"@, copy_script(id))],
        children: seq![Node::Text("Copy"@)],
    }
}

/// A new string with the characters of `s`.
pub(crate) fn owned(s: &str) -> (r: String)
    ensures
        r@ == s@,
{
    s.to_owned()
}

/// A one-element list of nodes holding the text `t`.
pub(crate) fn text_only(t: String) -> (r: Dom)
    ensures
        r@ == seq![Node::Text(t@)],
{
    let mut v: Vec<DomElement> = Vec::new();
    v.push(DomElement::Text(t));
    proof {
        assert(v@.drop_last() =~= Seq::<DomElement>::empty());
    }
    let r = Dom(v);
    proof {
        assert(v@.len() == 1);
        assert(v@.last() == DomElement::Text(t));
        assert(node_view(DomElement::Text(t)) == Node::Text(t@));
        assert(nodes_view(v@.drop_last()) == Seq::<Node>::empty());
        assert(nodes_view(v@) == Seq::<Node>::empty().push(Node::Text(t@)));
        assert(r@ =~= seq![Node::Text(t@)]);
    }
    r
}

/// An element with the given parts.
pub(crate) fn element(tag: &str, attributes: Vec<(String, String)>, children: Dom) -> (r:
    DomElement)
    ensures
        r@ == (Node::Element {
            tag: tag@,
            attributes: attrs_view(attributes@),
            children: children@,
        }),
{
    DomElement::Element { tag: owned(tag), attributes, children }
}

/// Makes a button whose click copies the value of the element `id` to the
/// clipboard.
pub fn copy_button(id: &str) -> (r: DomElement)
    ensures
        r@ == copy_button_node(id@),
{
    let mut onclick = owned("navigator.clipboard.writeText(document.getElementById('");
    onclick.append(id);
    onclick.append("').value);");
    let mut attributes: Vec<(String, String)> = Vec::new();
    attributes.push((owned("onclick"), onclick));
    let r = element("button", attributes, text_only(owned("Copy")));
    assert(attrs_view(attributes@) =~= seq![("onclick"@, copy_script(id@))]);
    r
}

impl Dom {
    /// A copy of the nodes, structure and text alike.
    pub fn deep_copy(&self) -> (r: Dom)
        ensures
            r@ == self@,
        decreases self,
    {
        let mut v: Vec<DomElement> = Vec::new();
        let n = self.0.len();
        let mut i: usize = 0;
        proof {
            lemma_nodes_view_len(self.0@);
        }
        while i < n
            invariant
                n == self.0@.len(),
                i <= n,
                nodes_view(self.0@).len() == n,
                forall|j: int| 0 <= j < n ==> #[trigger] nodes_view(self.0@)[j] == node_view(self.0@[j]),
                nodes_view(v@) == nodes_view(self.0@).subrange(0, i as int),
            decreases n - i,
        {
            let element = &self.0[i];
            assert(decreases_to!(self => *element));
            let c = element.deep_copy();
            let ghost prev = v@;
            v.push(c);
            proof {
                assert(v@.drop_last() =~= prev);
                assert(nodes_view(self.0@).subrange(0, i + 1) =~= nodes_view(self.0@).subrange(
                    0,
                    i as int,
                ).push(node_view(self.0@[i as int])));
            }
            i = i + 1;
        }
        proof {
            assert(nodes_view(self.0@).subrange(0, n as int) =~= nodes_view(self.0@));
        }
        Dom(v)
    }
}

impl DomElement {
    /// A copy of the node, structure and text alike.
    pub fn deep_copy(&self) -> (r: DomElement)
        ensures
            r@ == self@,
        decreases self,
    {
        match self {
            DomElement::Text(t) => DomElement::Text(t.clone()),
            DomElement::Element { tag, attributes, children } => {
                let mut a: Vec<(String, String)> = Vec::new();
                let m = attributes.len();
                let mut j: usize = 0;
                while j < m
                    invariant
                        m == attributes@.len(),
                        j <= m,
                        attrs_view(a@) == attrs_view(attributes@).subrange(0, j as int),
                    decreases m - j,
                {
                    let (k, v) = &attributes[j];
                    let ghost prev = a@;
                    a.push((k.clone(), v.clone()));
                    proof {
                        assert(attrs_view(a@) =~= attrs_view(prev).push((k@, v@)));
                        assert(attrs_view(attributes@).subrange(0, j + 1) =~= attrs_view(
                            attributes@,
                        ).subrange(0, j as int).push((k@, v@)));
                    }
                    j = j + 1;
                }
                assert(decreases_to!(self => *children));
                let c = children.deep_copy();
                proof {
                    assert(attrs_view(attributes@).subrange(0, m as int) =~= attrs_view(
                        attributes@,
                    ));
                }
                DomElement::Element { tag: tag.clone(), attributes: a, children: c }
            },
        }
    }

    /// A script element whose body is `body`.
    pub fn script(body: &str) -> (r: Self)
        ensures
            r@ == script_node(body@),
    {
        let attributes: Vec<(String, String)> = Vec::new();
        let r = element("script", attributes, text_only(owned(body)));
        assert(attrs_view(attributes@) =~= Seq::empty());
        r
    }

    /// The same element with attribute `key` set to `value`: every pair with
    /// that key gets the new value, and where there is none the pair is
    /// appended. The children are kept.
    pub fn with_attr(&self, key: &str, value: &str) -> (r: Self)
        requires
            self is Element,
        ensures
            r@ == (Node::Element {
                tag: self@->Element_tag,
                attributes: upsert(self@->Element_attributes, key@, value@),
                children: self@->Element_children,
            }),
    {
        match self {
            DomElement::Text(_) => {
                proof {
                    assert(false);
                }
                self.deep_copy()
            },
            DomElement::Element { tag, attributes, children } => {
                let ghost old_attrs = attrs_view(attributes@);
                let mut a: Vec<(String, String)> = Vec::new();
                let mut found = false;
                let m = attributes.len();
                let mut j: usize = 0;
                while j < m
                    invariant
                        m == attributes@.len(),
                        old_attrs == attrs_view(attributes@),
                        j <= m,
                        attrs_view(a@) == set_all(old_attrs.subrange(0, j as int), key@, value@),
                        found == exists|i: int| 0 <= i < j && old_attrs[i].0 == key@,
                    decreases m - j,
                {
                    let (k, v) = &attributes[j];
                    let ghost prev = a@;
                    let same = same_text(k.as_str(), key);
                    if same {
                        a.push((k.clone(), owned(value)));
                        found = true;
                    } else {
                        a.push((k.clone(), v.clone()));
                    }
                    proof {
                        assert(old_attrs[j as int] == (k@, v@));
                        let x = set_if_key(old_attrs[j as int], key@, value@);
                        assert(attrs_view(a@) =~= attrs_view(prev).push(x));
                        assert(set_all(old_attrs.subrange(0, j + 1), key@, value@) =~= set_all(
                            old_attrs.subrange(0, j as int),
                            key@,
                            value@,
                        ).push(x));
                        if !same {
                            assert forall|i: int| 0 <= i < j + 1 && old_attrs[i].0 == key@ implies i
                                < j by {}
                        }
                    }
                    j = j + 1;
                }
                proof {
                    assert(old_attrs.subrange(0, m as int) =~= old_attrs);
                }
                if !found {
                    let ghost prev = a@;
                    a.push((owned(key), owned(value)));
                    proof {
                        assert(set_all(old_attrs, key@, value@) =~= old_attrs);
                        assert(attrs_view(a@) =~= attrs_view(prev).push((key@, value@)));
                    }
                }
                let c = children.deep_copy();
                DomElement::Element { tag: tag.clone(), attributes: a, children: c }
            },
        }
    }
}

impl Dom {
    /// Serializes the nodes to markup text, depth first. Text is copied
    /// verbatim and attribute values are quoted without escaping.
    pub fn to_raw_html(&self) -> (r: String)
        ensures
            r@ == html_seq(self@),
        decreases self,
    {
        let mut out = String::new();
        let n = self.0.len();
        let mut i: usize = 0;
        proof {
            lemma_nodes_view_len(self.0@);
        }
        while i < n
            invariant
                n == self.0@.len(),
                i <= n,
                nodes_view(self.0@).len() == n,
                forall|j: int| 0 <= j < n ==> #[trigger] nodes_view(self.0@)[j] == node_view(self.0@[j]),
                out@ == html_seq(nodes_view(self.0@).subrange(0, i as int)),
            decreases n - i,
        {
            let element = &self.0[i];
            let ghost before = out@;
            match element {
                DomElement::Text(text) => {
                    out.append(text.as_str());
                },
                DomElement::Element { tag, attributes, children } => {
                    out.append("<");
                    out.append(tag.as_str());
                    let m = attributes.len();
                    let mut j: usize = 0;
                    while j < m
                        invariant
                            m == attributes@.len(),
                            j <= m,
                            out@ == before + "<"@ + tag@ + attrs_html(
                                attrs_view(attributes@).subrange(0, j as int),
                            ),
                        decreases m - j,
                    {
                        let (key, value) = &attributes[j];
                        out.append(" ");
                        out.append(key.as_str());
                        out.append("=\"");
                        out.append(value.as_str());
                        out.append("\" ");
                        proof {
                            assert(attrs_view(attributes@).subrange(0, j + 1).drop_last()
                                =~= attrs_view(attributes@).subrange(0, j as int));
                        }
                        j = j + 1;
                    }
                    out.append(">");
                    assert(decreases_to!(self => children));
                    let inner = children.to_raw_html();
                    out.append(inner.as_str());
                    out.append("</");
                    out.append(tag.as_str());
                    out.append(">");
                    proof {
                        assert(attrs_view(attributes@).subrange(0, m as int) =~= attrs_view(
                            attributes@,
                        ));
                        assert(out@ =~= before + html(node_view(*element)));
                    }
                },
            }
            proof {
                assert(out@ =~= before + html(node_view(self.0@[i as int])));
                assert(nodes_view(self.0@).subrange(0, i + 1).drop_last() =~= nodes_view(
                    self.0@,
                ).subrange(0, i as int));
            }
            i = i + 1;
        }
        proof {
            assert(nodes_view(self.0@).subrange(0, n as int) =~= nodes_view(self.0@));
        }
        out
    }
}

/// No character of `s` is `c`.
pub open spec fn lacks(s: Seq<char>, c: char) -> bool {
    forall|i: int| 0 <= i < s.len() ==> s[i] != c
}

/// Attribute pairs whose markup text can be read back: keys hold no space or
/// double quote, values hold no double quote.
pub open spec fn readable_attrs(a: Seq<(Seq<char>, Seq<char>)>) -> bool {
    forall|i: int|
        0 <= i < a.len() ==> lacks(#[trigger] a[i].0, ' ') && lacks(a[i].0, '"') && lacks(
            a[i].1,
            '"',
        )
}

proof fn lemma_attr_shape(x: Seq<char>, k: Seq<char>, v: Seq<char>)
    ensures
        ({
            let t = x + attr_html(k, v);
            let n = t.len() as int;
            &&& n == x.len() + k.len() + v.len() + 5
            &&& t[n - 1] == ' '
            &&& t[n - 2] == '"'
            &&& forall|j: int| 0 <= j < v.len() ==> t[n - 2 - v.len() + j] == v[j]
            &&& t[n - 3 - v.len()] == '"'
            &&& t[n - 4 - v.len()] == '='
            &&& forall|j: int| 0 <= j < k.len() ==> t[n - 4 - v.len() - k.len() + j] == k[j]
            &&& t[n - 5 - v.len() - k.len()] == ' '
            &&& t.subrange(0, x.len() as int) == x
        }),
{
    reveal_strlit(" ");
    reveal_strlit("=\"");
    reveal_strlit("\" ");
    let t = x + attr_html(k, v);
    assert(attr_html(k, v) =~= seq![' '] + k + seq!['=', '"'] + v + seq!['"', ' ']);
    assert(t.subrange(0, x.len() as int) =~= x);
}

/// The markup text of one attribute at the end of a text fixes the attribute
/// and the text before it.
proof fn lemma_last_attr_unique(
    x1: Seq<char>,
    k1: Seq<char>,
    v1: Seq<char>,
    x2: Seq<char>,
    k2: Seq<char>,
    v2: Seq<char>,
)
    requires
        x1 + attr_html(k1, v1) == x2 + attr_html(k2, v2),
        lacks(k1, ' '),
        lacks(k2, ' '),
        lacks(v1, '"'),
        lacks(v2, '"'),
    ensures
        k1 == k2,
        v1 == v2,
        x1 == x2,
{
    let t = x1 + attr_html(k1, v1);
    let n = t.len() as int;
    lemma_attr_shape(x1, k1, v1);
    lemma_attr_shape(x2, k2, v2);
    if v1.len() < v2.len() {
        let j = v2.len() - v1.len() - 1;
        assert(t[n - 2 - v2.len() + j] == v2[j]);
        assert(false);
    }
    if v2.len() < v1.len() {
        let j = v1.len() - v2.len() - 1;
        assert(t[n - 2 - v1.len() + j] == v1[j]);
        assert(false);
    }
    assert forall|j: int| 0 <= j < v1.len() implies v1[j] == v2[j] by {
        assert(t[n - 2 - v1.len() + j] == v1[j]);
        assert(t[n - 2 - v2.len() + j] == v2[j]);
    }
    assert(v1 =~= v2);
    let m = n - 4 - v1.len();
    if k1.len() < k2.len() {
        let j = k2.len() - k1.len() - 1;
        assert(t[m - k2.len() + j] == k2[j]);
        assert(false);
    }
    if k2.len() < k1.len() {
        let j = k1.len() - k2.len() - 1;
        assert(t[m - k1.len() + j] == k1[j]);
        assert(false);
    }
    assert forall|j: int| 0 <= j < k1.len() implies k1[j] == k2[j] by {
        assert(t[m - k1.len() + j] == k1[j]);
        assert(t[m - k2.len() + j] == k2[j]);
    }
    assert(k1 =~= k2);
}

/// Round trip: the markup text of a readable attribute list determines the
/// list, so reading the pairs back from the serialized text recovers every key
/// and value exactly.
pub proof fn lemma_attrs_recoverable(a1: Seq<(Seq<char>, Seq<char>)>, a2: Seq<(Seq<char>, Seq<char>)>)
    requires
        readable_attrs(a1),
        readable_attrs(a2),
        attrs_html(a1) == attrs_html(a2),
    ensures
        a1 == a2,
    decreases a1.len(),
{
    if a1.len() == 0 && a2.len() == 0 {
        assert(a1 =~= a2);
    } else if a1.len() == 0 {
        lemma_attr_shape(attrs_html(a2.drop_last()), a2.last().0, a2.last().1);
    } else if a2.len() == 0 {
        lemma_attr_shape(attrs_html(a1.drop_last()), a1.last().0, a1.last().1);
    } else {
        assert(readable_attrs(a1.drop_last()));
        assert(readable_attrs(a2.drop_last()));
        assert(lacks(a1[a1.len() - 1].0, ' '));
        assert(lacks(a2[a2.len() - 1].0, ' '));
        lemma_last_attr_unique(
            attrs_html(a1.drop_last()),
            a1.last().0,
            a1.last().1,
            attrs_html(a2.drop_last()),
            a2.last().0,
            a2.last().1,
        );
        lemma_attrs_recoverable(a1.drop_last(), a2.drop_last());
        assert(a1 =~= a2.drop_last().push(a2.last()));
        assert(a2 =~= a2.drop_last().push(a2.last()));
    }
}

/// Round trip on elements: two elements with the same tag and no children that
/// serialize to the same text carry the same attributes.
pub proof fn lemma_element_attrs_recoverable(
    tag: Seq<char>,
    a1: Seq<(Seq<char>, Seq<char>)>,
    a2: Seq<(Seq<char>, Seq<char>)>,
)
    requires
        readable_attrs(a1),
        readable_attrs(a2),
        html(Node::Element { tag, attributes: a1, children: Seq::empty() }) == html(
            Node::Element { tag, attributes: a2, children: Seq::empty() },
        ),
    ensures
        a1 == a2,
{
    let t1 = html(Node::Element { tag, attributes: a1, children: Seq::empty() });
    let t2 = html(Node::Element { tag, attributes: a2, children: Seq::empty() });
    let tail = ">"@ + html_seq(Seq::<Node>::empty()) + "</"@ + tag + ">"@;
    let head = "<"@ + tag;
    assert(t1 =~= head + attrs_html(a1) + tail);
    assert(t2 =~= head + attrs_html(a2) + tail);
    assert(attrs_html(a1) =~= t1.subrange(head.len() as int, t1.len() - tail.len()));
    assert(attrs_html(a2) =~= t2.subrange(head.len() as int, t2.len() - tail.len()));
    lemma_attrs_recoverable(a1, a2);
}

} // verus!
