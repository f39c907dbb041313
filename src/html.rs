//! HTML text and document trees: rendering a tree with html5ever's
//! serializer, and parsing HTML with html5ever into a tree.
use vstd::prelude::*;
use std::rc::Rc;
use html5ever::serialize::{HtmlSerializer, SerializeOpts, Serializer, TraversalScope};
use html5ever::tendril::TendrilSink;
use html5ever::{LocalName, Namespace, QualName};
use markup5ever_rcdom::{Node as DomNode, NodeData, RcDom};
use crate::node::{Attr, Node, children_of, name_is};
use crate::builder::{element, is_clipboard_document};
use crate::header::{is_framed, preamble, postamble};
use vstd::utf8::{encode_utf8, is_ascii_chars, is_ascii_chars_encode_utf8};

verus! {

/// How html5ever's serializer writes one character: `&` and U+00A0 always
/// escaped, `"` in attribute values, `<` and `>` in text.
pub open spec fn escaped_char(c: char, in_attr: bool) -> Seq<char> {
    if c == '&' {
        seq!['&', 'a', 'm', 'p', ';']
    } else if c == '\u{00A0}' {
        seq!['&', 'n', 'b', 's', 'p', ';']
    } else if in_attr && c == '"' {
        seq!['&', 'q', 'u', 'o', 't', ';']
    } else if !in_attr && c == '<' {
        seq!['&', 'l', 't', ';']
    } else if !in_attr && c == '>' {
        seq!['&', 'g', 't', ';']
    } else {
        seq![c]
    }
}

/// `s` with each character written as `escaped_char` writes it.
pub open spec fn escaped(s: Seq<char>, in_attr: bool) -> Seq<char>
    decreases s.len(),
{
    if s.len() == 0 {
        Seq::empty()
    } else {
        escaped(s.drop_last(), in_attr) + escaped_char(s.last(), in_attr)
    }
}

/// ` name="value"` for each attribute, values escaped.
pub open spec fn attrs_html(attrs: Seq<(Seq<char>, Seq<char>)>) -> Seq<char>
    decreases attrs.len(),
{
    if attrs.len() == 0 {
        Seq::empty()
    } else {
        let (k, v) = attrs.last();
        attrs_html(attrs.drop_last()) + seq![' '] + k + seq!['=', '"'] + escaped(v, true)
            + seq!['"']
    }
}

/// The start tag that html5ever's serializer writes for an HTML element.
pub open spec fn start_tag_html(name: Seq<char>, attrs: Seq<(Seq<char>, Seq<char>)>) -> Seq<
    char,
> {
    seq!['<'] + name + attrs_html(attrs) + seq!['>']
}

/// The HTML elements that html5ever's serializer writes without an end tag.
pub open spec fn is_void(name: Seq<char>) -> bool {
    name == "area"@ || name == "base"@ || name == "basefont"@ || name == "bgsound"@ || name
        == "br"@ || name == "col"@ || name == "embed"@ || name == "frame"@ || name == "hr"@
        || name == "img"@ || name == "input"@ || name == "keygen"@ || name == "link"@ || name
        == "meta"@ || name == "param"@ || name == "source"@ || name == "track"@ || name
        == "wbr"@
}

/// What html5ever's serializer writes to close an HTML element: nothing for
/// a void element, else `</name>`.
pub open spec fn end_tag_html(name: Seq<char>) -> Seq<char> {
    if is_void(name) {
        Seq::empty()
    } else {
        seq!['<', '/'] + name + seq!['>']
    }
}

/// The HTML elements whose text html5ever's serializer writes unescaped
/// (with scripting enabled, its default).
pub open spec fn holds_raw_text(name: Seq<char>) -> bool {
    name == "style"@ || name == "script"@ || name == "xmp"@ || name == "iframe"@ || name
        == "noembed"@ || name == "noframes"@ || name == "plaintext"@ || name == "noscript"@
}

/// What html5ever's serializer writes for a text node inside an element
/// named `parent`: the text as it is where `parent` holds raw text, else
/// escaped.
pub open spec fn text_html(parent: Seq<char>, text: Seq<char>) -> Seq<char> {
    if holds_raw_text(parent) {
        text
    } else {
        escaped(text, false)
    }
}

pub open spec fn attr_pairs(attrs: Seq<Attr>) -> Seq<(Seq<char>, Seq<char>)> {
    attrs.map_values(|a: Attr| (a.name@, a.value@))
}

pub open spec fn name_of(n: Node) -> Seq<char> {
    match n {
        Node::Element { name, .. } => name@,
        _ => Seq::empty(),
    }
}

pub open spec fn comment_html(text: Seq<char>) -> Seq<char> {
    "<!--"@ + text + "-->"@
}

/// The children of `n` from index `i` on, rendered.
pub open spec fn rendered_from(n: Node, i: int) -> Seq<char>
    decreases n, children_of(n).len() - i,
{
    if 0 <= i < children_of(n).len() {
        let c = children_of(n)[i];
        let head = match c {
            Node::Element { name, attrs, .. } => start_tag_html(name@, attr_pairs(attrs@))
                + rendered_from(c, 0) + end_tag_html(name@),
            Node::Text(s) => text_html(name_of(n), s@),
            Node::Comment(s) => comment_html(s@),
        };
        head + rendered_from(n, i + 1)
    } else {
        Seq::empty()
    }
}

/// `n` rendered as HTML; a document (`#document`) as its children.
pub open spec fn rendered(n: Node) -> Seq<char> {
    match n {
        Node::Element { name, attrs, .. } => if name@ == "#document"@ {
            rendered_from(n, 0)
        } else {
            start_tag_html(name@, attr_pairs(attrs@)) + rendered_from(n, 0) + end_tag_html(
                name@,
            )
        },
        Node::Text(s) => text_html(Seq::empty(), s@),
        Node::Comment(s) => comment_html(s@),
    }
}

/// Relies on html5ever's `HtmlSerializer::start_elem` (serialize/mod.rs): `<`,
/// the name, ` name="value"` for each attribute with the value escaped, `>`.
#[verifier::external_body]
fn start_tag(name: &str, attrs: &Vec<Attr>) -> (r: String)
    ensures
        r@ == start_tag_html(name@, attr_pairs(attrs@)),
{
    let names: Vec<QualName> = attrs.iter().map(
        |a| QualName::new(None, Namespace::from(""), LocalName::from(a.name.as_str())),
    ).collect();
    let values = attrs.iter().map(|a| a.value.as_str());
    let html = Namespace::from("http://www.w3.org/1999/xhtml");
    let mut ser = HtmlSerializer::new(Vec::new(), SerializeOpts::default());
    ser.start_elem(QualName::new(None, html, LocalName::from(name)), names.iter().zip(values))
        .unwrap();
    String::from_utf8(ser.writer).unwrap()
}

/// Relies on html5ever's `HtmlSerializer::end_elem`, for an element that its
/// `start_elem` opened (the start tag is cleared in between): `</name>`, or
/// nothing for a void element.
#[verifier::external_body]
fn end_tag(name: &str) -> (r: String)
    ensures
        r@ == end_tag_html(name@),
{
    let html = Namespace::from("http://www.w3.org/1999/xhtml");
    let name = QualName::new(None, html, LocalName::from(name));
    let mut ser = HtmlSerializer::new(Vec::new(), SerializeOpts::default());
    ser.start_elem(name.clone(), std::iter::empty()).unwrap();
    ser.writer.clear();
    ser.end_elem(name).unwrap();
    String::from_utf8(ser.writer).unwrap()
}

/// Relies on html5ever's `HtmlSerializer::write_text`, inside an element
/// named `parent` (set as the traversal scope): the text, escaped unless that
/// element holds raw text.
#[verifier::external_body]
fn text_for(parent: &str, text: &str) -> (r: String)
    ensures
        r@ == text_html(parent@, text@),
{
    let html = Namespace::from("http://www.w3.org/1999/xhtml");
    let scope = TraversalScope::ChildrenOnly(Some(QualName::new(None, html, LocalName::from(parent))));
    let opts = SerializeOpts { traversal_scope: scope, ..Default::default() };
    let mut ser = HtmlSerializer::new(Vec::new(), opts);
    ser.write_text(text).unwrap();
    String::from_utf8(ser.writer).unwrap()
}

fn push_comment(text: &String, out: &mut String)
    ensures
        final(out)@ == old(out)@ + comment_html(text@),
{
    out.append("<!--");
    out.append(text.as_str());
    out.append("-->");
    assert(out@ =~= old(out)@ + comment_html(text@));
}

/// Appends the children of `n`, rendered, to `out`.
fn render_children(n: &Node, out: &mut String)
    ensures
        final(out)@ == old(out)@ + rendered_from(*n, 0),
    decreases n,
{
    if let Node::Element { name, children, .. } = n {
        let mut i: usize = 0;
        while i < children.len()
            invariant
                i <= children@.len(),
                children@ == children_of(*n),
                name@ == name_of(*n),
                out@ + rendered_from(*n, i as int) == old(out)@ + rendered_from(*n, 0),
            decreases children@.len() - i,
        {
            let ghost before = out@;
            let c = &children[i];
            match c {
                Node::Element { name: cname, attrs, .. } => {
                    let s = start_tag(cname.as_str(), attrs);
                    out.append(s.as_str());
                    render_children(c, out);
                    let e = end_tag(cname.as_str());
                    out.append(e.as_str());
                },
                Node::Text(s) => {
                    let t = text_for(name.as_str(), s.as_str());
                    out.append(t.as_str());
                },
                Node::Comment(s) => {
                    push_comment(s, out);
                },
            }
            assert(out@ + rendered_from(*n, i + 1) =~= before + rendered_from(*n, i as int));
            i += 1;
        }
    } else {
        assert(out@ =~= old(out)@ + rendered_from(*n, 0));
    }
}

/// `n` rendered as HTML, each tag and text written by html5ever's
/// serializer: void elements get no end tag, and text and attribute values
/// are escaped. A document (`#document`) is written as its children. Unlike a
/// serialization of a whole html5ever tree, children of void elements are
/// written, and every element counts as an HTML one (a `<style>` under
/// `<svg>` holds raw text here).
pub fn render(n: &Node) -> (r: String)
    ensures
        r@ == rendered(*n),
{
    let mut out = String::new();
    match n {
        Node::Element { name, .. } if name_is(name, "#document") => {
            render_children(n, &mut out);
            assert(out@ =~= rendered(*n));
        },
        Node::Element { name, attrs, .. } => {
            let s = start_tag(name.as_str(), attrs);
            out.append(s.as_str());
            render_children(n, &mut out);
            let e = end_tag(name.as_str());
            out.append(e.as_str());
            assert(out@ =~= rendered(*n));
        },
        Node::Text(s) => {
            let t = text_for("", s.as_str());
            proof {
                reveal_strlit("");
                assert(""@ =~= Seq::<char>::empty());
            }
            out.append(t.as_str());
            assert(out@ =~= rendered(*n));
        },
        Node::Comment(s) => {
            push_comment(s, &mut out);
        },
    }
    assert(out@ =~= rendered(*n));
    out
}

/// `s` ends with `t`.
pub open spec fn ends_with(s: Seq<char>, t: Seq<char>) -> bool {
    s.len() >= t.len() && s.subrange(s.len() - t.len(), s.len() as int) == t
}

proof fn lemma_rendered_ends_with_last(n: Node, i: int)
    requires
        0 <= i < children_of(n).len(),
    ensures
        ends_with(rendered_from(n, i), rendered_from(n, children_of(n).len() - 1)),
    decreases children_of(n).len() - i,
{
    let r = rendered_from(n, i);
    if i < children_of(n).len() - 1 {
        lemma_rendered_ends_with_last(n, i + 1);
        let t = rendered_from(n, children_of(n).len() - 1);
        let r1 = rendered_from(n, i + 1);
        assert(r.subrange(r.len() - t.len(), r.len() as int) =~= r1.subrange(
            r1.len() - t.len(),
            r1.len() as int,
        ));
    } else {
        assert(r.subrange(0, r.len() as int) =~= r);
    }
}

proof fn lemma_encode_utf8_concat(a: Seq<char>, b: Seq<char>)
    ensures
        encode_utf8(a + b) == encode_utf8(a) + encode_utf8(b),
    decreases a.len(),
{
    if a.len() == 0 {
        assert(a + b =~= b);
        assert(encode_utf8(a) + encode_utf8(b) =~= encode_utf8(b));
    } else {
        lemma_encode_utf8_concat(a.drop_first(), b);
        assert((a + b).drop_first() =~= a.drop_first() + b);
        assert((a + b)[0] == a[0]);
        assert(encode_utf8(a + b) =~= encode_utf8(a) + encode_utf8(b));
    }
}

/// A rendered clipboard document starts with the fragment preamble and ends
/// with the fragment postamble, so `encode` takes it unless it is too large.
pub proof fn lemma_clipboard_document_framed(doc: Node, contents: Seq<Node>)
    requires
        is_clipboard_document(doc, contents),
    ensures
        is_framed(encode_utf8(rendered(doc))),
{
    reveal_strlit("html");
    reveal_strlit("body");
    reveal_strlit("#document");
    reveal_strlit("<!--");
    reveal_strlit("-->");
    reveal_strlit("StartFragment");
    reveal_strlit("EndFragment");
    reveal_strlit("area");
    reveal_strlit("base");
    reveal_strlit("basefont");
    reveal_strlit("bgsound");
    reveal_strlit("br");
    reveal_strlit("col");
    reveal_strlit("embed");
    reveal_strlit("frame");
    reveal_strlit("hr");
    reveal_strlit("img");
    reveal_strlit("input");
    reveal_strlit("keygen");
    reveal_strlit("link");
    reveal_strlit("meta");
    reveal_strlit("param");
    reveal_strlit("source");
    reveal_strlit("track");
    reveal_strlit("wbr");
    let body = children_of(doc)[0];
    let b = children_of(body);
    let len = b.len() as int;
    assert("area"@.len() == 4 && "area"@[0] == 'a');
    assert("base"@.len() == 4 && "base"@[0] == 'b');
    assert("basefont"@.len() == 8 && "basefont"@[0] == 'b');
    assert("bgsound"@.len() == 7 && "bgsound"@[0] == 'b');
    assert("br"@.len() == 2 && "br"@[0] == 'b');
    assert("col"@.len() == 3 && "col"@[0] == 'c');
    assert("embed"@.len() == 5 && "embed"@[0] == 'e');
    assert("frame"@.len() == 5 && "frame"@[0] == 'f');
    assert("hr"@.len() == 2 && "hr"@[0] == 'h');
    assert("img"@.len() == 3 && "img"@[0] == 'i');
    assert("input"@.len() == 5 && "input"@[0] == 'i');
    assert("keygen"@.len() == 6 && "keygen"@[0] == 'k');
    assert("link"@.len() == 4 && "link"@[0] == 'l');
    assert("meta"@.len() == 4 && "meta"@[0] == 'm');
    assert("param"@.len() == 5 && "param"@[0] == 'p');
    assert("source"@.len() == 6 && "source"@[0] == 's');
    assert("track"@.len() == 5 && "track"@[0] == 't');
    assert("wbr"@.len() == 3 && "wbr"@[0] == 'w');
    assert("html"@.len() == 4 && "html"@[0] == 'h');
    assert("body"@.len() == 4 && "body"@[0] == 'b' && "body"@[1] == 'o');
    assert("base"@[1] == 'a');
    assert(!is_void("html"@));
    assert(!is_void("body"@));
    assert("html"@ != "#document"@);
    if let Node::Element { attrs, .. } = doc {
        assert(attr_pairs(attrs@) =~= Seq::<(Seq<char>, Seq<char>)>::empty());
    }
    if let Node::Element { attrs, .. } = body {
        assert(attr_pairs(attrs@) =~= Seq::<(Seq<char>, Seq<char>)>::empty());
    }
    let start_c = comment_html("StartFragment"@);
    let end_c = comment_html("EndFragment"@);
    assert(rendered_from(body, len) == Seq::<char>::empty());
    assert(rendered_from(body, len - 1) =~= end_c);
    assert(rendered_from(body, 0) == start_c + rendered_from(body, 1));
    lemma_rendered_ends_with_last(body, 1);
    let r1 = rendered_from(body, 1);
    let m = r1.subrange(0, r1.len() - end_c.len());
    assert(r1 =~= m + end_c);
    assert(rendered_from(doc, 1) == Seq::<char>::empty());
    let p = seq!['<'] + "html"@ + seq!['>'] + (seq!['<'] + "body"@ + seq!['>']) + start_c;
    let q = end_c + (seq!['<', '/'] + "body"@ + seq!['>']) + (seq!['<', '/'] + "html"@ + seq![
        '>',
    ]);
    assert(rendered(doc) =~= p + m + q);
    assert(is_ascii_chars(p));
    assert(is_ascii_chars(q));
    is_ascii_chars_encode_utf8(p);
    is_ascii_chars_encode_utf8(q);
    assert(encode_utf8(p) =~= preamble());
    assert(encode_utf8(q) =~= postamble());
    lemma_encode_utf8_concat(p + m, q);
    lemma_encode_utf8_concat(p, m);
    let e = encode_utf8(rendered(doc));
    assert(e == preamble() + encode_utf8(m) + postamble());
    assert(e.subrange(0, 32) =~= preamble());
    assert(e.subrange(e.len() - 32, e.len() as int) =~= postamble());
}

// ---------------------------------------------------------------------------
// Parsing
// ---------------------------------------------------------------------------

/// A node of the tree that html5ever builds, held opaquely.
#[verifier::external_type_specification]
#[verifier::external_body]
pub struct ExDomNode(DomNode);

/// The top-level nodes of the document that html5ever's HTML parser builds
/// from `html` (read as UTF-8, invalid sequences replaced), one node for each
/// parsed node, children in document order: elements by local name with their
/// attributes by local name, text, and comments. A doctype becomes a comment
/// holding its name; a processing instruction (which the HTML parser never
/// makes) becomes a comment holding its data. (A document node, which is
/// never a child, would become an empty comment.)
pub uninterp spec fn parsed_nodes(html: Seq<u8>) -> Seq<Node>;

/// Relies on html5ever's `parse_document` into markup5ever_rcdom's `RcDom`:
/// the children of the document node, each turned into a `Node`.
#[verifier::external_body]
fn parse_nodes(html: &[u8]) -> (r: Vec<Node>)
    ensures
        r@ == parsed_nodes(html@),
{
    let document = html5ever::parse_document(RcDom::default(), Default::default())
        .from_utf8()
        .one(html)
        .document;
    let children = document.children.borrow();
    children.iter().map(node_from_dom).collect()
}

/// Relies on markup5ever_rcdom's `Node` and `NodeData`: the tree under a
/// parsed node as a `Node`, node for node.
#[verifier::external_body]
fn node_from_dom(h: &Rc<DomNode>) -> Node {
    let children = h.children.borrow().iter().map(node_from_dom).collect();
    match &h.data {
        NodeData::Element { name, attrs, .. } => Node::Element {
            name: name.local.to_string(),
            attrs: attrs.borrow().iter().map(
                |a| Attr { name: a.name.local.to_string(), value: a.value.to_string() },
            ).collect(),
            children,
        },
        NodeData::Text { contents } => Node::Text(contents.borrow().to_string()),
        NodeData::Comment { contents } | NodeData::ProcessingInstruction { contents, .. } => Node::Comment(contents.to_string()),
        NodeData::Doctype { name, .. } => Node::Comment(name.to_string()),
        NodeData::Document => Node::Comment(String::new()),
    }
}

/// Parses `html` by the HTML parsing algorithm (which accepts any input) and
/// gives the document: an element `#document` without attributes whose
/// children are the parsed top-level nodes.
pub fn parse_html(html: &[u8]) -> (r: Node)
    ensures
        r matches Node::Element { name, attrs, .. } && name@ == "#document"@ && attrs@.len() == 0,
        children_of(r) == parsed_nodes(html@),
{
    let children = parse_nodes(html);
    element("#document", Vec::new(), children)
}

} // verus!
