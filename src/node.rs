//! An owned document tree: elements with their attributes and children,
//! text, and comments; and what a cell reads from it (its text and its link).
use vstd::prelude::*;

verus! {

/// An attribute of an element, `name="value"`.
#[derive(Debug, Clone)]
pub struct Attr {
    pub name: String,
    pub value: String,
}

/// A node of a document tree. Each element owns its children.
#[derive(Debug)]
pub enum Node {
    Element { name: String, attrs: Vec<Attr>, children: Vec<Node> },
    Text(String),
    Comment(String),
}

/// The children of `n` (none for text and comments).
pub open spec fn children_of(n: Node) -> Seq<Node> {
    match n {
        Node::Element { children, .. } => children@,
        _ => Seq::empty(),
    }
}

/// `n` is an element named `tag`.
pub open spec fn is_tag(n: Node, tag: Seq<char>) -> bool {
    match n {
        Node::Element { name, .. } => name@ == tag,
        _ => false,
    }
}

/// The value of the first attribute named `href` from index `i` on.
pub open spec fn href_from(attrs: Seq<Attr>, i: int) -> Option<Seq<char>>
    decreases attrs.len() - i,
{
    if 0 <= i < attrs.len() {
        if attrs[i].name@ == "href"@ {
            Some(attrs[i].value@)
        } else {
            href_from(attrs, i + 1)
        }
    } else {
        None
    }
}

/// The text under the children of `n` from index `i` on, in document order.
pub open spec fn text_from(n: Node, i: int) -> Seq<char>
    decreases n, children_of(n).len() - i,
{
    if 0 <= i < children_of(n).len() {
        let c = children_of(n)[i];
        let head = match c {
            Node::Text(s) => s@,
            _ => text_from(c, 0),
        };
        head + text_from(n, i + 1)
    } else {
        Seq::empty()
    }
}

/// All the text under `n`, in document order.
pub open spec fn text_in(n: Node) -> Seq<char> {
    text_from(n, 0)
}

/// The first link found by a depth-first search through the children of `n`
/// from index `i` on: an anchor gives its `href` (when it has one), and every
/// other element is searched in turn.
pub open spec fn link_from(n: Node, i: int) -> Option<Seq<char>>
    decreases n, children_of(n).len() - i,
{
    if 0 <= i < children_of(n).len() {
        let c = children_of(n)[i];
        let here = match c {
            Node::Element { name, attrs, .. } => if name@ == "a"@ {
                href_from(attrs@, 0)
            } else {
                link_from(c, 0)
            },
            _ => None,
        };
        if here is Some {
            here
        } else {
            link_from(n, i + 1)
        }
    } else {
        None
    }
}

/// The link under `n`.
pub open spec fn link_in(n: Node) -> Option<Seq<char>> {
    link_from(n, 0)
}

/// Whether `name` reads `tag`.
pub fn name_is(name: &String, tag: &str) -> (r: bool)
    ensures
        r == (name@ == tag@),
{
    let t: String = tag.to_owned();
    *name == t
}

/// The value of the first `href` attribute.
pub fn href_of(attrs: &Vec<Attr>) -> (r: Option<String>)
    ensures
        r matches Some(v) ==> href_from(attrs@, 0) == Some(v@),
        r is None ==> href_from(attrs@, 0) is None,
{
    let mut i: usize = 0;
    while i < attrs.len()
        invariant
            i <= attrs@.len(),
            href_from(attrs@, 0) == href_from(attrs@, i as int),
        decreases attrs@.len() - i,
    {
        if name_is(&attrs[i].name, "href") {
            return Some(attrs[i].value.clone());
        }
        i += 1;
    }
    None
}

/// Appends all the text under `n` to `out`.
pub fn push_text(n: &Node, out: &mut String)
    ensures
        final(out)@ == old(out)@ + text_in(*n),
    decreases n,
{
    if let Node::Element { children, .. } = n {
        let mut i: usize = 0;
        while i < children.len()
            invariant
                i <= children@.len(),
                children@ == children_of(*n),
                out@ + text_from(*n, i as int) == old(out)@ + text_in(*n),
            decreases children@.len() - i,
        {
            let ghost before = out@;
            match &children[i] {
                Node::Text(s) => {
                    out.append(s.as_str());
                },
                c => {
                    push_text(c, out);
                },
            }
            assert(out@ + text_from(*n, i + 1) =~= before + text_from(*n, i as int));
            i += 1;
        }
    } else {
        assert(out@ =~= old(out)@ + text_in(*n));
    }
}

/// All the text under `n`.
pub fn text_of(n: &Node) -> (r: String)
    ensures
        r@ == text_in(*n),
{
    let mut out = String::new();
    push_text(n, &mut out);
    assert(out@ =~= text_in(*n));
    out
}

/// The first link under `n`, found depth first.
pub fn link_of(n: &Node) -> (r: Option<String>)
    ensures
        r matches Some(v) ==> link_in(*n) == Some(v@),
        r is None ==> link_in(*n) is None,
    decreases n,
{
    if let Node::Element { children, .. } = n {
        let mut i: usize = 0;
        while i < children.len()
            invariant
                i <= children@.len(),
                children@ == children_of(*n),
                link_from(*n, i as int) == link_in(*n),
            decreases children@.len() - i,
        {
            if let Node::Element { name, attrs, .. } = &children[i] {
                let found = if name_is(name, "a") {
                    href_of(attrs)
                } else {
                    link_of(&children[i])
                };
                if found.is_some() {
                    return found;
                }
            }
            i += 1;
        }
    }
    None
}

} // verus!
