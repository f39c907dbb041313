//! Building document trees from tables and nested lists, and the clipboard
//! skeleton `<html><body><!--StartFragment--><meta charset="utf-8">…
//! <!--EndFragment--></body></html>` around them.
use vstd::prelude::*;
use crate::node::{Attr, Node, children_of, is_tag, text_from, link_from, href_from};
use crate::extract::{
    Cell, CellView, Row, Table, row_view, table_view, cell_model, cells_from, rows_from,
    row_model, table_rows, tables_from, tables_in, merged, extracted,
};

verus! {

/// One entry of a nested list: its text, its link, and the entries under it.
#[derive(Debug)]
pub struct ListItem {
    pub text: String,
    pub link: Option<String>,
    pub children: Vec<ListItem>,
}

pub open spec fn link_view(l: Option<String>) -> Option<Seq<char>> {
    match l {
        Some(s) => Some(s@),
        None => None,
    }
}

/// `n` is the text node `text`.
pub open spec fn is_text(n: Node, text: Seq<char>) -> bool {
    match n {
        Node::Text(s) => s@ == text,
        _ => false,
    }
}

/// `n` is an element named `tag` without attributes.
pub open spec fn is_bare(n: Node, tag: Seq<char>) -> bool {
    match n {
        Node::Element { name, attrs, .. } => name@ == tag && attrs@.len() == 0,
        _ => false,
    }
}

/// `n` shows `text`: as `<a href="link">text</a>` where there is a link,
/// else as the bare text.
pub open spec fn is_content(n: Node, text: Seq<char>, link: Option<Seq<char>>) -> bool {
    match link {
        Some(l) => match n {
            Node::Element { name, attrs, children } => name@ == "a"@ && attrs@.len() == 1
                && attrs@[0].name@ == "href"@ && attrs@[0].value@ == l && children@.len() == 1
                && is_text(children@[0], text),
            _ => false,
        },
        None => is_text(n, text),
    }
}

/// `n` is an element `<tag>` whose one child shows `text` and `link`.
pub open spec fn is_entry(n: Node, tag: Seq<char>, text: Seq<char>, link: Option<Seq<char>>) -> bool {
    is_bare(n, tag) && children_of(n).len() == 1 && is_content(children_of(n)[0], text, link)
}

/// `n` is the `<tr>` that `build_table` makes for the row `r`.
pub open spec fn is_built_row(n: Node, r: Seq<CellView>) -> bool {
    is_bare(n, "tr"@) && children_of(n).len() == r.len() && forall|j: int|
        0 <= j < r.len() ==> is_entry(#[trigger] children_of(n)[j], "td"@, r[j].text, r[j].link)
}

/// `n` is the `<table>` that `build_table` makes for the table `t`.
pub open spec fn is_built_table(n: Node, t: Seq<Seq<CellView>>) -> bool {
    is_bare(n, "table"@) && children_of(n).len() == t.len() && forall|i: int|
        0 <= i < t.len() ==> is_built_row(#[trigger] children_of(n)[i], t[i])
}

/// `nodes` are the children of a `<ul>` that `build_list` makes for `items`:
/// for each item an `<li>`, followed, where the item has entries under it,
/// by a `<ul>` of those.
pub open spec fn is_list_body(nodes: Seq<Node>, items: Seq<ListItem>) -> bool
    decreases items,
{
    if items.len() == 0 {
        nodes.len() == 0
    } else {
        let it = items[0];
        let rest = items.subrange(1, items.len() as int);
        nodes.len() >= 1 && is_entry(nodes[0], "li"@, it.text@, link_view(it.link)) && if it.children@.len() > 0 {
            nodes.len() >= 2 && is_bare(nodes[1], "ul"@) && is_list_body(
                children_of(nodes[1]),
                it.children@,
            ) && is_list_body(nodes.subrange(2, nodes.len() as int), rest)
        } else {
            is_list_body(nodes.subrange(1, nodes.len() as int), rest)
        }
    }
}

pub(crate) fn element(tag: &str, attrs: Vec<Attr>, children: Vec<Node>) -> (r: Node)
    ensures
        r == (Node::Element { name: r->name, attrs, children }),
        r->name@ == tag@,
{
    Node::Element { name: tag.to_owned(), attrs, children }
}

/// The node that shows `text`, linked to `link` where there is one.
fn content(text: &String, link: &Option<String>) -> (r: Node)
    ensures
        is_content(r, text@, link_view(*link)),
{
    let t = Node::Text(text.clone());
    match link {
        Some(l) => {
            let mut attrs: Vec<Attr> = Vec::new();
            let href: String = "href".to_owned();
            attrs.push(Attr { name: href, value: l.clone() });
            let mut children: Vec<Node> = Vec::new();
            children.push(t);
            element("a", attrs, children)
        },
        None => t,
    }
}

/// `<tag>` holding the node that shows `text` and `link`.
fn entry(tag: &str, text: &String, link: &Option<String>) -> (r: Node)
    ensures
        is_entry(r, tag@, text@, link_view(*link)),
{
    let mut children: Vec<Node> = Vec::new();
    children.push(content(text, link));
    element(tag, Vec::new(), children)
}

/// `<td>` for a cell: `<a href=link>text</a>` where it has a link, else the
/// bare text.
pub fn cell_node(c: &Cell) -> (r: Node)
    ensures
        is_entry(r, "td"@, c@.text, c@.link),
{
    entry("td", &c.text, &c.link)
}

/// `<tr>` for a row.
pub fn row_node(row: &Row) -> (r: Node)
    ensures
        is_built_row(r, row_view(*row)),
{
    let mut cells: Vec<Node> = Vec::new();
    let mut j: usize = 0;
    while j < row.len()
        invariant
            j <= row@.len(),
            cells@.len() == j,
            forall|k: int|
                0 <= k < j ==> is_entry(
                    #[trigger] cells@[k],
                    "td"@,
                    row@[k]@.text,
                    row@[k]@.link,
                ),
        decreases row@.len() - j,
    {
        cells.push(cell_node(&row[j]));
        j += 1;
    }
    element("tr", Vec::new(), cells)
}

/// `<table>` with a `<tr>` for each row and a `<td>` for each cell.
pub fn build_table(t: &Table) -> (r: Node)
    ensures
        is_built_table(r, table_view(*t)),
{
    let mut rows: Vec<Node> = Vec::new();
    let mut i: usize = 0;
    while i < t.len()
        invariant
            i <= t@.len(),
            rows@.len() == i,
            forall|k: int| 0 <= k < i ==> is_built_row(#[trigger] rows@[k], row_view(t@[k])),
        decreases t@.len() - i,
    {
        rows.push(row_node(&t[i]));
        i += 1;
    }
    element("table", Vec::new(), rows)
}

/// Appends the list body for `items[i..]` to `out`.
fn push_list_body(items: &Vec<ListItem>, i: usize, out: &mut Vec<Node>)
    requires
        i <= items@.len(),
    ensures
        final(out)@.len() >= old(out)@.len(),
        final(out)@.subrange(0, old(out)@.len() as int) == old(out)@,
        is_list_body(
            final(out)@.subrange(old(out)@.len() as int, final(out)@.len() as int),
            items@.subrange(i as int, items@.len() as int),
        ),
    decreases items, items@.len() - i,
{
    let ghost rest = items@.subrange(i as int, items@.len() as int);
    if i == items.len() {
        assert(out@.subrange(out@.len() as int, out@.len() as int) =~= Seq::<Node>::empty());
        assert(out@.subrange(0, out@.len() as int) =~= out@);
        return;
    }
    let ghost start = out@.len();
    let it = &items[i];
    out.push(entry("li", &it.text, &it.link));
    let ghost mid = out@.len();
    if it.children.len() > 0 {
        let mut sub: Vec<Node> = Vec::new();
        push_list_body(&it.children, 0, &mut sub);
        assert(sub@.subrange(0, sub@.len() as int) =~= sub@);
        assert(it.children@.subrange(0, it.children@.len() as int) =~= it.children@);
        out.push(element("ul", Vec::new(), sub));
    }
    let ghost before = out@;
    push_list_body(items, i + 1, out);
    proof {
        let s = out@.subrange(start as int, out@.len() as int);
        assert(rest[0] == items@[i as int]);
        assert(rest.subrange(1, rest.len() as int) =~= items@.subrange(
            i + 1,
            items@.len() as int,
        ));
        assert(s[0] == out@[start as int]);
        assert(out@.subrange(0, before.len() as int) == before);
        assert(out@[start as int] == before[start as int]);
        if items@[i as int].children@.len() > 0 {
            assert(s[1] == before[start + 1int]);
            assert(s.subrange(2, s.len() as int) =~= out@.subrange(
                before.len() as int,
                out@.len() as int,
            ));
        } else {
            assert(s.subrange(1, s.len() as int) =~= out@.subrange(
                before.len() as int,
                out@.len() as int,
            ));
        }
        assert(out@.subrange(0, start as int) =~= before.subrange(0, start as int));
    }
}

/// `<ul>` with an `<li>` for each item, each item with entries under it
/// followed by a `<ul>` of those.
pub fn build_list(items: &Vec<ListItem>) -> (r: Node)
    ensures
        is_bare(r, "ul"@),
        is_list_body(children_of(r), items@),
{
    let mut body: Vec<Node> = Vec::new();
    push_list_body(items, 0, &mut body);
    assert(body@.subrange(0, body@.len() as int) =~= body@);
    assert(items@.subrange(0, items@.len() as int) =~= items@);
    element("ul", Vec::new(), body)
}

/// `n` is the clipboard skeleton around `contents`.
pub open spec fn is_clipboard_document(n: Node, contents: Seq<Node>) -> bool {
    is_bare(n, "html"@) && children_of(n).len() == 1 && is_bare(children_of(n)[0], "body"@)
        && {
        let b = children_of(children_of(n)[0]);
        &&& b.len() == contents.len() + 3
        &&& b[0] matches Node::Comment(s) && s@ == "StartFragment"@
        &&& b[1] matches Node::Element { name, attrs, children } && name@ == "meta"@
            && attrs@.len() == 1 && attrs@[0].name@ == "charset"@ && attrs@[0].value@
            == "utf-8"@ && children@.len() == 0
        &&& b.subrange(2, b.len() - 1) == contents
        &&& b[b.len() - 1] matches Node::Comment(e) && e@ == "EndFragment"@
    }
}

/// `<html><body><!--StartFragment--><meta charset="utf-8">{contents}
/// <!--EndFragment--></body></html>`.
pub fn create_html_for_clipboard(contents: Vec<Node>) -> (r: Node)
    ensures
        is_clipboard_document(r, contents@),
{
    let ghost cs = contents@;
    let mut body: Vec<Node> = Vec::new();
    body.push(Node::Comment("StartFragment".to_owned()));
    let mut attrs: Vec<Attr> = Vec::new();
    attrs.push(Attr { name: "charset".to_owned(), value: "utf-8".to_owned() });
    body.push(element("meta", attrs, Vec::new()));
    let mut contents = contents;
    body.append(&mut contents);
    body.push(Node::Comment("EndFragment".to_owned()));
    assert(body@.subrange(2, body@.len() - 1) =~= cs);
    let b = element("body", Vec::new(), body);
    let mut top: Vec<Node> = Vec::new();
    top.push(b);
    element("html", Vec::new(), top)
}

proof fn lemma_tag_names()
    ensures
        "a"@ != "table"@,
        "td"@ != "table"@,
        "tr"@ != "table"@,
        "td"@ == seq!['t', 'd'],
        "tr"@ == seq!['t', 'r'],
        "a"@ == seq!['a'],
        "href"@ == seq!['h', 'r', 'e', 'f'],
        "table"@.len() == 5,
{
    reveal_strlit("a");
    reveal_strlit("td");
    reveal_strlit("tr");
    reveal_strlit("href");
    reveal_strlit("table");
    assert("a"@.len() == 1 && "td"@.len() == 2 && "tr"@.len() == 2);
}

/// An element made by `entry` reads as its text and link, and holds no table.
proof fn lemma_entry_reads(e: Node, tag: Seq<char>, text: Seq<char>, link: Option<Seq<char>>)
    requires
        is_entry(e, tag, text, link),
    ensures
        text_from(e, 0) == text,
        link_from(e, 0) == link,
        tables_from(e, 0) == Seq::<Node>::empty(),
{
    lemma_tag_names();
    let c = children_of(e)[0];
    assert(text_from(e, 1) == Seq::<char>::empty());
    assert(link_from(e, 1) == None::<Seq<char>>);
    assert(tables_from(e, 1) == Seq::<Node>::empty());
    assert(tables_from(c, 0) == Seq::<Node>::empty()) by {
        if let Node::Element { children, .. } = c {
            let t = children@[0];
            assert(tables_from(t, 0) == Seq::<Node>::empty());
            assert(tables_from(c, 1) == Seq::<Node>::empty());
            assert(!is_tag(t, "table"@));
        }
    }
    match link {
        Some(l) => {
            assert(text_from(c, 1) == Seq::<char>::empty());
            assert(text_from(c, 0) =~= text);
            assert(text_from(e, 0) =~= text);
            if let Node::Element { attrs, .. } = c {
                assert(href_from(attrs@, 0) == Some(l));
            }
            assert(!is_tag(c, "table"@));
            assert(tables_from(e, 0) =~= Seq::<Node>::empty());
        },
        None => {
            assert(text_from(e, 0) =~= text);
            assert(tables_from(e, 0) =~= Seq::<Node>::empty());
        },
    }
}

proof fn lemma_row_reads(tr: Node, r: Seq<CellView>, j: int)
    requires
        is_built_row(tr, r),
        0 <= j <= r.len(),
    ensures
        cells_from(tr, j) == children_of(tr).subrange(j, r.len() as int),
        tables_from(tr, j) == Seq::<Node>::empty(),
    decreases r.len() - j,
{
    lemma_tag_names();
    if j < r.len() {
        lemma_row_reads(tr, r, j + 1);
        let c = children_of(tr)[j];
        assert(is_entry(c, "td"@, r[j].text, r[j].link));
        lemma_entry_reads(c, "td"@, r[j].text, r[j].link);
        assert(is_tag(c, "td"@));
        assert(!is_tag(c, "table"@));
        assert(cells_from(tr, j) =~= children_of(tr).subrange(j, r.len() as int));
        assert(tables_from(tr, j) =~= Seq::<Node>::empty());
    } else {
        assert(children_of(tr).subrange(j, r.len() as int) =~= Seq::<Node>::empty());
    }
}

proof fn lemma_row_model(tr: Node, r: Seq<CellView>)
    requires
        is_built_row(tr, r),
    ensures
        row_model(tr) == r,
{
    lemma_row_reads(tr, r, 0);
    assert(children_of(tr).subrange(0, r.len() as int) =~= children_of(tr));
    assert forall|j: int| 0 <= j < r.len() implies #[trigger] cell_model(children_of(tr)[j])
        == r[j] by {
        lemma_entry_reads(children_of(tr)[j], "td"@, r[j].text, r[j].link);
    }
    assert(row_model(tr) =~= r);
}

proof fn lemma_table_reads(n: Node, t: Seq<Seq<CellView>>, i: int)
    requires
        is_built_table(n, t),
        0 <= i <= t.len(),
    ensures
        rows_from(n, i) == children_of(n).subrange(i, t.len() as int),
        tables_from(n, i) == Seq::<Node>::empty(),
    decreases t.len() - i,
{
    lemma_tag_names();
    if i < t.len() {
        lemma_table_reads(n, t, i + 1);
        let c = children_of(n)[i];
        assert(is_built_row(c, t[i]));
        lemma_row_reads(c, t[i], 0);
        assert(is_tag(c, "tr"@));
        assert(!is_tag(c, "table"@));
        assert(rows_from(n, i) =~= children_of(n).subrange(i, t.len() as int));
        assert(tables_from(n, i) =~= Seq::<Node>::empty());
    } else {
        assert(children_of(n).subrange(i, t.len() as int) =~= Seq::<Node>::empty());
    }
}

/// Reading back the table element that `build_table` makes for `t` gives `t`.
pub proof fn lemma_extract_built_table(n: Node, t: Seq<Seq<CellView>>)
    requires
        is_built_table(n, t),
    ensures
        extracted(n) == t,
{
    reveal_strlit("table");
    lemma_table_reads(n, t, 0);
    assert(children_of(n).subrange(0, t.len() as int) =~= children_of(n));
    assert forall|i: int| 0 <= i < t.len() implies #[trigger] row_model(children_of(n)[i])
        == t[i] by {
        lemma_row_model(children_of(n)[i], t[i]);
    }
    assert(table_rows(n) =~= t);
    assert(tables_in(n) =~= seq![n]);
    let ts = tables_in(n).map_values(|x: Node| table_rows(x));
    assert(ts =~= seq![t]);
    assert(ts.subrange(1, 1) =~= Seq::<Seq<Seq<CellView>>>::empty());
    assert(merged(Seq::<Seq<Seq<CellView>>>::empty()) == Seq::<Seq<CellView>>::empty());
    assert(merged(ts) == crate::extract::overwrite(Seq::<Seq<CellView>>::empty(), t));
    assert(merged(ts) =~= t);
}

} // verus!
