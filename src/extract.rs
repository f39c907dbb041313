//! Recovering a table of cells from a document tree.
//!
//! Every `<table>` is found by a depth-first walk. The tables are then taken
//! from last to first, each writing its rows from position 0 on, so that
//! where two tables have a row at one position the one earlier in the
//! document wins. Only `<td>` cells are read; `<th>` cells are left out.
//! A document without a table gives one row of one cell, read from the first
//! child of the root.
use vstd::prelude::*;
use crate::node::{
    Node, children_of, is_tag, text_in, link_in, text_of, link_of, name_is,
};

verus! {

/// A cell: its text, and the link it holds, if any.
#[derive(Debug, Clone, PartialEq, Eq)]
pub struct Cell {
    pub text: String,
    pub link: Option<String>,
}

pub struct CellView {
    pub text: Seq<char>,
    pub link: Option<Seq<char>>,
}

impl View for Cell {
    type V = CellView;

    open spec fn view(&self) -> CellView {
        CellView {
            text: self.text@,
            link: match self.link {
                Some(l) => Some(l@),
                None => None,
            },
        }
    }
}

pub type Row = Vec<Cell>;

pub type Table = Vec<Row>;

pub open spec fn row_view(r: Row) -> Seq<CellView> {
    r@.map_values(|c: Cell| c@)
}

pub open spec fn table_view(t: Table) -> Seq<Seq<CellView>> {
    t@.map_values(|r: Row| row_view(r))
}

pub open spec fn tables_view(ts: Seq<Table>) -> Seq<Seq<Seq<CellView>>> {
    ts.map_values(|t: Table| table_view(t))
}

/// What a cell element reads as.
pub open spec fn cell_model(td: Node) -> CellView {
    CellView { text: text_in(td), link: link_in(td) }
}

/// The `<tr>` elements among the children of `n` from index `i` on, looking
/// into `<thead>` and `<tbody>`.
pub open spec fn rows_from(n: Node, i: int) -> Seq<Node>
    decreases n, children_of(n).len() - i,
{
    if 0 <= i < children_of(n).len() {
        let c = children_of(n)[i];
        let head = if is_tag(c, "tr"@) {
            seq![c]
        } else if is_tag(c, "thead"@) || is_tag(c, "tbody"@) {
            rows_from(c, 0)
        } else {
            Seq::empty()
        };
        head + rows_from(n, i + 1)
    } else {
        Seq::empty()
    }
}

/// The `<td>` children of `row` from index `i` on.
pub open spec fn cells_from(row: Node, i: int) -> Seq<Node>
    decreases children_of(row).len() - i,
{
    if 0 <= i < children_of(row).len() {
        let c = children_of(row)[i];
        (if is_tag(c, "td"@) {
            seq![c]
        } else {
            Seq::empty()
        }) + cells_from(row, i + 1)
    } else {
        Seq::empty()
    }
}

pub open spec fn row_model(tr: Node) -> Seq<CellView> {
    cells_from(tr, 0).map_values(|td: Node| cell_model(td))
}

/// The rows that the table element `t` holds.
pub open spec fn table_rows(t: Node) -> Seq<Seq<CellView>> {
    rows_from(t, 0).map_values(|tr: Node| row_model(tr))
}

/// The `<table>` elements under the children of `n` from index `i` on, in
/// document order.
pub open spec fn tables_from(n: Node, i: int) -> Seq<Node>
    decreases n, children_of(n).len() - i,
{
    if 0 <= i < children_of(n).len() {
        let c = children_of(n)[i];
        (if is_tag(c, "table"@) {
            seq![c]
        } else {
            Seq::empty()
        }) + tables_from(c, 0) + tables_from(n, i + 1)
    } else {
        Seq::empty()
    }
}

/// The `<table>` elements of the tree rooted at `root`, in document order.
pub open spec fn tables_in(root: Node) -> Seq<Node> {
    (if is_tag(root, "table"@) {
        seq![root]
    } else {
        Seq::empty()
    }) + tables_from(root, 0)
}

/// `rows` written over `base` from position 0 on.
pub open spec fn overwrite(base: Seq<Seq<CellView>>, rows: Seq<Seq<CellView>>) -> Seq<
    Seq<CellView>,
> {
    if rows.len() >= base.len() {
        rows
    } else {
        rows + base.subrange(rows.len() as int, base.len() as int)
    }
}

/// The rows of the tables `ts`, written from the last to the first.
pub open spec fn merged(ts: Seq<Seq<Seq<CellView>>>) -> Seq<Seq<CellView>>
    decreases ts.len(),
{
    if ts.len() == 0 {
        Seq::empty()
    } else {
        overwrite(merged(ts.subrange(1, ts.len() as int)), ts[0])
    }
}

/// The node that a document without a table is read from.
pub open spec fn fallback_node(root: Node) -> Node {
    if children_of(root).len() > 0 {
        children_of(root)[0]
    } else {
        root
    }
}

/// The table that the tree rooted at `root` gives.
pub open spec fn extracted(root: Node) -> Seq<Seq<CellView>> {
    let ts = tables_in(root);
    if ts.len() == 0 {
        seq![seq![cell_model(fallback_node(root))]]
    } else {
        merged(ts.map_values(|t: Node| table_rows(t)))
    }
}

/// A tree without a table reads as one row of one cell, whose text is all
/// the text under the first child of the root and whose link is the first
/// link found under it.
pub proof fn lemma_fallback_single_cell(root: Node)
    requires
        tables_in(root).len() == 0,
    ensures
        extracted(root).len() == 1,
        extracted(root)[0].len() == 1,
        extracted(root)[0][0].text == text_in(fallback_node(root)),
        extracted(root)[0][0].link == link_in(fallback_node(root)),
{
}

/// The cell that a cell element reads as.
pub fn cell_of(td: &Node) -> (r: Cell)
    ensures
        r@ == cell_model(*td),
{
    let text = text_of(td);
    let link = link_of(td);
    Cell { text, link }
}

fn is_element(n: &Node, tag: &str) -> (r: bool)
    ensures
        r == is_tag(*n, tag@),
{
    match n {
        Node::Element { name, .. } => name_is(name, tag),
        _ => false,
    }
}

/// The row that a `<tr>` element reads as.
pub fn row_of(tr: &Node) -> (r: Row)
    ensures
        row_view(r) == row_model(*tr),
{
    let mut row: Row = Vec::new();
    if let Node::Element { children, .. } = tr {
        let mut i: usize = 0;
        while i < children.len()
            invariant
                i <= children@.len(),
                children@ == children_of(*tr),
                row_view(row) + cells_from(*tr, i as int).map_values(|td: Node| cell_model(td))
                    == row_model(*tr),
            decreases children@.len() - i,
        {
            let ghost before = row_view(row);
            if is_element(&children[i], "td") {
                let c = cell_of(&children[i]);
                row.push(c);
            }
            assert(row_view(row) + cells_from(*tr, i + 1).map_values(|td: Node| cell_model(td))
                =~= before + cells_from(*tr, i as int).map_values(|td: Node| cell_model(td)));
            i += 1;
        }
    }
    assert(row_view(row) =~= row_model(*tr));
    row
}

/// Appends the rows of the table element `t` to `out`.
fn push_rows(t: &Node, out: &mut Table)
    ensures
        table_view(*final(out)) == table_view(*old(out)) + table_rows(*t),
    decreases t,
{
    if let Node::Element { children, .. } = t {
        let mut i: usize = 0;
        while i < children.len()
            invariant
                i <= children@.len(),
                children@ == children_of(*t),
                table_view(*out) + rows_from(*t, i as int).map_values(|tr: Node| row_model(tr))
                    == table_view(*old(out)) + table_rows(*t),
            decreases children@.len() - i,
        {
            let ghost before = table_view(*out);
            let c = &children[i];
            if is_element(c, "tr") {
                let r = row_of(c);
                out.push(r);
            } else if is_element(c, "thead") || is_element(c, "tbody") {
                push_rows(c, out);
            }
            assert(table_view(*out) + rows_from(*t, i + 1).map_values(|tr: Node| row_model(tr))
                =~= before + rows_from(*t, i as int).map_values(|tr: Node| row_model(tr)));
            i += 1;
        }
    }
    assert(table_view(*out) =~= table_view(*old(out)) + table_rows(*t));
}

/// The rows of the table element `t`.
pub fn rows_of(t: &Node) -> (r: Table)
    ensures
        table_view(r) == table_rows(*t),
{
    let mut out: Table = Vec::new();
    push_rows(t, &mut out);
    assert(table_view(out) =~= table_rows(*t));
    out
}

/// Appends, for each table under the children of `n`, its rows to `found`.
fn collect_tables(n: &Node, found: &mut Vec<Table>)
    ensures
        tables_view(final(found)@) == tables_view(old(found)@) + tables_from(*n, 0).map_values(
            |t: Node| table_rows(t),
        ),
    decreases n,
{
    if let Node::Element { children, .. } = n {
        let mut i: usize = 0;
        while i < children.len()
            invariant
                i <= children@.len(),
                children@ == children_of(*n),
                tables_view(found@) + tables_from(*n, i as int).map_values(
                    |t: Node| table_rows(t),
                ) == tables_view(old(found)@) + tables_from(*n, 0).map_values(
                    |t: Node| table_rows(t),
                ),
            decreases children@.len() - i,
        {
            let ghost before = tables_view(found@);
            let c = &children[i];
            if is_element(c, "table") {
                let rows = rows_of(c);
                found.push(rows);
            }
            let ghost mid = tables_view(found@);
            collect_tables(c, found);
            assert(tables_view(found@) + tables_from(*n, i + 1).map_values(
                |t: Node| table_rows(t),
            ) =~= before + tables_from(*n, i as int).map_values(|t: Node| table_rows(t)));
            i += 1;
        }
    }
    assert(tables_view(found@) =~= tables_view(old(found)@) + tables_from(*n, 0).map_values(
        |t: Node| table_rows(t),
    ));
}

/// `rows` written over `base` from position 0 on.
fn overwrite_rows(base: Table, rows: Table) -> (r: Table)
    ensures
        table_view(r) == overwrite(table_view(base), table_view(rows)),
{
    let ghost b0 = base@;
    let ghost r0 = rows@;
    let mut result = rows;
    let mut base = base;
    if base.len() > result.len() {
        let mut tail = base.split_off(result.len());
        result.append(&mut tail);
        assert(result@ =~= r0 + b0.subrange(r0.len() as int, b0.len() as int));
    }
    assert(table_view(result) =~= overwrite(
        b0.map_values(|r: Row| row_view(r)),
        r0.map_values(|r: Row| row_view(r)),
    ));
    result
}

/// Reads the table of a document tree: the rows of its tables, where two
/// tables have a row at one position the earlier in the document winning;
/// or, where it has no table, one row of one cell read from the first child
/// of the root.
pub fn extract(root: &Node) -> (r: Table)
    ensures
        table_view(r) == extracted(*root),
{
    let mut found: Vec<Table> = Vec::new();
    if is_element(root, "table") {
        let rows = rows_of(root);
        found.push(rows);
    }
    collect_tables(root, &mut found);
    let ghost ts = tables_in(*root).map_values(|t: Node| table_rows(t));
    assert(tables_view(found@) =~= ts);
    if found.len() == 0 {
        let cell = match root {
            Node::Element { children, .. } => if children.len() > 0 {
                cell_of(&children[0])
            } else {
                cell_of(root)
            },
            _ => cell_of(root),
        };
        let mut row: Row = Vec::new();
        row.push(cell);
        let mut table: Table = Vec::new();
        table.push(row);
        assert(row_view(row) =~= seq![cell_model(fallback_node(*root))]);
        assert(table_view(table) =~= extracted(*root));
        return table;
    }
    let mut out: Table = Vec::new();
    let ghost k = found@.len();
    while found.len() > 0
        invariant
            found@.len() <= k,
            k == ts.len(),
            tables_view(found@) == ts.subrange(0, found@.len() as int),
            table_view(out) == merged(ts.subrange(found@.len() as int, k as int)),
        decreases found@.len(),
    {
        let ghost j = found@.len();
        let ghost old_found = found@;
        let rows = found.pop().unwrap();
        assert(rows == old_found[j - 1]);
        assert(tables_view(old_found)[j - 1] == table_view(rows));
        assert(ts.subrange(0, j as int)[j - 1] == ts[j - 1]);
        assert(ts.subrange(j - 1, k as int).subrange(1, k - j + 1) =~= ts.subrange(
            j as int,
            k as int,
        ));
        assert(table_view(rows) == ts[j - 1]);
        out = overwrite_rows(out, rows);
        assert(tables_view(found@) =~= ts.subrange(0, found@.len() as int));
    }
    assert(ts.subrange(0, k as int) =~= ts);
    out
}

} // verus!
