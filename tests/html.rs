use qlp::extract::{extract, Table};
use qlp::html::{parse_html, render};
use qlp::builder::{build_list, ListItem};
use qlp::node::Node;

fn document_children(doc: &Node) -> usize {
    match doc {
        Node::Element { children, .. } => children.len(),
        _ => 0,
    }
}

fn item(text: &str, children: Vec<ListItem>) -> ListItem {
    ListItem { text: text.to_string(), link: None, children }
}

#[test]
fn test_parse_html() {
    let html = r#"<html>
<body>
<!--StartFragment--><google-sheets-html-origin><style type="text/css"><!--td {border: 1px solid #cccccc;}br {mso-data-placement:same-cell;}--></style><table xmlns="http://www.w3.org/1999/xhtml" cellspacing="0" cellpadding="0" dir="ltr" border="1" style="table-layout:fixed;font-size:10pt;font-family:Arial;width:0px;border-collapse:collapse;border:none" data-sheets-root="1" data-sheets-baot="1"><colgroup><col width="100"/><col width="100"/><col width="100"/></colgroup><tbody><tr style="height:21px;"><td style="border-top:1px solid #000000;border-right:1px solid #000000;border-bottom:1px solid #000000;border-left:1px solid #000000;overflow:hidden;padding:2px 3px 2px 3px;vertical-align:bottom;">aa</td><td style="border-top:1px solid #000000;border-right:1px solid #000000;border-bottom:1px solid #000000;overflow:hidden;padding:2px 3px 2px 3px;vertical-align:bottom;font-weight:bold;">bb</td><td style="overflow:hidden;padding:2px 3px 2px 3px;vertical-align:bottom;text-decoration:underline;color:#1155cc;"><a class="in-cell-link" href="https://google.com/" target="_blank">cc</a></td></tr></tbody></table><!--EndFragment-->
</body>
</html>"#;

    let dom = parse_html(html.as_bytes());
    assert_eq!(document_children(&dom), 1);

    let table: Table = extract(&dom);

    // assert table length
    assert_eq!(1, table.len());

    // assert row length
    let actual_rows = &table[0];
    assert_eq!(3, actual_rows.len());

    // assert cell 1
    assert_eq!("aa", actual_rows[0].text);

    // assert cell 2
    assert_eq!("bb", actual_rows[1].text);

    // assert cell 3
    assert_eq!("cc", actual_rows[2].text);
    assert_eq!(Some("https://google.com/".to_string()), actual_rows[2].link);
}

#[test]
fn test_parse_html2() {
    let html = r#"<html>
<body>
<!--StartFragment--><google-sheets-html-origin><style type="text/css"><!--td {border: 1px solid #cccccc;}br {mso-data-placement:same-cell;}--></style><table xmlns="http://www.w3.org/1999/xhtml" cellspacing="0" cellpadding="0" dir="ltr" border="1" style="table-layout:fixed;font-size:10pt;font-family:Arial;width:0px;border-collapse:collapse;border:none" data-sheets-root="1" data-sheets-baot="1"><colgroup><col width="100"/><col width="100"/></colgroup><tbody><tr style="height:21px;"><td style="border-left:1px solid #000000;overflow:hidden;padding:2px 3px 2px 3px;vertical-align:bottom;text-decoration:underline;color:#1155cc;"><a class="in-cell-link" href="https://google.com/" target="_blank">うう</a></td><td style="border-right:1px solid transparent;overflow:visible;padding:2px 0px 2px 0px;vertical-align:bottom;"><div style="white-space:nowrap;overflow:hidden;position:relative;width:297px;left:3px;"><div style="float:left;"><span style="font-size:10pt;font-family:Arial;font-style:normal;text-decoration:underline;text-decoration-skip-ink:none;-webkit-text-decoration-skip:none;color:#1155cc;"><a class="in-cell-link" target="_blank" href="https://example.com/">Example Domain</a></span><span style="font-size:10pt;font-family:Arial;font-style:normal;">tps://example.com/</span></div></div></td></tr></tbody></table><!--EndFragment-->
</body>
</html>"#;

    let dom = parse_html(html.as_bytes());
    assert_eq!(document_children(&dom), 1);

    let table: Table = extract(&dom);

    // assert table length
    assert_eq!(1, table.len());

    // assert row length
    let actual_rows = &table[0];
    assert_eq!(2, actual_rows.len());

    // assert cell 1
    assert_eq!("うう", actual_rows[0].text);
    assert_eq!(Some("https://google.com/".to_string()), actual_rows[0].link);

    // assert cell 2
    assert_eq!("Example Domaintps://example.com/", actual_rows[1].text);
    assert_eq!(Some("https://example.com/".to_string()), actual_rows[1].link);
}

#[test]
fn test_list() {
    let html = r#"<html>
<body>
<!--StartFragment--><meta charset="utf-8"><b style="font-weight:normal;" id="docs-internal-guid-81b70dd7-7fff-f183-d406-52450c91b0e8"><ul style="margin-top:0;margin-bottom:0;padding-inline-start:48px;"><li dir="ltr" style="list-style-type:disc;font-size:11pt;font-family:Arial,sans-serif;color:#000000;background-color:transparent;font-weight:400;font-style:normal;font-variant:normal;text-decoration:none;vertical-align:baseline;white-space:pre;" aria-level="1"><p dir="ltr" style="line-height:1.38;margin-top:0pt;margin-bottom:0pt;" role="presentation"><span style="font-size:11pt;font-family:Arial,sans-serif;color:#000000;background-color:transparent;font-weight:400;font-style:normal;font-variant:normal;text-decoration:none;vertical-align:baseline;white-space:pre;white-space:pre-wrap;">hoge</span></p></li><ul style="margin-top:0;margin-bottom:0;padding-inline-start:48px;"><li dir="ltr" style="list-style-type:circle;font-size:11pt;font-family:Arial,sans-serif;color:#000000;background-color:transparent;font-weight:400;font-style:normal;font-variant:normal;text-decoration:none;vertical-align:baseline;white-space:pre;" aria-level="2"><p dir="ltr" style="line-height:1.38;margin-top:0pt;margin-bottom:0pt;" role="presentation"><span style="font-size:11pt;font-family:Arial,sans-serif;color:#000000;background-color:transparent;font-weight:400;font-style:normal;font-variant:normal;text-decoration:none;vertical-align:baseline;white-space:pre;white-space:pre-wrap;">piyo</span></p></li><ul style="margin-top:0;margin-bottom:0;padding-inline-start:48px;"><li dir="ltr" style="list-style-type:square;font-size:11pt;font-family:Arial,sans-serif;color:#000000;background-color:transparent;font-weight:400;font-style:normal;font-variant:normal;text-decoration:none;vertical-align:baseline;white-space:pre;" aria-level="3"><p dir="ltr" style="line-height:1.38;margin-top:0pt;margin-bottom:0pt;" role="presentation"><span style="font-size:11pt;font-family:Arial,sans-serif;color:#000000;background-color:transparent;font-weight:400;font-style:normal;font-variant:normal;text-decoration:none;vertical-align:baseline;white-space:pre;white-space:pre-wrap;">fuga</span></p></li></ul><li dir="ltr" style="list-style-type:circle;font-size:11pt;font-family:Arial,sans-serif;color:#000000;background-color:transparent;font-weight:400;font-style:normal;font-variant:normal;text-decoration:none;vertical-align:baseline;white-space:pre;" aria-level="2"><p dir="ltr" style="line-height:1.38;margin-top:0pt;margin-bottom:0pt;" role="presentation"><span style="font-size:11pt;font-family:Arial,sans-serif;color:#000000;background-color:transparent;font-weight:400;font-style:normal;font-variant:normal;text-decoration:none;vertical-align:baseline;white-space:pre;white-space:pre-wrap;">moge</span></p></li></ul><li dir="ltr" style="list-style-type:disc;font-size:11pt;font-family:Arial,sans-serif;color:#000000;background-color:transparent;font-weight:400;font-style:normal;font-variant:normal;text-decoration:none;vertical-align:baseline;white-space:pre;" aria-level="1"><p dir="ltr" style="line-height:1.38;margin-top:0pt;margin-bottom:0pt;" role="presentation"><span style="font-size:11pt;font-family:Arial,sans-serif;color:#000000;background-color:transparent;font-weight:400;font-style:normal;font-variant:normal;text-decoration:none;vertical-align:baseline;white-space:pre;white-space:pre-wrap;">mogera</span></p></li></ul><br /></b><!--EndFragment-->
</body>
</html>"#;

    let dom = parse_html(html.as_bytes());
    assert_eq!(document_children(&dom), 1);
}

#[test]
fn test_list_2() {
    let rows = vec![
        item("foo", vec![item("aa", vec![]), item("cc", vec![])]),
        item("bar", vec![item("bb", vec![]), item("dd", vec![])]),
    ];

    let actual_html = build_list(&rows);
    let actual = render(&actual_html);

    let expected = "<ul><li>foo</li><ul><li>aa</li><li>cc</li></ul><li>bar</li><ul><li>bb</li><li>dd</li></ul></ul>";

    assert_eq!(expected, actual);
}

#[test]
fn fallback_reads_one_cell() {
    let html = r#"<span style="font-size:10pt;"><span><a class="in-cell-link" target="_blank" href="https://example.com/">Example Domain</a></span><span>tps://example.com/</span></span>"#;
    let table = extract(&parse_html(html.as_bytes()));
    assert_eq!(1, table.len());
    assert_eq!(1, table[0].len());
    assert_eq!("Example Domaintps://example.com/", table[0][0].text);
    assert_eq!(Some("https://example.com/".to_string()), table[0][0].link);
}

#[test]
fn fallback_on_sheet_fragment_without_table() {
    // The text of the fallback cell is all the text under the first child
    // of the document, the style sheet and line breaks included.
    let html = r#"<html>
<body>
<!--StartFragment--><style type="text/css"><!--td {border: 1px solid #cccccc;}br {mso-data-placement:same-cell;}--></style><span style="font-size:10pt;font-family:Arial;font-style:normal;" data-sheets-root="1"><span style="font-size:10pt;font-family:Arial;font-style:normal;text-decoration:underline;text-decoration-skip-ink:none;-webkit-text-decoration-skip:none;color:#1155cc;"><a class="in-cell-link" target="_blank" href="https://example.com/">Example Domain</a></span><span style="font-size:10pt;font-family:Arial;font-style:normal;">tps://example.com/</span></span><!--EndFragment-->
</body>
</html"#;
    let table = extract(&parse_html(html.as_bytes()));
    assert_eq!(1, table.len());
    assert_eq!(1, table[0].len());
    assert!(table[0][0].text.contains("Example Domaintps://example.com/"));
    assert_eq!(Some("https://example.com/".to_string()), table[0][0].link);
}

#[test]
fn header_cells_are_left_out() {
    let html = "<table><thead><tr><th>h1</th><th>h2</th></tr></thead><tbody><tr><td>a</td><td>b</td></tr></tbody></table>";
    let table = extract(&parse_html(html.as_bytes()));
    assert_eq!(2, table.len());
    assert_eq!(0, table[0].len());
    assert_eq!(vec!["a".to_string(), "b".to_string()], table[1].iter().map(|c| c.text.clone()).collect::<Vec<_>>());
}

#[test]
fn earlier_table_wins_where_rows_overlap() {
    let html = "<table><tr><td>first</td></tr></table><table><tr><td>second-1</td></tr><tr><td>second-2</td></tr></table>";
    let table = extract(&parse_html(html.as_bytes()));
    assert_eq!(2, table.len());
    assert_eq!("first", table[0][0].text);
    assert_eq!("second-2", table[1][0].text);
}

#[test]
fn link_search_goes_past_elements_without_one() {
    let html = "<table><tr><td><span>x</span><b><a href=\"https://example.org/\">y</a></b></td></tr></table>";
    let table = extract(&parse_html(html.as_bytes()));
    assert_eq!("xy", table[0][0].text);
    assert_eq!(Some("https://example.org/".to_string()), table[0][0].link);
}

#[test]
fn nested_list_with_link() {
    let rows = vec![ListItem {
        text: "top".to_string(),
        link: Some("https://example.com/".to_string()),
        children: vec![item("inner", vec![item("deep", vec![])])],
    }];
    let actual = render(&build_list(&rows));
    assert_eq!(
        "<ul><li><a href=\"https://example.com/\">top</a></li><ul><li>inner</li><ul><li>deep</li></ul></ul></ul>",
        actual
    );
}

#[test]
fn parsed_document_renders_as_its_children() {
    let dom = parse_html(b"<!DOCTYPE html><p>x &amp; y</p>");
    assert_eq!(
        "<!--html--><html><head></head><body><p>x &amp; y</p></body></html>",
        render(&dom)
    );
}

#[test]
fn void_and_raw_text_elements_render() {
    let dom = parse_html(b"<style>a>b</style><br><p>1<2</p>");
    assert_eq!(
        "<html><head><style>a>b</style></head><body><br><p>1&lt;2</p></body></html>",
        render(&dom)
    );
}
