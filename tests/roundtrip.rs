use qlp::builder::{build_table, create_html_for_clipboard};
use qlp::clip::Clipboard;
use qlp::extract::{extract, Cell, Table};
use qlp::html::{parse_html, render};

fn cell(text: &str, link: Option<&str>) -> Cell {
    Cell { text: text.to_string(), link: link.map(|l| l.to_string()) }
}

fn sample_table() -> Table {
    vec![
        vec![cell("aa", None)],
        vec![cell("bb", None)],
        vec![cell("cc", Some("https://example.com/"))],
    ]
}

#[test]
fn table_document_renders() {
    let actual_table = build_table(&sample_table());
    let actual_html = create_html_for_clipboard(vec![actual_table]);
    assert_eq!(
        "<html><body><!--StartFragment--><meta charset=\"utf-8\"><table><tr><td>aa</td></tr><tr><td>bb</td></tr><tr><td><a href=\"https://example.com/\">cc</a></td></tr></table><!--EndFragment--></body></html>",
        render(&actual_html)
    );
}

#[test]
fn table_survives_render_and_parse() {
    let t = vec![
        vec![cell("a & b", None), cell("<x>", Some("https://example.com/?a=1&b=2")), cell("", None)],
        vec![cell("うう", Some("https://google.com/"))],
        vec![],
    ];
    let html = render(&create_html_for_clipboard(vec![build_table(&t)]));
    let payload = Clipboard::append_clipboard_data(&html).unwrap();
    let region = Clipboard::get_html(&payload).unwrap();
    let back = extract(&parse_html(&region));
    assert_eq!(t, back);
    assert_eq!(render(&build_table(&t)), render(&build_table(&back)));
}

#[test]
fn table_read_back_without_payload() {
    let t = sample_table();
    let html = render(&build_table(&t));
    assert_eq!(t, extract(&parse_html(html.as_bytes())));
}

#[test]
fn escaped_text_and_attributes() {
    let t = vec![vec![cell("1 < 2 & 3 > 2", Some("a\"b"))]];
    assert_eq!(
        "<table><tr><td><a href=\"a&quot;b\">1 &lt; 2 &amp; 3 &gt; 2</a></td></tr></table>",
        render(&build_table(&t))
    );
}

#[test]
fn empty_table_round_trip() {
    let t: Table = vec![];
    let html = render(&build_table(&t));
    assert_eq!("<table></table>", html);
    assert_eq!(t, extract(&parse_html(html.as_bytes())));
}

#[test]
fn html_payload_frames_rendered_document() {
    let t = sample_table();
    let payload = Clipboard::html_payload(vec![build_table(&t)]).unwrap();
    let html = render(&create_html_for_clipboard(vec![build_table(&t)]));
    assert_eq!(Clipboard::append_clipboard_data(&html).unwrap(), payload);
    let region = Clipboard::get_html(&payload).unwrap();
    assert_eq!(t, extract(&parse_html(&region)));
}
