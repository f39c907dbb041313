use qlp::clip::{Clip, Clipboard, ClipboardFormat};
use qlp::error::Error;
use qlp::header::{decode, encode, FormatError};

const PRE: &str = "<html><body><!--StartFragment-->";
const POST: &str = "<!--EndFragment--></body></html>";

fn framed(fragment: &str) -> String {
    format!("{}{}{}", PRE, fragment, POST)
}

#[test]
fn encode_writes_exact_header() {
    let body = framed("<b>x</b>");
    let raw = encode(&body).unwrap();
    let expected = format!(
        "Version:0.9\r\nStartHTML:0000000105\r\nEndHTML:0000000177\r\nStartFragment:0000000137\r\nEndFragment:0000000145\r\n{}",
        body
    );
    assert_eq!(expected.as_bytes(), &raw[..]);
}

#[test]
fn header_round_trip() {
    let body = framed("<table><tr><td>うう</td></tr></table>");
    let raw = encode(&body).unwrap();
    let p = decode(&raw).unwrap();
    assert_eq!(b"0.9".to_vec(), p.header.version);
    assert_eq!(105, p.header.start_html);
    assert_eq!(137, p.header.start_fragment);
    assert_eq!(105 + body.len() as u32, p.header.end_html);
    assert_eq!(105 + body.len() as u32 - 32, p.header.end_fragment);
    assert_eq!(body.as_bytes(), &p.html[..]);
    assert_eq!("<table><tr><td>うう</td></tr></table>".as_bytes(), &p.fragment[..]);
}

#[test]
fn round_trip_drops_final_crlf_of_fragment() {
    let body = framed("abc\r\n");
    let p = decode(&encode(&body).unwrap()).unwrap();
    assert_eq!(b"abc".to_vec(), p.fragment);
    assert_eq!(body.as_bytes(), &p.html[..]);
}

#[test]
fn decoded_offsets_are_ordered() {
    let doc = "<html>\r\n<body>\r\n<!--StartFragment-->hi<!--EndFragment-->\r\n</body>\r\n</html>";
    let header_len = 105;
    let start_fragment = header_len + doc.find("hi").unwrap();
    let end_fragment = start_fragment + 2;
    let raw = format!(
        "Version:1.0\r\nStartHTML:{:010}\r\nEndHTML:{:010}\r\nStartFragment:{:010}\r\nEndFragment:{:010}\r\n{}",
        header_len,
        header_len + doc.len(),
        start_fragment,
        end_fragment,
        doc
    );
    let p = decode(raw.as_bytes()).unwrap();
    let h = &p.header;
    assert!(h.start_html <= h.start_fragment);
    assert!(h.start_fragment <= h.end_fragment);
    assert!(h.end_fragment <= h.end_html);
    assert_eq!(b"hi".to_vec(), p.fragment);
    assert_eq!(b"1.0".to_vec(), h.version);
}

#[test]
fn blank_lines_and_spaces_in_header_are_skipped() {
    let raw = b"\r\n  Version:0.9  \r\n\r\nStartHTML:10\nEndHTML:12\n\tStartFragment:10\r\nEndFragment:12\r\nxyz";
    let buf = raw.to_vec();
    let p = decode(&buf).unwrap();
    assert_eq!(10, p.header.start_html);
    assert_eq!(12, p.header.end_html);
    assert_eq!(buf[10..12].to_vec(), p.fragment);
}

#[test]
fn missing_field_is_reported() {
    let raw = b"Version:0.9\r\nStartHTML:0000000105\r\nEndHTML:0000000110\r\nStartFragment:0000000105\r\n";
    assert!(matches!(decode(raw), Err(FormatError::MissingHeaderField)));
    assert!(matches!(decode(b""), Err(FormatError::MissingHeaderField)));
}

#[test]
fn unreadable_offset_is_reported() {
    let raw = b"Version:0.9\r\nStartHTML:12a\r\nEndHTML:1\r\nStartFragment:1\r\nEndFragment:1\r\n";
    assert!(matches!(decode(raw), Err(FormatError::MissingHeaderField)));
    let raw = b"Version:0.9\r\nStartHTML:99999999999\r\nEndHTML:1\r\nStartFragment:1\r\nEndFragment:1\r\n";
    assert!(matches!(decode(raw), Err(FormatError::MissingHeaderField)));
}

#[test]
fn fields_out_of_order_are_missing() {
    let raw = b"StartHTML:0000000000\r\nVersion:0.9\r\nEndHTML:0000000000\r\nStartFragment:0000000000\r\nEndFragment:0000000000\r\n";
    assert!(matches!(decode(raw), Err(FormatError::MissingHeaderField)));
}

#[test]
fn offsets_out_of_order_are_reported() {
    let raw = b"Version:0.9\r\nStartHTML:0000000005\r\nEndHTML:0000000010\r\nStartFragment:0000000009\r\nEndFragment:0000000007\r\n";
    assert!(matches!(decode(raw), Err(FormatError::InvalidOffsets)));
}

#[test]
fn offsets_past_the_end_are_reported() {
    let raw = b"Version:0.9\r\nStartHTML:0000000005\r\nEndHTML:0000009999\r\nStartFragment:0000000006\r\nEndFragment:0000000007\r\n";
    assert!(matches!(decode(raw), Err(FormatError::InvalidOffsets)));
}

#[test]
fn unframed_document_is_refused() {
    assert!(matches!(encode("<p>x</p>"), Err(FormatError::MissingFragmentMarkers)));
    let short = format!("{}{}", PRE, "<!--EndFragment-->");
    assert!(matches!(encode(&short), Err(FormatError::MissingFragmentMarkers)));
    assert!(matches!(
        Clipboard::append_clipboard_data("<html></html>"),
        Err(FormatError::MissingFragmentMarkers)
    ));
}

#[test]
fn get_html_gives_document_region() {
    let body = framed("<i>z</i>");
    let raw = Clipboard::append_clipboard_data(&body).unwrap();
    assert_eq!(body.as_bytes(), &Clipboard::get_html(&raw).unwrap()[..]);
    assert!(matches!(Clipboard::get_html(b"nothing"), Err(FormatError::MissingHeaderField)));
}

#[test]
fn clipboard_here_is_empty_text() {
    let mut clip = Clipboard::new();
    let format = clip.determine_format().unwrap();
    assert_eq!("", clip.get_data(&format).unwrap().to_string());
    assert!(clip.set_data(&ClipboardFormat::Html("x".to_string())).is_ok());
}

#[test]
fn clipboard_format_contents() {
    assert_eq!("", ClipboardFormat::default().to_string());
    assert_eq!("<b>", ClipboardFormat::Html("<b>".to_string()).to_string());
    assert_eq!("t", ClipboardFormat::Text("t".to_string()).to_string());
}

#[test]
fn error_keeps_message() {
    let e = Error::new("Clipboard format not available");
    assert_eq!("Clipboard format not available", e.to_string());
    assert_eq!("Clipboard format not available", e.message);
}

fn names(list: &[&str]) -> Vec<String> {
    list.iter().map(|n| n.to_string()).collect()
}

#[test]
fn format_is_chosen_from_names() {
    let html = Clipboard::format_from_names(&names(&["CF_UNICODETEXT", "HTML Format"])).unwrap();
    assert!(matches!(html, ClipboardFormat::Html(ref s) if s.is_empty()));
    let text = Clipboard::format_from_names(&names(&["CF_OEMTEXT"])).unwrap();
    assert!(matches!(text, ClipboardFormat::Text(ref s) if s.is_empty()));
    let err = Clipboard::format_from_names(&names(&["CF_BITMAP"])).unwrap_err();
    assert_eq!("Clipboard format not available", err.to_string());
}
