//! The textual header that frames an HTML clipboard payload: five `Key:Value`
//! lines (`Version`, `StartHTML`, `EndHTML`, `StartFragment`, `EndFragment`)
//! whose offsets are byte positions into the buffer that holds the header and
//! the document.
use vstd::prelude::*;
use vstd::string::StringSliceAdditionalSpecFns;

verus! {

pub const LF: u8 = 10;

pub const CR: u8 = 13;

pub const COLON: u8 = 58;

/// Length of the header that `encode` writes: five CRLF-terminated lines,
/// the four offsets with ten digits each.
pub const HEADER_LEN: usize = 105;

/// Length of `<html><body><!--StartFragment-->`.
pub const PREAMBLE_LEN: usize = 32;

/// Length of `<!--EndFragment--></body></html>`.
pub const POSTAMBLE_LEN: usize = 32;

/// Why a payload could not be decoded or encoded.
#[derive(Debug, Clone, Copy, PartialEq, Eq, Structural)]
pub enum FormatError {
    /// One of the five header lines is absent, or its value cannot be read.
    MissingHeaderField,
    /// The offsets are not ordered, or point past the end of the buffer.
    InvalidOffsets,
    /// The document to encode does not start with the fragment preamble and
    /// end with the fragment postamble.
    MissingFragmentMarkers,
    /// An offset of the encoded payload does not fit in 32 bits.
    TooLarge,
}

// ---------------------------------------------------------------------------
// The model
// ---------------------------------------------------------------------------

pub open spec fn is_ws(b: u8) -> bool {
    b == 32 || b == 9 || b == CR
}

pub open spec fn is_digit(b: u8) -> bool {
    48 <= b <= 57
}

pub open spec fn key_version() -> Seq<u8> {
    seq!['V' as u8, 'e' as u8, 'r' as u8, 's' as u8, 'i' as u8, 'o' as u8, 'n' as u8]
}

pub open spec fn key_start_html() -> Seq<u8> {
    seq![
        'S' as u8, 't' as u8, 'a' as u8, 'r' as u8, 't' as u8,
        'H' as u8, 'T' as u8, 'M' as u8, 'L' as u8,
    ]
}

pub open spec fn key_end_html() -> Seq<u8> {
    seq!['E' as u8, 'n' as u8, 'd' as u8, 'H' as u8, 'T' as u8, 'M' as u8, 'L' as u8]
}

pub open spec fn key_start_fragment() -> Seq<u8> {
    seq![
        'S' as u8, 't' as u8, 'a' as u8, 'r' as u8, 't' as u8,
        'F' as u8, 'r' as u8, 'a' as u8, 'g' as u8, 'm' as u8, 'e' as u8, 'n' as u8, 't' as u8,
    ]
}

pub open spec fn key_end_fragment() -> Seq<u8> {
    seq![
        'E' as u8, 'n' as u8, 'd' as u8,
        'F' as u8, 'r' as u8, 'a' as u8, 'g' as u8, 'm' as u8, 'e' as u8, 'n' as u8, 't' as u8,
    ]
}

/// The version that `encode` writes: `0.9`.
pub open spec fn version_value() -> Seq<u8> {
    seq!['0' as u8, '.' as u8, '9' as u8]
}

pub open spec fn crlf() -> Seq<u8> {
    seq![CR, LF]
}

/// `<html><body><!--StartFragment-->`
pub open spec fn preamble() -> Seq<u8> {
    seq![
        '<' as u8, 'h' as u8, 't' as u8, 'm' as u8, 'l' as u8, '>' as u8,
        '<' as u8, 'b' as u8, 'o' as u8, 'd' as u8, 'y' as u8, '>' as u8,
        '<' as u8, '!' as u8, '-' as u8, '-' as u8,
        'S' as u8, 't' as u8, 'a' as u8, 'r' as u8, 't' as u8,
        'F' as u8, 'r' as u8, 'a' as u8, 'g' as u8, 'm' as u8, 'e' as u8, 'n' as u8, 't' as u8,
        '-' as u8, '-' as u8, '>' as u8,
    ]
}

/// `<!--EndFragment--></body></html>`
pub open spec fn postamble() -> Seq<u8> {
    seq![
        '<' as u8, '!' as u8, '-' as u8, '-' as u8,
        'E' as u8, 'n' as u8, 'd' as u8,
        'F' as u8, 'r' as u8, 'a' as u8, 'g' as u8, 'm' as u8, 'e' as u8, 'n' as u8, 't' as u8,
        '-' as u8, '-' as u8, '>' as u8,
        '<' as u8, '/' as u8, 'b' as u8, 'o' as u8, 'd' as u8, 'y' as u8, '>' as u8,
        '<' as u8, '/' as u8, 'h' as u8, 't' as u8, 'm' as u8, 'l' as u8, '>' as u8,
    ]
}

/// Index of the first line feed at or after `pos`, or the buffer's length.
pub open spec fn line_end(raw: Seq<u8>, pos: int) -> int
    decreases raw.len() - pos,
{
    if 0 <= pos < raw.len() && raw[pos] != LF {
        line_end(raw, pos + 1)
    } else {
        pos
    }
}

/// First index in `[i, e)` that holds no blank, or `e`.
pub open spec fn skip_ws(raw: Seq<u8>, i: int, e: int) -> int
    decreases e - i,
{
    if 0 <= i < e && i < raw.len() && is_ws(raw[i]) {
        skip_ws(raw, i + 1, e)
    } else {
        i
    }
}

/// End of `[a, j)` once trailing blanks are dropped.
pub open spec fn back_ws(raw: Seq<u8>, a: int, j: int) -> int
    decreases j - a,
{
    if a < j && 0 < j <= raw.len() && is_ws(raw[j - 1]) {
        back_ws(raw, a, j - 1)
    } else {
        j
    }
}

/// The next `n` lines from `pos` on that are not blank, each trimmed of
/// blanks at both ends (fewer where the buffer ends first).
pub open spec fn header_lines(raw: Seq<u8>, pos: int, n: nat) -> Seq<Seq<u8>>
    decreases raw.len() + 1 - pos,
{
    if n == 0 || pos < 0 || pos >= raw.len() {
        Seq::empty()
    } else {
        let e = line_end(raw, pos);
        let a = skip_ws(raw, pos, e);
        let b = back_ws(raw, a, e);
        proof {
            lemma_line_end(raw, pos);
        }
        if a == b {
            header_lines(raw, e + 1, n)
        } else {
            seq![raw.subrange(a, b)] + header_lines(raw, e + 1, (n - 1) as nat)
        }
    }
}

/// What follows `key:` on a line that starts so.
pub open spec fn field_value(line: Seq<u8>, key: Seq<u8>) -> Option<Seq<u8>> {
    if line.len() > key.len() && line.subrange(0, key.len() as int) == key && line[key.len()
        as int] == COLON {
        Some(line.subrange(key.len() + 1int, line.len() as int))
    } else {
        None
    }
}

/// The number that a string of decimal digits writes.
pub open spec fn decimal(s: Seq<u8>) -> nat
    decreases s.len(),
{
    if s.len() == 0 {
        0
    } else {
        decimal(s.drop_last()) * 10 + (s.last() - 48) as nat
    }
}

pub open spec fn all_digits(s: Seq<u8>) -> bool {
    forall|i: int| 0 <= i < s.len() ==> is_digit(#[trigger] s[i])
}

/// The offset on a line `key:digits`, where the digits write a number that
/// fits in 32 bits.
pub open spec fn offset_value(line: Seq<u8>, key: Seq<u8>) -> Option<nat> {
    match field_value(line, key) {
        Some(v) => if v.len() > 0 && all_digits(v) && decimal(v) <= u32::MAX {
            Some(decimal(v))
        } else {
            None
        },
        None => None,
    }
}

/// The header as numbers.
pub struct HeaderModel {
    pub version: Seq<u8>,
    pub start_html: nat,
    pub end_html: nat,
    pub start_fragment: nat,
    pub end_fragment: nat,
}

impl HeaderModel {
    pub open spec fn offsets_ordered(self) -> bool {
        self.start_html <= self.start_fragment <= self.end_fragment <= self.end_html
    }
}

/// The five fields, read from the first five lines of `raw` that are not blank.
pub open spec fn parse_header(raw: Seq<u8>) -> Option<HeaderModel> {
    let ls = header_lines(raw, 0, 5);
    if ls.len() == 5 && field_value(ls[0], key_version()) is Some && offset_value(
        ls[1],
        key_start_html(),
    ) is Some && offset_value(ls[2], key_end_html()) is Some && offset_value(
        ls[3],
        key_start_fragment(),
    ) is Some && offset_value(ls[4], key_end_fragment()) is Some {
        Some(
            HeaderModel {
                version: field_value(ls[0], key_version())->Some_0,
                start_html: offset_value(ls[1], key_start_html())->Some_0,
                end_html: offset_value(ls[2], key_end_html())->Some_0,
                start_fragment: offset_value(ls[3], key_start_fragment())->Some_0,
                end_fragment: offset_value(ls[4], key_end_fragment())->Some_0,
            },
        )
    } else {
        None
    }
}

/// `s` without a final CRLF, where it ends with one.
pub open spec fn trim_crlf(s: Seq<u8>) -> Seq<u8> {
    if s.len() >= 2 && s[s.len() - 2] == CR && s[s.len() - 1] == LF {
        s.subrange(0, s.len() - 2)
    } else {
        s
    }
}

/// A decoded payload: the header, the document region and the fragment region.
pub struct PayloadModel {
    pub header: HeaderModel,
    pub html: Seq<u8>,
    pub fragment: Seq<u8>,
}

/// What decoding `raw` gives.
pub open spec fn decoded(raw: Seq<u8>) -> Result<PayloadModel, FormatError> {
    match parse_header(raw) {
        None => Err(FormatError::MissingHeaderField),
        Some(h) => if h.offsets_ordered() && h.end_html <= raw.len() {
            Ok(
                PayloadModel {
                    header: h,
                    html: trim_crlf(raw.subrange(h.start_html as int, h.end_html as int)),
                    fragment: trim_crlf(
                        raw.subrange(h.start_fragment as int, h.end_fragment as int),
                    ),
                },
            )
        } else {
            Err(FormatError::InvalidOffsets)
        },
    }
}

/// The last `k` decimal digits of `n`.
pub open spec fn digits(n: nat, k: nat) -> Seq<u8>
    decreases k,
{
    if k == 0 {
        Seq::empty()
    } else {
        digits(n / 10, (k - 1) as nat).push((n % 10 + 48) as u8)
    }
}

/// `key:` followed by `v` in ten digits and CRLF.
pub open spec fn offset_line(key: Seq<u8>, v: nat) -> Seq<u8> {
    key + seq![COLON] + digits(v, 10) + crlf()
}

pub open spec fn header_block(sh: nat, eh: nat, sf: nat, ef: nat) -> Seq<u8> {
    key_version() + seq![COLON] + version_value() + crlf() + offset_line(key_start_html(), sh)
        + offset_line(key_end_html(), eh) + offset_line(key_start_fragment(), sf) + offset_line(
        key_end_fragment(),
        ef,
    )
}

/// `body` starts with the fragment preamble and ends with the fragment
/// postamble, the two not overlapping.
pub open spec fn is_framed(body: Seq<u8>) -> bool {
    body.len() >= PREAMBLE_LEN + POSTAMBLE_LEN && body.subrange(0, PREAMBLE_LEN as int)
        == preamble() && body.subrange(body.len() - POSTAMBLE_LEN, body.len() as int)
        == postamble()
}

/// What encoding the document `body` gives.
pub open spec fn encoded(body: Seq<u8>) -> Result<Seq<u8>, FormatError> {
    if !is_framed(body) {
        Err(FormatError::MissingFragmentMarkers)
    } else if HEADER_LEN + body.len() > u32::MAX {
        Err(FormatError::TooLarge)
    } else {
        let end_html = (HEADER_LEN + body.len()) as nat;
        Ok(
            header_block(
                HEADER_LEN as nat,
                end_html,
                (HEADER_LEN + PREAMBLE_LEN) as nat,
                (end_html - POSTAMBLE_LEN) as nat,
            ) + body,
        )
    }
}

// ---------------------------------------------------------------------------
// Executable header and payload
// ---------------------------------------------------------------------------

/// The five header fields of a payload.
#[derive(Debug, Clone)]
pub struct FragmentHeader {
    /// The `Version` value as written (ASCII).
    pub version: Vec<u8>,
    pub start_html: u32,
    pub end_html: u32,
    pub start_fragment: u32,
    pub end_fragment: u32,
}

impl View for FragmentHeader {
    type V = HeaderModel;

    open spec fn view(&self) -> HeaderModel {
        HeaderModel {
            version: self.version@,
            start_html: self.start_html as nat,
            end_html: self.end_html as nat,
            start_fragment: self.start_fragment as nat,
            end_fragment: self.end_fragment as nat,
        }
    }
}

impl FragmentHeader {
    /// `start_html <= start_fragment <= end_fragment <= end_html`.
    pub open spec fn wf(&self) -> bool {
        self@.offsets_ordered()
    }
}

/// A decoded payload: its header, the document region that a parser reads,
/// and the fragment region.
#[derive(Debug, Clone)]
pub struct HtmlPayload {
    pub header: FragmentHeader,
    pub html: Vec<u8>,
    pub fragment: Vec<u8>,
}

impl View for HtmlPayload {
    type V = PayloadModel;

    open spec fn view(&self) -> PayloadModel {
        PayloadModel { header: self.header@, html: self.html@, fragment: self.fragment@ }
    }
}

fn is_blank(b: u8) -> (r: bool)
    ensures
        r == is_ws(b),
{
    b == 32 || b == 9 || b == CR
}

fn key_version_bytes() -> (r: Vec<u8>)
    ensures
        r@ == key_version(),
{
    vec!['V' as u8, 'e' as u8, 'r' as u8, 's' as u8, 'i' as u8, 'o' as u8, 'n' as u8]
}

fn key_start_html_bytes() -> (r: Vec<u8>)
    ensures
        r@ == key_start_html(),
{
    vec![
        'S' as u8, 't' as u8, 'a' as u8, 'r' as u8, 't' as u8,
        'H' as u8, 'T' as u8, 'M' as u8, 'L' as u8,
    ]
}

fn key_end_html_bytes() -> (r: Vec<u8>)
    ensures
        r@ == key_end_html(),
{
    vec!['E' as u8, 'n' as u8, 'd' as u8, 'H' as u8, 'T' as u8, 'M' as u8, 'L' as u8]
}

fn key_start_fragment_bytes() -> (r: Vec<u8>)
    ensures
        r@ == key_start_fragment(),
{
    vec![
        'S' as u8, 't' as u8, 'a' as u8, 'r' as u8, 't' as u8,
        'F' as u8, 'r' as u8, 'a' as u8, 'g' as u8, 'm' as u8, 'e' as u8, 'n' as u8, 't' as u8,
    ]
}

fn key_end_fragment_bytes() -> (r: Vec<u8>)
    ensures
        r@ == key_end_fragment(),
{
    vec![
        'E' as u8, 'n' as u8, 'd' as u8,
        'F' as u8, 'r' as u8, 'a' as u8, 'g' as u8, 'm' as u8, 'e' as u8, 'n' as u8, 't' as u8,
    ]
}

fn version_bytes() -> (r: Vec<u8>)
    ensures
        r@ == version_value(),
{
    vec!['0' as u8, '.' as u8, '9' as u8]
}

fn preamble_bytes() -> (r: Vec<u8>)
    ensures
        r@ == preamble(),
{
    vec![
        '<' as u8, 'h' as u8, 't' as u8, 'm' as u8, 'l' as u8, '>' as u8,
        '<' as u8, 'b' as u8, 'o' as u8, 'd' as u8, 'y' as u8, '>' as u8,
        '<' as u8, '!' as u8, '-' as u8, '-' as u8,
        'S' as u8, 't' as u8, 'a' as u8, 'r' as u8, 't' as u8,
        'F' as u8, 'r' as u8, 'a' as u8, 'g' as u8, 'm' as u8, 'e' as u8, 'n' as u8, 't' as u8,
        '-' as u8, '-' as u8, '>' as u8,
    ]
}

fn postamble_bytes() -> (r: Vec<u8>)
    ensures
        r@ == postamble(),
{
    vec![
        '<' as u8, '!' as u8, '-' as u8, '-' as u8,
        'E' as u8, 'n' as u8, 'd' as u8,
        'F' as u8, 'r' as u8, 'a' as u8, 'g' as u8, 'm' as u8, 'e' as u8, 'n' as u8, 't' as u8,
        '-' as u8, '-' as u8, '>' as u8,
        '<' as u8, '/' as u8, 'b' as u8, 'o' as u8, 'd' as u8, 'y' as u8, '>' as u8,
        '<' as u8, '/' as u8, 'h' as u8, 't' as u8, 'm' as u8, 'l' as u8, '>' as u8,
    ]
}

/// The line that starts at `pos`: its trimmed bounds and its end.
fn line_span(raw: &[u8], pos: usize) -> (r: (usize, usize, usize))
    requires
        pos < raw@.len(),
    ensures
        r.2 == line_end(raw@, pos as int),
        r.0 == skip_ws(raw@, pos as int, r.2 as int),
        r.1 == back_ws(raw@, r.0 as int, r.2 as int),
        pos <= r.0 <= r.1 <= r.2 <= raw@.len(),
{
    let mut e = pos;
    while e < raw.len() && raw[e] != LF
        invariant
            pos <= e <= raw@.len(),
            line_end(raw@, e as int) == line_end(raw@, pos as int),
        decreases raw@.len() - e,
    {
        e += 1;
    }
    let mut a = pos;
    while a < e && is_blank(raw[a])
        invariant
            pos <= a <= e <= raw@.len(),
            skip_ws(raw@, a as int, e as int) == skip_ws(raw@, pos as int, e as int),
        decreases e - a,
    {
        a += 1;
    }
    let mut b = e;
    while b > a && is_blank(raw[b - 1])
        invariant
            pos <= a <= b <= e <= raw@.len(),
            back_ws(raw@, a as int, b as int) == back_ws(raw@, a as int, e as int),
        decreases b - a,
    {
        b -= 1;
    }
    (a, b, e)
}

/// Bounds of the first five lines of `raw` that are not blank, trimmed.
fn header_spans(raw: &[u8]) -> (spans: Vec<(usize, usize)>)
    ensures
        spans@.len() <= 5,
        spans@.len() == header_lines(raw@, 0, 5).len(),
        forall|i: int|
            #![trigger spans@[i]]
            0 <= i < spans@.len() ==> spans@[i].0 <= spans@[i].1 <= raw@.len() && raw@.subrange(
                spans@[i].0 as int,
                spans@[i].1 as int,
            ) == header_lines(raw@, 0, 5)[i],
{
    let ghost full = header_lines(raw@, 0, 5);
    let mut spans: Vec<(usize, usize)> = Vec::new();
    let mut pos: usize = 0;
    while spans.len() < 5 && pos < raw.len()
        invariant
            spans@.len() <= 5,
            pos <= raw@.len(),
            full == header_lines(raw@, 0, 5),
            spans@.len() + header_lines(raw@, pos as int, (5 - spans@.len()) as nat).len()
                == full.len(),
            forall|i: int|
                #![trigger spans@[i]]
                0 <= i < spans@.len() ==> spans@[i].0 <= spans@[i].1 <= raw@.len()
                    && raw@.subrange(spans@[i].0 as int, spans@[i].1 as int) == full[i],
            forall|j: int|
                0 <= j < header_lines(raw@, pos as int, (5 - spans@.len()) as nat).len()
                    ==> #[trigger] header_lines(raw@, pos as int, (5 - spans@.len()) as nat)[j]
                    == full[spans@.len() + j],
        decreases raw@.len() - pos,
    {
        let ghost n = (5 - spans@.len()) as nat;
        let ghost rest = header_lines(raw@, pos as int, n);
        let (a, b, e) = line_span(raw, pos);
        let next = if e >= raw.len() {
            raw.len()
        } else {
            e + 1
        };
        assert(header_lines(raw@, next as int, n) == header_lines(raw@, e + 1, n));
        assert(header_lines(raw@, next as int, (n - 1) as nat) == header_lines(
            raw@,
            e + 1,
            (n - 1) as nat,
        ));
        if a != b {
            assert(rest[0] == raw@.subrange(a as int, b as int));
            assert(rest[0] == full[spans@.len() + 0int]);
            let ghost old_spans = spans@;
            spans.push((a, b));
            assert(spans@[old_spans.len() as int] == (a, b));
            assert forall|i: int| 0 <= i < spans@.len() implies spans@[i].0 <= spans@[i].1
                <= raw@.len() && raw@.subrange(spans@[i].0 as int, spans@[i].1 as int)
                == full[i] by {
                if i < old_spans.len() {
                    assert(spans@[i] == old_spans[i]);
                    assert(old_spans[i].0 <= old_spans[i].1 <= raw@.len());
                } else {
                    assert(i == old_spans.len());
                    assert(a <= b <= raw@.len());
                }
            }
            let ghost rest2 = header_lines(raw@, next as int, (n - 1) as nat);
            assert forall|j: int| 0 <= j < rest2.len() implies #[trigger] rest2[j] == full[spans@.len()
                + j] by {
                assert(rest2[j] == rest[j + 1]);
            }
        }
        pos = next;
    }
    assert(header_lines(raw@, pos as int, (5 - spans@.len()) as nat).len() == 0);
    spans
}

/// Whether the line `raw[a..b]` starts with `key:`.
fn has_field(raw: &[u8], a: usize, b: usize, key: &[u8]) -> (r: bool)
    requires
        a <= b <= raw@.len(),
    ensures
        r == field_value(raw@.subrange(a as int, b as int), key@) is Some,
{
    let ghost line = raw@.subrange(a as int, b as int);
    if b - a <= key.len() {
        return false;
    }
    let mut i: usize = 0;
    while i < key.len()
        invariant
            i <= key@.len(),
            a + key@.len() < b <= raw@.len(),
            line == raw@.subrange(a as int, b as int),
            forall|j: int| 0 <= j < i ==> line[j] == key@[j],
        decreases key@.len() - i,
    {
        if raw[a + i] != key[i] {
            assert(line.subrange(0, key@.len() as int)[i as int] != key@[i as int]);
            return false;
        }
        i += 1;
    }
    assert(line.subrange(0, key@.len() as int) =~= key@);
    raw[a + key.len()] == COLON
}

/// The offset on the line `raw[a..b]`, which should read `key:digits`.
fn read_offset(raw: &[u8], a: usize, b: usize, key: &[u8]) -> (r: Option<u32>)
    requires
        a <= b <= raw@.len(),
    ensures
        match r {
            Some(v) => offset_value(raw@.subrange(a as int, b as int), key@) == Some(v as nat),
            None => offset_value(raw@.subrange(a as int, b as int), key@) is None,
        },
{
    if !has_field(raw, a, b, key) {
        return None;
    }
    let start = a + key.len() + 1;
    let ghost v = raw@.subrange(start as int, b as int);
    assert(raw@.subrange(a as int, b as int).subrange(key@.len() + 1int, b - a) =~= v);
    assert(field_value(raw@.subrange(a as int, b as int), key@) == Some(v));
    if start >= b {
        return None;
    }
    let mut acc: u64 = 0;
    let mut i = start;
    while i < b
        invariant
            a <= b,
            start == a + key@.len() + 1,
            start <= i <= b <= raw@.len(),
            v == raw@.subrange(start as int, b as int),
            field_value(raw@.subrange(a as int, b as int), key@) == Some(v),
            acc == decimal(raw@.subrange(start as int, i as int)),
            acc <= u32::MAX,
            all_digits(raw@.subrange(start as int, i as int)),
        decreases b - i,
    {
        let c = raw[i];
        if c < 48 || c > 57 {
            assert(v[i - start] == c);
            assert(!is_digit(v[i - start]));
            assert(!all_digits(v));
            assert(offset_value(raw@.subrange(a as int, b as int), key@) is None);
            return None;
        }
        assert(raw@.subrange(start as int, i + 1).drop_last() =~= raw@.subrange(
            start as int,
            i as int,
        ));
        acc = acc * 10 + (c - 48) as u64;
        assert(raw@.subrange(start as int, i + 1).last() == c);
        assert(acc == decimal(raw@.subrange(start as int, i + 1)));
        if acc > u32::MAX as u64 {
            proof {
                assert(raw@.subrange(start as int, i + 1) =~= v.subrange(0, i + 1 - start));
                assert(v =~= v.subrange(0, v.len() as int));
                lemma_decimal_prefix(v, i + 1 - start, v.len() as int);
            }
            return None;
        }
        i += 1;
    }
    assert(raw@.subrange(start as int, i as int) == v);
    Some(acc as u32)
}

/// A copy of `raw[s..e]`.
fn copy_range(raw: &[u8], s: usize, e: usize) -> (r: Vec<u8>)
    requires
        s <= e <= raw@.len(),
    ensures
        r@ == raw@.subrange(s as int, e as int),
{
    let mut out: Vec<u8> = Vec::new();
    let mut i = s;
    while i < e
        invariant
            s <= i <= e <= raw@.len(),
            out@ == raw@.subrange(s as int, i as int),
        decreases e - i,
    {
        out.push(raw[i]);
        assert(out@ =~= raw@.subrange(s as int, i + 1));
        i += 1;
    }
    out
}

/// A copy of `raw[s..e]` without a final CRLF.
fn copy_trimmed(raw: &[u8], s: usize, e: usize) -> (r: Vec<u8>)
    requires
        s <= e <= raw@.len(),
    ensures
        r@ == trim_crlf(raw@.subrange(s as int, e as int)),
{
    let ghost region = raw@.subrange(s as int, e as int);
    if e - s >= 2 && raw[e - 2] == CR && raw[e - 1] == LF {
        assert(region[region.len() - 2] == CR && region[region.len() - 1] == LF);
        let r = copy_range(raw, s, e - 2);
        assert(r@ =~= region.subrange(0, region.len() - 2));
        r
    } else {
        copy_range(raw, s, e)
    }
}

/// Reads the header of an HTML clipboard payload and cuts out the document
/// and fragment regions that its offsets give.
///
/// Fails with `MissingHeaderField` when one of the five lines is absent or
/// its value cannot be read, and with `InvalidOffsets` when the offsets are
/// out of order or run past the buffer.
pub fn decode(raw: &[u8]) -> (r: Result<HtmlPayload, FormatError>)
    ensures
        match r {
            Ok(p) => decoded(raw@) == Ok::<PayloadModel, FormatError>(p@) && p.header.wf(),
            Err(e) => decoded(raw@) == Err::<PayloadModel, FormatError>(e),
        },
{
    let spans = header_spans(raw);
    let ghost ls = header_lines(raw@, 0, 5);
    if spans.len() < 5 {
        return Err(FormatError::MissingHeaderField);
    }
    let version_key = key_version_bytes();
    let (va, vb) = spans[0];
    if !has_field(raw, va, vb, version_key.as_slice()) {
        return Err(FormatError::MissingHeaderField);
    }
    let key = key_start_html_bytes();
    let start_html = match read_offset(raw, spans[1].0, spans[1].1, key.as_slice()) {
        Some(v) => v,
        None => return Err(FormatError::MissingHeaderField),
    };
    let key = key_end_html_bytes();
    let end_html = match read_offset(raw, spans[2].0, spans[2].1, key.as_slice()) {
        Some(v) => v,
        None => return Err(FormatError::MissingHeaderField),
    };
    let key = key_start_fragment_bytes();
    let start_fragment = match read_offset(raw, spans[3].0, spans[3].1, key.as_slice()) {
        Some(v) => v,
        None => return Err(FormatError::MissingHeaderField),
    };
    let key = key_end_fragment_bytes();
    let end_fragment = match read_offset(raw, spans[4].0, spans[4].1, key.as_slice()) {
        Some(v) => v,
        None => return Err(FormatError::MissingHeaderField),
    };
    assert(offset_value(ls[1], key_start_html()) == Some(start_html as nat));
    assert(offset_value(ls[2], key_end_html()) == Some(end_html as nat));
    assert(offset_value(ls[3], key_start_fragment()) == Some(start_fragment as nat));
    assert(offset_value(ls[4], key_end_fragment()) == Some(end_fragment as nat));
    let ghost h = parse_header(raw@)->Some_0;
    assert(h.start_html == start_html && h.end_html == end_html);
    assert(h.start_fragment == start_fragment && h.end_fragment == end_fragment);
    if !(start_html <= start_fragment && start_fragment <= end_fragment && end_fragment
        <= end_html && end_html as usize <= raw.len()) {
        return Err(FormatError::InvalidOffsets);
    }
    // The value follows `Version:`.
    let version = copy_range(raw, va + version_key.len() + 1, vb);
    assert(version@ =~= field_value(ls[0], key_version())->Some_0);
    let html = copy_trimmed(raw, start_html as usize, end_html as usize);
    let fragment = copy_trimmed(raw, start_fragment as usize, end_fragment as usize);
    let header = FragmentHeader { version, start_html, end_html, start_fragment, end_fragment };
    Ok(HtmlPayload { header, html, fragment })
}

fn push_all(out: &mut Vec<u8>, src: &[u8])
    ensures
        final(out)@ == old(out)@ + src@,
{
    let mut i: usize = 0;
    while i < src.len()
        invariant
            i <= src@.len(),
            out@ == old(out)@ + src@.subrange(0, i as int),
        decreases src@.len() - i,
    {
        out.push(src[i]);
        assert(out@ =~= old(out)@ + src@.subrange(0, i + 1));
        i += 1;
    }
    assert(src@.subrange(0, src@.len() as int) =~= src@);
}

fn push_digits(out: &mut Vec<u8>, n: u32, k: usize)
    ensures
        final(out)@ == old(out)@ + digits(n as nat, k as nat),
    decreases k,
{
    if k > 0 {
        push_digits(out, n / 10, k - 1);
        out.push((n % 10 + 48) as u8);
        assert(out@ =~= old(out)@ + digits(n as nat, k as nat));
    }
}

fn push_offset_line(out: &mut Vec<u8>, key: &[u8], v: u32)
    ensures
        final(out)@ == old(out)@ + offset_line(key@, v as nat),
{
    push_all(out, key);
    out.push(COLON);
    push_digits(out, v, 10);
    out.push(CR);
    out.push(LF);
    assert(out@ =~= old(out)@ + offset_line(key@, v as nat));
}

/// Whether `s[at..at + pat.len()]` is `pat`.
fn matches_at(s: &[u8], at: usize, pat: &[u8]) -> (r: bool)
    requires
        at + pat@.len() <= s@.len(),
    ensures
        r == (s@.subrange(at as int, at + pat@.len()) == pat@),
{
    let n = s.len();
    let mut i: usize = 0;
    while i < pat.len()
        invariant
            i <= pat@.len(),
            n == s@.len(),
            at + pat@.len() <= s@.len(),
            forall|j: int| 0 <= j < i ==> s@[at + j] == pat@[j],
        decreases pat@.len() - i,
    {
        if s[at + i] != pat[i] {
            assert(s@.subrange(at as int, at + pat@.len())[i as int] != pat@[i as int]);
            return false;
        }
        i += 1;
    }
    assert(s@.subrange(at as int, at + pat@.len()) =~= pat@);
    true
}

/// Frames the serialized document `body` with a header whose offsets give
/// the document (all of `body`) and the fragment between the preamble
/// `<html><body><!--StartFragment-->` and the postamble
/// `<!--EndFragment--></body></html>`, in bytes of the whole buffer.
///
/// Fails with `MissingFragmentMarkers` when `body` does not start with the
/// preamble and end with the postamble, and with `TooLarge` when an offset
/// would not fit in 32 bits.
pub fn encode(body: &str) -> (r: Result<Vec<u8>, FormatError>)
    ensures
        match r {
            Ok(v) => encoded(body.spec_bytes()) == Ok::<Seq<u8>, FormatError>(v@),
            Err(e) => encoded(body.spec_bytes()) == Err::<Seq<u8>, FormatError>(e),
        },
{
    let bytes = body.as_bytes();
    if bytes.len() < PREAMBLE_LEN + POSTAMBLE_LEN {
        return Err(FormatError::MissingFragmentMarkers);
    }
    let pre = preamble_bytes();
    let post = postamble_bytes();
    if !matches_at(bytes, 0, pre.as_slice()) || !matches_at(
        bytes,
        bytes.len() - POSTAMBLE_LEN,
        post.as_slice(),
    ) {
        return Err(FormatError::MissingFragmentMarkers);
    }
    if bytes.len() > u32::MAX as usize - HEADER_LEN {
        return Err(FormatError::TooLarge);
    }
    let end_html = (HEADER_LEN + bytes.len()) as u32;
    let mut out: Vec<u8> = Vec::new();
    let key = key_version_bytes();
    push_all(&mut out, key.as_slice());
    out.push(COLON);
    let version = version_bytes();
    push_all(&mut out, version.as_slice());
    out.push(CR);
    out.push(LF);
    let key = key_start_html_bytes();
    push_offset_line(&mut out, key.as_slice(), HEADER_LEN as u32);
    let key = key_end_html_bytes();
    push_offset_line(&mut out, key.as_slice(), end_html);
    let key = key_start_fragment_bytes();
    push_offset_line(&mut out, key.as_slice(), (HEADER_LEN + PREAMBLE_LEN) as u32);
    let key = key_end_fragment_bytes();
    push_offset_line(&mut out, key.as_slice(), end_html - POSTAMBLE_LEN as u32);
    push_all(&mut out, bytes);
    assert(out@ =~= encoded(body.spec_bytes())->Ok_0);
    Ok(out)
}

// ---------------------------------------------------------------------------
// Lemmas
// ---------------------------------------------------------------------------

pub proof fn lemma_line_end(raw: Seq<u8>, pos: int)
    requires
        0 <= pos <= raw.len(),
    ensures
        pos <= line_end(raw, pos) <= raw.len(),
        line_end(raw, pos) < raw.len() ==> raw[line_end(raw, pos)] == LF,
        forall|i: int| pos <= i < line_end(raw, pos) ==> raw[i] != LF,
    decreases raw.len() - pos,
{
    if pos < raw.len() && raw[pos] != LF {
        lemma_line_end(raw, pos + 1);
    }
}

proof fn lemma_line_end_at(raw: Seq<u8>, pos: int, k: int)
    requires
        0 <= pos <= k < raw.len(),
        raw[k] == LF,
        forall|i: int| pos <= i < k ==> raw[i] != LF,
    ensures
        line_end(raw, pos) == k,
    decreases k - pos,
{
    if pos < k {
        lemma_line_end_at(raw, pos + 1, k);
    }
}

proof fn lemma_decimal_prefix(s: Seq<u8>, j: int, k: int)
    requires
        0 <= j <= k <= s.len(),
    ensures
        decimal(s.subrange(0, j)) <= decimal(s.subrange(0, k)),
    decreases k - j,
{
    if j < k {
        lemma_decimal_prefix(s, j, k - 1);
        assert(s.subrange(0, k).drop_last() =~= s.subrange(0, k - 1));
    }
}

/// Ten digits read back give the number they were written from.
pub proof fn lemma_decimal_digits(n: nat, k: nat)
    ensures
        digits(n, k).len() == k,
        all_digits(digits(n, k)),
        decimal(digits(n, k)) == n % pow10(k),
    decreases k,
{
    if k > 0 {
        lemma_decimal_digits(n / 10, (k - 1) as nat);
        let d = digits(n, k);
        assert(d.drop_last() =~= digits(n / 10, (k - 1) as nat));
        let p = pow10((k - 1) as nat);
        lemma_pow10_pos((k - 1) as nat);
        vstd::arithmetic::div_mod::lemma_mod_breakdown(n as int, 10, p as int);
        assert(pow10(k) == 10 * p);
        assert forall|i: int| 0 <= i < d.len() implies is_digit(#[trigger] d[i]) by {
            if i < d.len() - 1 {
                assert(d[i] == digits(n / 10, (k - 1) as nat)[i]);
            }
        }
    }
}

/// A line `content` followed by CRLF at `pos` is the next header line.
proof fn lemma_line_at(raw: Seq<u8>, pos: int, content: Seq<u8>, n: nat)
    requires
        0 <= pos,
        pos + content.len() + 2 <= raw.len(),
        content.len() > 0,
        n > 0,
        raw.subrange(pos, pos + content.len() + 2) == content + crlf(),
        forall|i: int| 0 <= i < content.len() ==> #[trigger] content[i] != LF,
        !is_ws(content[0]),
        !is_ws(content.last()),
    ensures
        header_lines(raw, pos, n) == seq![content] + header_lines(
            raw,
            pos + content.len() + 2,
            (n - 1) as nat,
        ),
{
    let k = pos + content.len() + 1;
    assert forall|i: int| 0 <= i < content.len() + 2 implies raw[pos + i] == #[trigger] (content
        + crlf())[i] by {
        assert(raw.subrange(pos, pos + content.len() + 2)[i] == raw[pos + i]);
    }
    assert(raw[k] == (content + crlf())[content.len() + 1int]);
    assert forall|i: int| pos <= i < k implies raw[i] != LF by {
        assert(raw[pos + (i - pos)] == (content + crlf())[i - pos]);
    }
    lemma_line_end_at(raw, pos, k);
    assert(raw[pos + 0] == (content + crlf())[0]);
    assert(skip_ws(raw, pos, k) == pos);
    assert(raw[pos + content.len()] == (content + crlf())[content.len() as int]);
    assert(raw[pos + (content.len() - 1)] == (content + crlf())[content.len() - 1]);
    assert(back_ws(raw, pos, k) == back_ws(raw, pos, k - 1));
    assert(back_ws(raw, pos, k - 1) == k - 1);
    assert(raw.subrange(pos, k - 1) =~= content);
}

/// A header line that encoding writes: `key:` and ten digits.
proof fn lemma_offset_line(key: Seq<u8>, v: nat)
    requires
        key.len() > 0,
        !is_ws(key[0]),
        forall|i: int| 0 <= i < key.len() ==> #[trigger] key[i] != LF && key[i] != COLON,
        v <= u32::MAX,
    ensures
        ({
            let c = key + seq![COLON] + digits(v, 10);
            &&& c.len() == key.len() + 11
            &&& offset_line(key, v) == c + crlf()
            &&& forall|i: int| 0 <= i < c.len() ==> #[trigger] c[i] != LF
            &&& !is_ws(c[0])
            &&& !is_ws(c.last())
            &&& offset_value(c, key) == Some(v)
        }),
{
    let c = key + seq![COLON] + digits(v, 10);
    let d = digits(v, 10);
    lemma_decimal_digits(v, 10);
    reveal_with_fuel(pow10, 11);
    assert(pow10(10) == 10000000000);
    assert forall|i: int| 0 <= i < c.len() implies #[trigger] c[i] != LF by {
        if i > key.len() {
            assert(c[i] == d[i - key.len() - 1]);
            assert(is_digit(d[i - key.len() - 1]));
        }
    }
    assert(c.last() == d[9]);
    assert(is_digit(d[9]));
    assert(c.subrange(0, key.len() as int) =~= key);
    assert(c.subrange(key.len() + 1int, c.len() as int) =~= d);
    assert(field_value(c, key) == Some(d));
}

/// Decoding what `encode` wrote gives back the header it wrote, the whole
/// document as the document region, and, as the fragment, what lies between
/// the fragment markers (less a final CRLF).
/// The five header lines that `encode` writes for `body`, without their CRLF.
spec fn encoded_lines(body: Seq<u8>) -> Seq<Seq<u8>> {
    let eh = (HEADER_LEN + body.len()) as nat;
    seq![
        key_version() + seq![COLON] + version_value(),
        key_start_html() + seq![COLON] + digits(HEADER_LEN as nat, 10),
        key_end_html() + seq![COLON] + digits(eh, 10),
        key_start_fragment() + seq![COLON] + digits((HEADER_LEN + PREAMBLE_LEN) as nat, 10),
        key_end_fragment() + seq![COLON] + digits((eh - POSTAMBLE_LEN) as nat, 10),
    ]
}

/// The header lines that decoding finds in an encoded payload are the five
/// lines that encoding wrote.
#[verifier::spinoff_prover]
proof fn lemma_encoded_header_lines(body: Seq<u8>)
    requires
        is_framed(body),
        HEADER_LEN + body.len() <= u32::MAX,
    ensures
        header_lines(encoded(body)->Ok_0, 0, 5) == encoded_lines(body),
{
    let raw = encoded(body)->Ok_0;
    let eh: nat = (HEADER_LEN + body.len()) as nat;
    let c = encoded_lines(body);
    lemma_offset_line(key_start_html(), HEADER_LEN as nat);
    lemma_offset_line(key_end_html(), eh);
    lemma_offset_line(key_start_fragment(), (HEADER_LEN + PREAMBLE_LEN) as nat);
    lemma_offset_line(key_end_fragment(), (eh - POSTAMBLE_LEN) as nat);
    let l0 = c[0] + crlf();
    let l1 = c[1] + crlf();
    let l2 = c[2] + crlf();
    let l3 = c[3] + crlf();
    let l4 = c[4] + crlf();
    assert(raw =~= l0 + l1 + l2 + l3 + l4 + body);
    assert(l0.len() == 13 && l1.len() == 22 && l2.len() == 20 && l3.len() == 26 && l4.len()
        == 24);
    assert(raw.subrange(0, 13) =~= l0);
    assert(raw.subrange(13, 35) =~= l1);
    assert(raw.subrange(35, 55) =~= l2);
    assert(raw.subrange(55, 81) =~= l3);
    assert(raw.subrange(81, 105) =~= l4);
    assert forall|i: int| 0 <= i < c[0].len() implies #[trigger] c[0][i] != LF by {}
    lemma_line_at(raw, 0, c[0], 5);
    lemma_line_at(raw, 13, c[1], 4);
    lemma_line_at(raw, 35, c[2], 3);
    lemma_line_at(raw, 55, c[3], 2);
    lemma_line_at(raw, 81, c[4], 1);
    assert(header_lines(raw, 0, 5) =~= c);
}

/// Decoding what `encode` wrote for a framed `body` that fits gives back the
/// header it wrote, the whole of `body` as the document region, and, as the
/// fragment, what lies between the fragment markers (less a final CRLF).
#[verifier::spinoff_prover]
pub proof fn lemma_decode_encode(body: Seq<u8>)
    requires
        is_framed(body),
        HEADER_LEN + body.len() <= u32::MAX,
    ensures
        encoded(body) is Ok,
        decoded(encoded(body)->Ok_0) == Ok::<PayloadModel, FormatError>(
            PayloadModel {
                header: HeaderModel {
                    version: version_value(),
                    start_html: HEADER_LEN as nat,
                    end_html: (HEADER_LEN + body.len()) as nat,
                    start_fragment: (HEADER_LEN + PREAMBLE_LEN) as nat,
                    end_fragment: (HEADER_LEN + body.len() - POSTAMBLE_LEN) as nat,
                },
                html: body,
                fragment: trim_crlf(
                    body.subrange(PREAMBLE_LEN as int, body.len() - POSTAMBLE_LEN),
                ),
            },
        ),
{
    let raw = encoded(body)->Ok_0;
    let sh: nat = HEADER_LEN as nat;
    let eh: nat = (HEADER_LEN + body.len()) as nat;
    let sf: nat = (HEADER_LEN + PREAMBLE_LEN) as nat;
    let ef: nat = (eh - POSTAMBLE_LEN) as nat;
    let c = encoded_lines(body);
    lemma_encoded_header_lines(body);
    lemma_offset_line(key_start_html(), sh);
    lemma_offset_line(key_end_html(), eh);
    lemma_offset_line(key_start_fragment(), sf);
    lemma_offset_line(key_end_fragment(), ef);
    assert(c[0].subrange(0, 7) =~= key_version());
    assert(c[0].subrange(8, 11) =~= version_value());
    assert(field_value(c[0], key_version()) == Some(version_value()));
    assert(raw.len() == HEADER_LEN + body.len()) by {
        lemma_decimal_digits(sh, 10);
        lemma_decimal_digits(eh, 10);
        lemma_decimal_digits(sf, 10);
        lemma_decimal_digits(ef, 10);
    }
    assert(raw.subrange(sh as int, eh as int) =~= body);
    assert(raw.subrange(sf as int, ef as int) =~= body.subrange(
        PREAMBLE_LEN as int,
        body.len() - POSTAMBLE_LEN,
    ));
    assert(body.last() == body.subrange(body.len() - POSTAMBLE_LEN, body.len() as int)[31]);
    assert(trim_crlf(body) == body);
}

/// The offsets of every payload that decodes are ordered and lie in the buffer.
pub proof fn lemma_decoded_offsets_ordered(raw: Seq<u8>)
    requires
        decoded(raw) is Ok,
    ensures
        ({
            let h = decoded(raw)->Ok_0.header;
            h.start_html <= h.start_fragment <= h.end_fragment <= h.end_html <= raw.len()
        }),
{
}

pub open spec fn pow10(k: nat) -> nat
    decreases k,
{
    if k == 0 {
        1
    } else {
        10 * pow10((k - 1) as nat)
    }
}

proof fn lemma_pow10_pos(k: nat)
    ensures
        pow10(k) >= 1,
    decreases k,
{
    if k > 0 {
        lemma_pow10_pos((k - 1) as nat);
    }
}

} // verus!
