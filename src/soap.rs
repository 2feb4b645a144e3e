use vstd::prelude::*;
use base64::Engine;
use quick_xml::events::Event;
use crate::attrs::{align_of, bit_order_of, parse_align, parse_bit_order, parse_bool, parse_scale, parse_uint, parsed_uint, scale_of, truthy};
use crate::bitmap::{BitOrder, normalize_bitmap, normalized, transform_bitmap, transformed};
use crate::errors::{ProxyError, message};
use crate::escpos::{Align, DocModel, EposDoc, ImageModel, ImageSpec, align_cmd, cut_tail, doc_bytes, feed_cmd, hi, image_cmds, images_cmds, images_sized, init_cmd, lemma_raster_in_stream, lo, opt_string_view, packed_size, raster_cmd, row_bytes};
use crate::text::{bytes_ends_with_ci, bytes_ends_with_ignore_ascii_case, bytes_eq_ci, bytes_eq_ignore_ascii_case};

verus! {

/// One attribute of an XML start tag, its value unescaped.
#[derive(Debug, Clone, PartialEq, Eq)]
pub struct XmlAttr {
    pub key: Vec<u8>,
    pub value: String,
}

/// One event of the XML reader, as the parser sees it.
#[derive(Debug, Clone, PartialEq, Eq)]
pub enum XmlEvent {
    Start { name: Vec<u8>, attrs: Vec<XmlAttr> },
    End { name: Vec<u8> },
    Text { text: String },
    Other,
    Eof,
    Failed { message: String },
}

/// The event that ends a stream: end of input or an error.
pub open spec fn is_terminal(ev: XmlEvent) -> bool {
    ev is Eof || ev is Failed
}

/// A stream of events that ends with its first end of input or error.
pub open spec fn event_stream(evs: Seq<XmlEvent>) -> bool {
    &&& evs.len() > 0
    &&& is_terminal(evs.last())
    &&& forall|i: int| 0 <= i < evs.len() - 1 ==> !is_terminal(#[trigger] evs[i])
}

#[verifier::external_type_specification]
#[verifier::external_body]
#[verifier::reject_recursive_types(R)]
pub struct ExReader<R>(quick_xml::Reader<R>);

/// The events that an XML reader yields on `body`, up to and including the
/// first end of input or error.
pub uninterp spec fn xml_events_of(body: Seq<u8>) -> Seq<XmlEvent>;

/// The events that a reader has yet to yield, up to and including the first
/// end of input or error.
pub uninterp spec fn pending_events(reader: quick_xml::Reader<&[u8]>) -> Seq<XmlEvent>;

/// Relies on quick_xml's `Reader::from_reader` over a byte slice, with text
/// trimmed and empty elements reported as a start and an end: what it will
/// yield depends on the bytes alone, and ends at the end of input or an error.
#[verifier::external_body]
fn xml_reader<'a>(body: &'a [u8]) -> (r: quick_xml::Reader<&'a [u8]>)
    ensures
        pending_events(r) == xml_events_of(body@),
        event_stream(pending_events(r)),
{
    let mut reader = quick_xml::Reader::from_reader(body);
    reader.config_mut().trim_text(true);
    reader.config_mut().expand_empty_elements = true;
    reader
}

/// Relies on quick_xml's `Reader::read_event`: it yields the next event.
/// Attribute and text values are unescaped; one that cannot be unescaped
/// reads as empty.
#[verifier::external_body]
fn next_xml_event<'a>(reader: &mut quick_xml::Reader<&'a [u8]>) -> (r: XmlEvent)
    requires
        pending_events(*old(reader)).len() > 0,
    ensures
        r == pending_events(*old(reader))[0],
        !is_terminal(r) ==> pending_events(*final(reader)) == pending_events(*old(reader)).drop_first(),
{
    match reader.read_event() {
        Ok(Event::Start(e)) => XmlEvent::Start {
            name: e.name().as_ref().to_vec(),
            attrs: e.attributes().flatten().map(|a| XmlAttr {
                key: a.key.as_ref().to_vec(),
                value: a.unescape_value().unwrap_or_default().to_string(),
            }).collect(),
        },
        Ok(Event::End(e)) => XmlEvent::End { name: e.name().as_ref().to_vec() },
        Ok(Event::Text(t)) => XmlEvent::Text { text: t.unescape().unwrap_or_default().to_string() },
        Ok(Event::Eof) => XmlEvent::Eof,
        Ok(_) => XmlEvent::Other,
        Err(e) => XmlEvent::Failed { message: e.to_string() },
    }
}

/// What base64's standard engine decodes `text` to, or the text of the
/// error with which it rejects it.
pub uninterp spec fn base64_standard_decode(text: Seq<char>) -> Result<Seq<u8>, Seq<char>>;

/// Relies on base64's `STANDARD.decode`: the bytes that the text encodes,
/// with padding, or an error, given here as its `Display` text.
#[verifier::external_body]
pub(crate) fn decode_base64(text: &[char]) -> (r: Result<Vec<u8>, String>)
    ensures
        match base64_standard_decode(text@) {
            Ok(b) => r matches Ok(v) && v@ == b,
            Err(m) => r matches Err(e) && e@ == m,
        },
{
    let s: String = text.iter().collect();
    match base64::engine::general_purpose::STANDARD.decode(s) {
        Ok(v) => Ok(v),
        Err(e) => Err(e.to_string()),
    }
}

/// The characters that Rust counts as white space (Unicode `White_Space`).
pub open spec fn is_white(c: char) -> bool {
    ('\t' <= c && c <= '\r') || c == ' ' || c == '\u{85}' || c == '\u{A0}' || c == '\u{1680}'
        || ('\u{2000}' <= c && c <= '\u{200A}') || c == '\u{2028}' || c == '\u{2029}'
        || c == '\u{202F}' || c == '\u{205F}' || c == '\u{3000}'
}

/// `s` without its white space.
pub open spec fn strip_white(s: Seq<char>) -> Seq<char>
    decreases s.len(),
{
    if s.len() == 0 {
        s
    } else if is_white(s.last()) {
        strip_white(s.drop_last())
    } else {
        strip_white(s.drop_last()).push(s.last())
    }
}

fn is_white_char(c: char) -> (r: bool)
    ensures
        r == is_white(c),
{
    ('\t' <= c && c <= '\r') || c == ' ' || c == '\u{85}' || c == '\u{A0}' || c == '\u{1680}'
        || ('\u{2000}' <= c && c <= '\u{200A}') || c == '\u{2028}' || c == '\u{2029}'
        || c == '\u{202F}' || c == '\u{205F}' || c == '\u{3000}'
}

/// Removes every white-space character.
pub fn strip_whitespace(s: &[char]) -> (r: Vec<char>)
    ensures
        r@ == strip_white(s@),
{
    let mut out: Vec<char> = Vec::new();
    let mut i: usize = 0;
    while i < s.len()
        invariant
            i <= s@.len(),
            out@ == strip_white(s@.subrange(0, i as int)),
        decreases s.len() - i,
    {
        let c = s[i];
        assert(s@.subrange(0, i as int + 1).drop_last() =~= s@.subrange(0, i as int));
        if !is_white_char(c) {
            out.push(c);
        }
        i += 1;
    }
    assert(s@.subrange(0, i as int) =~= s@);
    out
}

/// The attributes of the image element being read.
#[derive(Debug, Clone, Copy, PartialEq, Eq)]
pub struct ImageAcc {
    pub width: u32,
    pub height: u32,
    pub align: Align,
    pub gap: u8,
    pub scale: u8,
    pub invert: bool,
    pub bit_order: BitOrder,
}

/// The attributes of an image element before any is read.
pub open spec fn default_acc() -> ImageAcc {
    ImageAcc {
        width: 0,
        height: 0,
        align: Align::Left,
        gap: 0,
        scale: 0,
        invert: false,
        bit_order: BitOrder::MsbFirst,
    }
}

/// A number attribute, or zero where it does not read as one.
pub open spec fn uint_or_zero(v: Seq<char>, max: nat) -> nat {
    match parsed_uint(v, max) {
        Some(n) => n,
        None => 0,
    }
}

/// One attribute of an image element, applied.
pub open spec fn apply_attr(acc: ImageAcc, key: Seq<u8>, v: Seq<char>) -> ImageAcc {
    if bytes_eq_ci(key, seq![119u8, 105, 100, 116, 104]) {
        ImageAcc { width: uint_or_zero(v, 0xFFFF_FFFF) as u32, ..acc }
    } else if bytes_eq_ci(key, seq![104u8, 101, 105, 103, 104, 116]) {
        ImageAcc { height: uint_or_zero(v, 0xFFFF_FFFF) as u32, ..acc }
    } else if bytes_eq_ci(key, seq![97u8, 108, 105, 103, 110]) {
        ImageAcc { align: align_of(v), ..acc }
    } else if bytes_eq_ci(key, seq![103u8, 97, 112]) {
        ImageAcc { gap: uint_or_zero(v, 0xFF) as u8, ..acc }
    } else if bytes_eq_ci(key, seq![115u8, 99, 97, 108, 101]) {
        ImageAcc { scale: scale_of(v), ..acc }
    } else if bytes_eq_ci(key, seq![105u8, 110, 118, 101, 114, 116]) {
        ImageAcc { invert: truthy(v), ..acc }
    } else if bytes_eq_ci(key, seq![98u8, 105, 116, 95, 111, 114, 100, 101, 114]) {
        ImageAcc { bit_order: bit_order_of(v), ..acc }
    } else {
        acc
    }
}

/// The attributes of an image element, applied in order.
pub open spec fn apply_attrs(acc: ImageAcc, attrs: Seq<XmlAttr>) -> ImageAcc
    decreases attrs.len(),
{
    if attrs.len() == 0 {
        acc
    } else {
        apply_attr(apply_attrs(acc, attrs.drop_last()), attrs.last().key@, attrs.last().value@)
    }
}

/// The cut directive after the attributes of a cut element: the last `type`.
pub open spec fn cut_after(cut: Option<Seq<char>>, attrs: Seq<XmlAttr>) -> Option<Seq<char>>
    decreases attrs.len(),
{
    if attrs.len() == 0 {
        cut
    } else if bytes_eq_ci(attrs.last().key@, seq![116u8, 121, 112, 101]) {
        Some(attrs.last().value@)
    } else {
        cut_after(cut, attrs.drop_last())
    }
}

/// The finished image: the decoded bytes cut or padded to the packed size,
/// then inverted and bit-reversed as the overrides, else the attributes, say.
pub open spec fn finished_image(acc: ImageAcc, decoded: Seq<u8>, invert_override: Option<bool>, bit_override: Option<BitOrder>) -> ImageModel {
    let invert = match invert_override {
        Some(b) => b,
        None => acc.invert,
    };
    let bit = match bit_override {
        Some(b) => b,
        None => acc.bit_order,
    };
    ImageModel {
        width: acc.width,
        height: acc.height,
        align: acc.align,
        gap_lines: acc.gap,
        scale_m: acc.scale,
        invert: invert,
        bit_order: bit,
        bitmap: transformed(normalized(decoded, packed_size(acc.width, acc.height)), invert, bit),
    }
}

/// Where a scan of an ePOS document stands.
pub struct ScanModel {
    pub images: Seq<ImageModel>,
    pub cut: Option<Seq<char>>,
    pub collecting: bool,
    pub acc: ImageAcc,
    pub b64: Seq<char>,
}

/// The scan before the first event.
pub open spec fn initial_scan() -> ScanModel {
    ScanModel { images: Seq::empty(), cut: None, collecting: false, acc: default_acc(), b64: Seq::empty() }
}

/// The scan after one event: going on, finished with a document, or rejected.
pub enum ScanStep {
    Next(ScanModel),
    Done(DocModel),
    Rejected(Seq<char>),
}

/// `image`: the suffix of an image element's name.
pub open spec fn image_tag() -> Seq<u8> {
    seq![105u8, 109, 97, 103, 101]
}

/// `cut`: the suffix of a cut element's name.
pub open spec fn cut_tag() -> Seq<u8> {
    seq![99u8, 117, 116]
}

/// The scan after leaving an image element.
pub open spec fn close_image(st: ScanModel, invert_override: Option<bool>, bit_override: Option<BitOrder>) -> ScanStep {
    let acc = st.acc;
    if acc.width == 0 || acc.height == 0 || st.b64.len() == 0 {
        ScanStep::Rejected("image element lacks width, height or data"@)
    } else if packed_size(acc.width, acc.height) > usize::MAX {
        ScanStep::Rejected("image is too large"@)
    } else {
        match base64_standard_decode(strip_white(st.b64)) {
            Err(m) => ScanStep::Rejected("image data is not valid base64: "@ + m),
            Ok(bytes) => ScanStep::Next(ScanModel {
                images: st.images.push(finished_image(acc, bytes, invert_override, bit_override)),
                collecting: false,
                ..st
            }),
        }
    }
}

/// One event of the document, applied to the scan.
pub open spec fn scan_step(st: ScanModel, ev: XmlEvent, invert_override: Option<bool>, bit_override: Option<BitOrder>) -> ScanStep {
    match ev {
        XmlEvent::Start { name, attrs } => if bytes_ends_with_ci(name@, image_tag()) {
            ScanStep::Next(ScanModel { collecting: true, acc: apply_attrs(default_acc(), attrs@), b64: Seq::empty(), ..st })
        } else if bytes_ends_with_ci(name@, cut_tag()) {
            ScanStep::Next(ScanModel { cut: cut_after(st.cut, attrs@), ..st })
        } else {
            ScanStep::Next(st)
        },
        XmlEvent::Text { text } => if st.collecting {
            ScanStep::Next(ScanModel { b64: st.b64 + text@, ..st })
        } else {
            ScanStep::Next(st)
        },
        XmlEvent::End { name } => if bytes_ends_with_ci(name@, image_tag()) {
            close_image(st, invert_override, bit_override)
        } else {
            ScanStep::Next(st)
        },
        XmlEvent::Other => ScanStep::Next(st),
        XmlEvent::Eof => if st.images.len() == 0 {
            ScanStep::Rejected("ePOS payload holds no image"@)
        } else {
            ScanStep::Done(DocModel { images: st.images, cut: st.cut })
        },
        XmlEvent::Failed { message } => ScanStep::Rejected("XML parse error: "@ + message@),
    }
}

/// The document that a stream of events describes, from a given scan, or
/// the message with which it is rejected.
pub open spec fn scan_run(evs: Seq<XmlEvent>, st: ScanModel, invert_override: Option<bool>, bit_override: Option<BitOrder>) -> Result<DocModel, Seq<char>>
    decreases evs.len(),
{
    if evs.len() == 0 {
        Err("XML ended without end of input"@)
    } else {
        match scan_step(st, evs[0], invert_override, bit_override) {
            ScanStep::Next(next) => scan_run(evs.drop_first(), next, invert_override, bit_override),
            ScanStep::Done(doc) => Ok(doc),
            ScanStep::Rejected(m) => Err(m),
        }
    }
}

/// The document that the events of an ePOS payload describe, or the message
/// with which they are rejected.
pub open spec fn epos_doc_of(evs: Seq<XmlEvent>, invert_override: Option<bool>, bit_override: Option<BitOrder>) -> Result<DocModel, Seq<char>> {
    scan_run(evs, initial_scan(), invert_override, bit_override)
}

fn image_tag_bytes() -> (r: Vec<u8>)
    ensures
        r@ == image_tag(),
{
    let r = vec![105u8, 109, 97, 103, 101];
    assert(r@ =~= image_tag());
    r
}

fn cut_tag_bytes() -> (r: Vec<u8>)
    ensures
        r@ == cut_tag(),
{
    let r = vec![99u8, 117, 116];
    assert(r@ =~= cut_tag());
    r
}

/// Reads the attributes of an image element, from the defaults.
pub fn read_image_attrs(attrs: &Vec<XmlAttr>) -> (r: ImageAcc)
    ensures
        r == apply_attrs(default_acc(), attrs@),
{
    let k_width = vec![119u8, 105, 100, 116, 104];
    let k_height = vec![104u8, 101, 105, 103, 104, 116];
    let k_align = vec![97u8, 108, 105, 103, 110];
    let k_gap = vec![103u8, 97, 112];
    let k_scale = vec![115u8, 99, 97, 108, 101];
    let k_invert = vec![105u8, 110, 118, 101, 114, 116];
    let k_bit = vec![98u8, 105, 116, 95, 111, 114, 100, 101, 114];
    assert(k_width@ =~= seq![119u8, 105, 100, 116, 104]);
    assert(k_height@ =~= seq![104u8, 101, 105, 103, 104, 116]);
    assert(k_align@ =~= seq![97u8, 108, 105, 103, 110]);
    assert(k_gap@ =~= seq![103u8, 97, 112]);
    assert(k_scale@ =~= seq![115u8, 99, 97, 108, 101]);
    assert(k_invert@ =~= seq![105u8, 110, 118, 101, 114, 116]);
    assert(k_bit@ =~= seq![98u8, 105, 116, 95, 111, 114, 100, 101, 114]);
    let mut acc = ImageAcc {
        width: 0,
        height: 0,
        align: Align::Left,
        gap: 0,
        scale: 0,
        invert: false,
        bit_order: BitOrder::MsbFirst,
    };
    let mut i: usize = 0;
    while i < attrs.len()
        invariant
            i <= attrs@.len(),
            acc == apply_attrs(default_acc(), attrs@.subrange(0, i as int)),
            k_width@ == seq![119u8, 105, 100, 116, 104],
            k_height@ == seq![104u8, 101, 105, 103, 104, 116],
            k_align@ == seq![97u8, 108, 105, 103, 110],
            k_gap@ == seq![103u8, 97, 112],
            k_scale@ == seq![115u8, 99, 97, 108, 101],
            k_invert@ == seq![105u8, 110, 118, 101, 114, 116],
            k_bit@ == seq![98u8, 105, 116, 95, 111, 114, 100, 101, 114],
        decreases attrs.len() - i,
    {
        let key = attrs[i].key.as_slice();
        let v = attrs[i].value.as_str();
        if bytes_eq_ignore_ascii_case(key, k_width.as_slice()) {
            acc.width = match parse_uint(v, 0xFFFF_FFFF) {
                Some(n) => n as u32,
                None => 0,
            };
        } else if bytes_eq_ignore_ascii_case(key, k_height.as_slice()) {
            acc.height = match parse_uint(v, 0xFFFF_FFFF) {
                Some(n) => n as u32,
                None => 0,
            };
        } else if bytes_eq_ignore_ascii_case(key, k_align.as_slice()) {
            acc.align = parse_align(v);
        } else if bytes_eq_ignore_ascii_case(key, k_gap.as_slice()) {
            acc.gap = match parse_uint(v, 0xFF) {
                Some(n) => n as u8,
                None => 0,
            };
        } else if bytes_eq_ignore_ascii_case(key, k_scale.as_slice()) {
            acc.scale = parse_scale(v);
        } else if bytes_eq_ignore_ascii_case(key, k_invert.as_slice()) {
            acc.invert = parse_bool(v);
        } else if bytes_eq_ignore_ascii_case(key, k_bit.as_slice()) {
            acc.bit_order = parse_bit_order(v);
        }
        assert(attrs@.subrange(0, i as int + 1).drop_last() =~= attrs@.subrange(0, i as int));
        i += 1;
    }
    assert(attrs@.subrange(0, i as int) =~= attrs@);
    acc
}

/// Reads the cut directive from the attributes of a cut element: the value
/// of its last `type` attribute, else `cut` unchanged.
pub fn read_cut_attrs(cut: Option<String>, attrs: &Vec<XmlAttr>) -> (r: Option<String>)
    ensures
        opt_string_view(r) == cut_after(opt_string_view(cut), attrs@),
{
    let k_type = vec![116u8, 121, 112, 101];
    assert(k_type@ =~= seq![116u8, 121, 112, 101]);
    let mut found: Option<usize> = None;
    let mut i: usize = 0;
    while i < attrs.len()
        invariant
            i <= attrs@.len(),
            k_type@ == seq![116u8, 121, 112, 101],
            match found {
                Some(j) => j < i && cut_after(opt_string_view(cut), attrs@.subrange(0, i as int)) == Some(attrs@[j as int].value@),
                None => cut_after(opt_string_view(cut), attrs@.subrange(0, i as int)) == opt_string_view(cut),
            },
        decreases attrs.len() - i,
    {
        assert(attrs@.subrange(0, i as int + 1).drop_last() =~= attrs@.subrange(0, i as int));
        if bytes_eq_ignore_ascii_case(attrs[i].key.as_slice(), k_type.as_slice()) {
            found = Some(i);
        }
        i += 1;
    }
    assert(attrs@.subrange(0, i as int) =~= attrs@);
    match found {
        Some(j) => Some(attrs[j].value.clone()),
        None => cut,
    }
}

/// Builds the image that an image element describes, from the bytes its
/// text decoded to.
pub fn finish_image(acc: ImageAcc, decoded: Vec<u8>, invert_override: Option<bool>, bit_override: Option<BitOrder>) -> (r: ImageSpec)
    requires
        packed_size(acc.width, acc.height) <= usize::MAX,
    ensures
        r@ == finished_image(acc, decoded@, invert_override, bit_override),
{
    let x_bytes: u64 = ((acc.width as u64) + 7) / 8;
    assert(x_bytes * (acc.height as u64) <= 0x2000_0000u64 * 0xFFFF_FFFFu64) by (nonlinear_arith)
        requires
            x_bytes <= 0x2000_0000u64,
    ;
    let expected: u64 = x_bytes * (acc.height as u64);
    let invert = match invert_override {
        Some(b) => b,
        None => acc.invert,
    };
    let bit = match bit_override {
        Some(b) => b,
        None => acc.bit_order,
    };
    let sized = normalize_bitmap(decoded, expected as usize);
    let bitmap = transform_bitmap(sized, invert, bit);
    ImageSpec {
        width: acc.width,
        height: acc.height,
        align: acc.align,
        gap_lines: acc.gap,
        scale_m: acc.scale,
        invert: invert,
        bit_order: bit,
        bitmap: bitmap,
    }
}

struct Scan {
    images: Vec<ImageSpec>,
    cut: Option<String>,
    collecting: bool,
    acc: ImageAcc,
    b64: Vec<char>,
}

impl View for Scan {
    type V = ScanModel;

    closed spec fn view(&self) -> ScanModel {
        ScanModel {
            images: Seq::new(self.images@.len(), |i: int| self.images@[i]@),
            cut: opt_string_view(self.cut),
            collecting: self.collecting,
            acc: self.acc,
            b64: self.b64@,
        }
    }
}

enum Flow {
    Continue,
    Finished,
    Rejected(ProxyError),
}

fn push_text(buf: &mut Vec<char>, text: &str)
    ensures
        final(buf)@ == old(buf)@ + text@,
{
    let n = text.unicode_len();
    let mut i: usize = 0;
    while i < n
        invariant
            n == text@.len(),
            i <= n,
            buf@ == old(buf)@ + text@.subrange(0, i as int),
        decreases n - i,
    {
        buf.push(text.get_char(i));
        i += 1;
        assert(buf@ =~= old(buf)@ + text@.subrange(0, i as int));
    }
    assert(text@.subrange(0, n as int) =~= text@);
}

fn close_image_element(scan: &mut Scan, invert_override: Option<bool>, bit_override: Option<BitOrder>) -> (r: Flow)
    ensures
        match close_image(old(scan)@, invert_override, bit_override) {
            ScanStep::Next(next) => r is Continue && final(scan)@ == next,
            ScanStep::Done(_) => false,
            ScanStep::Rejected(m) => r matches Flow::Rejected(ProxyError::BadPayload(e)) && e@ == m,
        },
{
    let acc = scan.acc;
    if acc.width == 0 || acc.height == 0 || scan.b64.len() == 0 {
        return Flow::Rejected(ProxyError::BadPayload(message("image element lacks width, height or data")));
    }
    let x_bytes: u64 = ((acc.width as u64) + 7) / 8;
    assert(x_bytes * (acc.height as u64) <= 0x2000_0000u64 * 0xFFFF_FFFFu64) by (nonlinear_arith)
        requires
            x_bytes <= 0x2000_0000u64,
    ;
    let expected: u64 = x_bytes * (acc.height as u64);
    if expected > usize::MAX as u64 {
        return Flow::Rejected(ProxyError::BadPayload(message("image is too large")));
    }
    let cleaned = strip_whitespace(scan.b64.as_slice());
    match decode_base64(cleaned.as_slice()) {
        Err(m) => {
            let mut text = message("image data is not valid base64: ");
            text.append(m.as_str());
            Flow::Rejected(ProxyError::BadPayload(text))
        },
        Ok(bytes) => {
            let img = finish_image(acc, bytes, invert_override, bit_override);
            scan.images.push(img);
            scan.collecting = false;
            assert(scan@.images =~= old(scan)@.images.push(img@));
            Flow::Continue
        },
    }
}

fn scan_event(scan: &mut Scan, ev: &XmlEvent, invert_override: Option<bool>, bit_override: Option<BitOrder>) -> (r: Flow)
    ensures
        match scan_step(old(scan)@, *ev, invert_override, bit_override) {
            ScanStep::Next(next) => r is Continue && final(scan)@ == next,
            ScanStep::Done(doc) => r is Finished && final(scan)@ == old(scan)@
                && doc == (DocModel { images: old(scan)@.images, cut: old(scan)@.cut }),
            ScanStep::Rejected(m) => r matches Flow::Rejected(ProxyError::BadPayload(e)) && e@ == m,
        },
{
    match ev {
        XmlEvent::Start { name, attrs } => {
            let image = image_tag_bytes();
            let cut = cut_tag_bytes();
            if bytes_ends_with_ignore_ascii_case(name.as_slice(), image.as_slice()) {
                scan.collecting = true;
                scan.acc = read_image_attrs(attrs);
                scan.b64 = Vec::new();
            } else if bytes_ends_with_ignore_ascii_case(name.as_slice(), cut.as_slice()) {
                let old_cut = scan.cut.take();
                scan.cut = read_cut_attrs(old_cut, attrs);
            }
            Flow::Continue
        },
        XmlEvent::Text { text } => {
            if scan.collecting {
                push_text(&mut scan.b64, text.as_str());
            }
            Flow::Continue
        },
        XmlEvent::End { name } => {
            let image = image_tag_bytes();
            if bytes_ends_with_ignore_ascii_case(name.as_slice(), image.as_slice()) {
                close_image_element(scan, invert_override, bit_override)
            } else {
                Flow::Continue
            }
        },
        XmlEvent::Other => Flow::Continue,
        XmlEvent::Eof => {
            if scan.images.len() == 0 {
                Flow::Rejected(ProxyError::BadPayload(message("ePOS payload holds no image")))
            } else {
                Flow::Finished
            }
        },
        XmlEvent::Failed { message: text } => {
            let mut m = message("XML parse error: ");
            m.append(text.as_str());
            Flow::Rejected(ProxyError::BadPayload(m))
        },
    }
}

fn new_scan() -> (r: Scan)
    ensures
        r@ == initial_scan(),
{
    let r = Scan {
        images: Vec::new(),
        cut: None,
        collecting: false,
        acc: ImageAcc {
            width: 0,
            height: 0,
            align: Align::Left,
            gap: 0,
            scale: 0,
            invert: false,
            bit_order: BitOrder::MsbFirst,
        },
        b64: Vec::new(),
    };
    assert(r@.images =~= initial_scan().images);
    assert(r@.b64 =~= initial_scan().b64);
    r
}

/// Builds the document that a stream of XML events describes: a single
/// forward pass that collects each image element and the last cut directive.
pub fn parse_epos_events(events: &Vec<XmlEvent>, invert_override: Option<bool>, bit_override: Option<BitOrder>) -> (r: Result<EposDoc, ProxyError>)
    ensures
        r is Ok <==> epos_doc_of(events@, invert_override, bit_override) is Ok,
        r matches Ok(doc) ==> epos_doc_of(events@, invert_override, bit_override) == Ok::<DocModel, Seq<char>>(doc@),
        r matches Err(e) ==> (e matches ProxyError::BadPayload(m)
            && epos_doc_of(events@, invert_override, bit_override) == Err::<DocModel, Seq<char>>(m@)),
{
    let mut scan = new_scan();
    let mut i: usize = 0;
    assert(events@.subrange(0, events@.len() as int) =~= events@);
    while i < events.len()
        invariant
            i <= events@.len(),
            scan_run(events@.subrange(i as int, events@.len() as int), scan@, invert_override, bit_override)
                == epos_doc_of(events@, invert_override, bit_override),
        decreases events.len() - i,
    {
        let ghost rest = events@.subrange(i as int, events@.len() as int);
        assert(rest.drop_first() =~= events@.subrange(i as int + 1, events@.len() as int));
        let ghost before = scan@;
        match scan_event(&mut scan, &events[i], invert_override, bit_override) {
            Flow::Continue => {},
            Flow::Finished => {
                let doc = EposDoc { images: scan.images, cut: scan.cut };
                assert(doc@.images =~= before.images);
                return Ok(doc);
            },
            Flow::Rejected(e) => {
                return Err(e);
            },
        }
        i += 1;
    }
    assert(events@.subrange(i as int, events@.len() as int) =~= Seq::<XmlEvent>::empty());
    Err(ProxyError::BadPayload(message("XML ended without end of input")))
}

/// Parses an ePOS-Print SOAP payload into a document. The overrides, where
/// given, replace each image's own `invert` and `bit_order`.
pub fn parse_epos_soap(body: &[u8], invert_override: Option<bool>, bit_override: Option<BitOrder>) -> (r: Result<EposDoc, ProxyError>)
    ensures
        r is Ok <==> epos_doc_of(xml_events_of(body@), invert_override, bit_override) is Ok,
        r matches Ok(doc) ==> epos_doc_of(xml_events_of(body@), invert_override, bit_override) == Ok::<DocModel, Seq<char>>(doc@),
        r matches Err(e) ==> (e matches ProxyError::BadPayload(m)
            && epos_doc_of(xml_events_of(body@), invert_override, bit_override) == Err::<DocModel, Seq<char>>(m@)),
{
    let mut reader = xml_reader(body);
    let mut scan = new_scan();
    loop
        invariant
            event_stream(pending_events(reader)),
            scan_run(pending_events(reader), scan@, invert_override, bit_override)
                == epos_doc_of(xml_events_of(body@), invert_override, bit_override),
        decreases pending_events(reader).len(),
    {
        let ghost rest = pending_events(reader);
        let ghost before = scan@;
        let ev = next_xml_event(&mut reader);
        let ghost terminal = is_terminal(ev);
        match scan_event(&mut scan, &ev, invert_override, bit_override) {
            Flow::Continue => {},
            Flow::Finished => {
                let doc = EposDoc { images: scan.images, cut: scan.cut };
                assert(doc@.images =~= before.images);
                return Ok(doc);
            },
            Flow::Rejected(e) => {
                return Err(e);
            },
        }
        proof {
            assert(!terminal);
            assert(rest.len() > 1);
            let next = pending_events(reader);
            assert(next =~= rest.drop_first());
            assert(next.last() == rest.last());
            assert forall|i: int| 0 <= i < next.len() - 1 implies !is_terminal(#[trigger] next[i]) by {
                assert(next[i] == rest[i + 1]);
            }
        }
    }
}

/// Cutting or padding keeps exactly the expected number of bytes.
pub proof fn lemma_normalized_len(data: Seq<u8>, expected: nat)
    ensures
        normalized(data, expected).len() == expected,
        data.len() == expected ==> normalized(data, expected) == data,
        forall|i: int| data.len() <= i < expected ==> #[trigger] normalized(data, expected)[i] == 0u8,
        forall|i: int| 0 <= i < data.len() && i < expected ==> #[trigger] normalized(data, expected)[i] == data[i],
{
    if data.len() == expected {
        assert(data.subrange(0, expected as int) =~= data);
    }
}

proof fn lemma_finished_image_sized(acc: ImageAcc, decoded: Seq<u8>, invert_override: Option<bool>, bit_override: Option<BitOrder>)
    ensures
        finished_image(acc, decoded, invert_override, bit_override).bitmap.len() == packed_size(acc.width, acc.height),
{
    lemma_normalized_len(decoded, packed_size(acc.width, acc.height));
}

proof fn lemma_scan_run_sized(evs: Seq<XmlEvent>, st: ScanModel, invert_override: Option<bool>, bit_override: Option<BitOrder>)
    requires
        images_sized(st.images),
    ensures
        scan_run(evs, st, invert_override, bit_override) matches Ok(d) ==> images_sized(d.images),
    decreases evs.len(),
{
    if evs.len() > 0 {
        match scan_step(st, evs[0], invert_override, bit_override) {
            ScanStep::Next(next) => {
                if evs[0] is End && bytes_ends_with_ci(evs[0]->End_name@, image_tag()) {
                    if let Ok(bytes) = base64_standard_decode(strip_white(st.b64)) {
                        lemma_finished_image_sized(st.acc, bytes, invert_override, bit_override);
                    }
                }
                assert(images_sized(next.images));
                lemma_scan_run_sized(evs.drop_first(), next, invert_override, bit_override);
            },
            _ => {},
        }
    }
}

/// Every image of a parsed document has the packed size of its width and
/// height, so the document always encodes.
pub proof fn lemma_parsed_images_sized(evs: Seq<XmlEvent>, invert_override: Option<bool>, bit_override: Option<BitOrder>)
    ensures
        epos_doc_of(evs, invert_override, bit_override) matches Ok(d) ==> images_sized(d.images),
{
    lemma_scan_run_sized(evs, initial_scan(), invert_override, bit_override);
}

/// Image data of exactly the packed size reaches the document unchanged but
/// for the inversion and bit-order reversal that apply to it.
pub proof fn lemma_exact_bitmap_kept(acc: ImageAcc, decoded: Seq<u8>, invert_override: Option<bool>, bit_override: Option<BitOrder>)
    requires
        decoded.len() == packed_size(acc.width, acc.height),
    ensures
        finished_image(acc, decoded, invert_override, bit_override).bitmap == transformed(
            decoded,
            match invert_override {
                Some(b) => b,
                None => acc.invert,
            },
            match bit_override {
                Some(b) => b,
                None => acc.bit_order,
            },
        ),
{
    lemma_normalized_len(decoded, packed_size(acc.width, acc.height));
}

/// A parsed document always encodes, and its stream holds, for each image,
/// the raster command with that image's header fields and bitmap bytes.
pub proof fn lemma_parsed_image_in_stream(evs: Seq<XmlEvent>, invert_override: Option<bool>, bit_override: Option<BitOrder>, i: int)
    requires
        epos_doc_of(evs, invert_override, bit_override) is Ok,
        0 <= i < epos_doc_of(evs, invert_override, bit_override)->Ok_0.images.len(),
    ensures
        ({
            let d = epos_doc_of(evs, invert_override, bit_override)->Ok_0;
            let rc = raster_cmd(d.images[i].width, d.images[i].height, d.images[i].bitmap, d.images[i].scale_m);
            &&& images_sized(d.images)
            &&& exists|off: int| #![trigger doc_bytes(d).subrange(off, off + rc.len())]
                0 <= off && off + rc.len() <= doc_bytes(d).len() && doc_bytes(d).subrange(off, off + rc.len()) == rc
        }),
{
    lemma_parsed_images_sized(evs, invert_override, bit_override);
    lemma_raster_in_stream(epos_doc_of(evs, invert_override, bit_override)->Ok_0, i);
}

/// A body whose events are one image element (start, its base64 text, end)
/// and the end of input parses to a document of that one image: its bitmap
/// is the decoded data cut or zero-padded to the packed size, then inverted
/// and bit-reversed as the overrides, else the attributes, say. Its stream
/// holds, right after initialize and alignment, the raster header with the
/// scale, the little-endian bytes per row and the little-endian height, then
/// that bitmap.
#[verifier::rlimit(60)]
pub proof fn lemma_one_image_document(
    body: Seq<u8>,
    name: Seq<u8>,
    attrs: Seq<XmlAttr>,
    text: Seq<char>,
    data: Seq<u8>,
    invert_override: Option<bool>,
    bit_override: Option<BitOrder>,
)
    requires
        xml_events_of(body).len() == 4,
        xml_events_of(body)[0] matches XmlEvent::Start { name: n, attrs: a } && n@ == name && a@ == attrs,
        xml_events_of(body)[1] matches XmlEvent::Text { text: t } && t@ == text,
        xml_events_of(body)[2] matches XmlEvent::End { name: n } && n@ == name,
        xml_events_of(body)[3] is Eof,
        bytes_ends_with_ci(name, image_tag()),
        apply_attrs(default_acc(), attrs).width > 0,
        apply_attrs(default_acc(), attrs).height > 0,
        packed_size(apply_attrs(default_acc(), attrs).width, apply_attrs(default_acc(), attrs).height) <= usize::MAX,
        text.len() > 0,
        base64_standard_decode(strip_white(text)) == Ok::<Seq<u8>, Seq<char>>(data),
    ensures
        ({
            let acc = apply_attrs(default_acc(), attrs);
            let size = packed_size(acc.width, acc.height);
            let invert = match invert_override {
                Some(b) => b,
                None => acc.invert,
            };
            let bit = match bit_override {
                Some(b) => b,
                None => acc.bit_order,
            };
            let img = finished_image(acc, data, invert_override, bit_override);
            let doc = DocModel { images: seq![img], cut: None };
            &&& epos_doc_of(xml_events_of(body), invert_override, bit_override) == Ok::<DocModel, Seq<char>>(doc)
            &&& img.bitmap.len() == size
            &&& data.len() == size ==> img.bitmap == transformed(data, invert, bit)
            &&& data.len() < size ==> img.bitmap == transformed(data + Seq::new((size - data.len()) as nat, |i: int| 0u8), invert, bit)
            &&& doc_bytes(doc).subrange(5, 13) == seq![
                0x1Du8,
                0x76u8,
                0x30u8,
                acc.scale,
                lo(row_bytes(acc.width)),
                hi(row_bytes(acc.width)),
                lo(acc.height as nat),
                hi(acc.height as nat),
            ]
            &&& doc_bytes(doc).subrange(13, 13 + size as int) == img.bitmap
        }),
{
    let evs = xml_events_of(body);
    let acc = apply_attrs(default_acc(), attrs);
    let size = packed_size(acc.width, acc.height);
    let img = finished_image(acc, data, invert_override, bit_override);
    let doc = DocModel { images: seq![img], cut: None };
    let s0 = initial_scan();
    let s1 = ScanModel { collecting: true, acc: acc, b64: Seq::empty(), ..s0 };
    let s2 = ScanModel { b64: Seq::<char>::empty() + text, ..s1 };
    assert(Seq::<char>::empty() + text =~= text);
    let s3 = ScanModel { images: s2.images.push(img), collecting: false, ..s2 };
    assert(scan_step(s0, evs[0], invert_override, bit_override) == ScanStep::Next(s1));
    assert(scan_step(s1, evs[1], invert_override, bit_override) == ScanStep::Next(s2));
    assert(scan_step(s2, evs[2], invert_override, bit_override) == ScanStep::Next(s3));
    assert(s3.images =~= seq![img]);
    assert(scan_step(s3, evs[3], invert_override, bit_override) == ScanStep::Done(doc));
    let e1 = evs.drop_first();
    let e2 = e1.drop_first();
    let e3 = e2.drop_first();
    assert(e1[0] == evs[1]);
    assert(e2[0] == evs[2]);
    assert(e3[0] == evs[3]);
    assert(scan_run(e3, s3, invert_override, bit_override) == Ok::<DocModel, Seq<char>>(doc));
    assert(scan_run(e2, s2, invert_override, bit_override) == scan_run(e3, s3, invert_override, bit_override));
    assert(scan_run(e1, s1, invert_override, bit_override) == scan_run(e2, s2, invert_override, bit_override));
    assert(scan_run(evs, s0, invert_override, bit_override) == scan_run(e1, s1, invert_override, bit_override));
    lemma_normalized_len(data, size);
    if data.len() < size {
        assert(normalized(data, size) =~= data + Seq::new((size - data.len()) as nat, |i: int| 0u8));
    }
    let one = seq![img];
    assert(one.drop_last() =~= Seq::<ImageModel>::empty());
    assert(images_cmds(Seq::<ImageModel>::empty()) == Seq::<u8>::empty());
    assert(images_cmds(one) == images_cmds(one.drop_last()) + image_cmds(one.last()));
    let all = doc_bytes(doc);
    let rc = raster_cmd(img.width, img.height, img.bitmap, img.scale_m);
    assert(all =~= init_cmd() + align_cmd(img.align) + rc
        + (if img.gap_lines > 0 { feed_cmd(img.gap_lines) } else { Seq::empty() })
        + align_cmd(Align::Left) + cut_tail(doc.cut));
    assert(all.subrange(5, 13) =~= rc.subrange(0, 8));
    assert(all.subrange(13, 13 + size as int) =~= img.bitmap);
}

} // verus!
