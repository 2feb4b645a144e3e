use vstd::prelude::*;
use vstd::utf8::encode_utf8;
use crate::errors::{ProxyError, message};
use crate::bitmap::BitOrder;
use crate::text::{eq_ci, str_eq_ignore_ascii_case};

verus! {

/// Horizontal placement of an image.
#[derive(Debug, Clone, Copy, PartialEq, Eq, Structural)]
pub enum Align {
    Left,
    Center,
    Right,
}

/// One instruction of a JSON print job.
#[derive(Debug, Clone, PartialEq, Eq)]
pub enum PrintOp {
    Init,
    Text { data: String, newline: Option<bool> },
    Feed { lines: u8 },
    Cut { mode: Option<String> },
}

/// A JSON print job: ready bytes in base64, or a list of operations.
#[derive(Debug, Clone, PartialEq, Eq)]
pub enum JsonJob {
    RawBase64 { base64: String },
    Ops { ops: Vec<PrintOp> },
}

/// One raster image of an ePOS document.
#[derive(Debug, Clone, PartialEq, Eq)]
pub struct ImageSpec {
    pub width: u32,
    pub height: u32,
    pub align: Align,
    pub gap_lines: u8,
    pub scale_m: u8,
    pub invert: bool,
    pub bit_order: BitOrder,
    pub bitmap: Vec<u8>,
}

/// A parsed ePOS document: its images in print order and its cut directive.
#[derive(Debug, Clone, PartialEq, Eq)]
pub struct EposDoc {
    pub images: Vec<ImageSpec>,
    pub cut: Option<String>,
}

/// The plain-value model of an image.
pub struct ImageModel {
    pub width: u32,
    pub height: u32,
    pub align: Align,
    pub gap_lines: u8,
    pub scale_m: u8,
    pub invert: bool,
    pub bit_order: BitOrder,
    pub bitmap: Seq<u8>,
}

/// The plain-value model of a document.
pub struct DocModel {
    pub images: Seq<ImageModel>,
    pub cut: Option<Seq<char>>,
}

impl View for ImageSpec {
    type V = ImageModel;

    open spec fn view(&self) -> ImageModel {
        ImageModel {
            width: self.width,
            height: self.height,
            align: self.align,
            gap_lines: self.gap_lines,
            scale_m: self.scale_m,
            invert: self.invert,
            bit_order: self.bit_order,
            bitmap: self.bitmap@,
        }
    }
}

/// The characters of an optional string.
pub open spec fn opt_string_view(o: Option<String>) -> Option<Seq<char>> {
    match o {
        Some(s) => Some(s@),
        None => None,
    }
}

impl View for EposDoc {
    type V = DocModel;

    open spec fn view(&self) -> DocModel {
        DocModel {
            images: Seq::new(self.images@.len(), |i: int| self.images@[i]@),
            cut: opt_string_view(self.cut),
        }
    }
}

/// Bytes per raster row for an image `width` pixels wide.
pub open spec fn row_bytes(width: u32) -> nat {
    ((width as nat) + 7) / 8
}

/// The packed size of a bitmap of `width` by `height` pixels.
pub open spec fn packed_size(width: u32, height: u32) -> nat {
    row_bytes(width) * (height as nat)
}

/// ESC @: initialize.
pub open spec fn init_cmd() -> Seq<u8> {
    seq![0x1Bu8, 0x40u8]
}

/// The parameter of the set-alignment command.
pub open spec fn align_code(a: Align) -> u8 {
    match a {
        Align::Left => 0,
        Align::Center => 1,
        Align::Right => 2,
    }
}

/// ESC a n: set alignment.
pub open spec fn align_cmd(a: Align) -> Seq<u8> {
    seq![0x1Bu8, 0x61u8, align_code(a)]
}

/// ESC d n: feed `n` lines.
pub open spec fn feed_cmd(lines: u8) -> Seq<u8> {
    seq![0x1Bu8, 0x64u8, lines]
}

/// GS V m: full (0) or partial (1) cut.
pub open spec fn cut_cmd(partial: bool) -> Seq<u8> {
    seq![0x1Du8, 0x56u8, if partial { 1u8 } else { 0u8 }]
}

/// The UTF-8 bytes of a text, then a line feed if asked.
pub open spec fn text_cmd(s: Seq<char>, newline: bool) -> Seq<u8> {
    encode_utf8(s) + if newline { seq![0x0Au8] } else { Seq::empty() }
}

/// The low byte and the high byte of the 16-bit little-endian form of `n`.
pub open spec fn lo(n: nat) -> u8 {
    (n % 256) as u8
}

pub open spec fn hi(n: nat) -> u8 {
    ((n / 256) % 256) as u8
}

/// The raster-image command: header, then the bitmap bytes unchanged.
pub open spec fn raster_cmd(width: u32, height: u32, data: Seq<u8>, scale_m: u8) -> Seq<u8> {
    seq![
        0x1Du8,
        0x76u8,
        0x30u8,
        scale_m,
        lo(row_bytes(width)),
        hi(row_bytes(width)),
        lo(height as nat),
        hi(height as nat),
    ] + data
}

/// Every image's bitmap has the packed size of its width and height.
pub open spec fn images_sized(images: Seq<ImageModel>) -> bool {
    forall|i: int| 0 <= i < images.len() ==> (#[trigger] images[i]).bitmap.len() == packed_size(images[i].width, images[i].height)
}

/// Alignment, raster image and the optional feed of one image.
pub open spec fn image_cmds(img: ImageModel) -> Seq<u8> {
    align_cmd(img.align) + raster_cmd(img.width, img.height, img.bitmap, img.scale_m)
        + if img.gap_lines > 0 { feed_cmd(img.gap_lines) } else { Seq::empty() }
}

/// The commands of each image, in order.
pub open spec fn images_cmds(images: Seq<ImageModel>) -> Seq<u8>
    decreases images.len(),
{
    if images.len() == 0 {
        Seq::empty()
    } else {
        images_cmds(images.drop_last()) + image_cmds(images.last())
    }
}

/// What ends a document: its cut policy.
pub open spec fn cut_tail(cut: Option<Seq<char>>) -> Seq<u8> {
    match cut {
        None => feed_cmd(3) + cut_cmd(false),
        Some(t) => if eq_ci(t, "feed"@) {
            feed_cmd(3) + cut_cmd(false)
        } else if eq_ci(t, "partial"@) {
            cut_cmd(true)
        } else {
            cut_cmd(false)
        },
    }
}

/// The whole ESC/POS stream of a document.
pub open spec fn doc_bytes(doc: DocModel) -> Seq<u8> {
    init_cmd() + images_cmds(doc.images) + align_cmd(Align::Left) + cut_tail(doc.cut)
}

/// A cut mode asks for a partial cut.
pub open spec fn is_partial_mode(mode: Option<Seq<char>>) -> bool {
    match mode {
        Some(m) => eq_ci(m, "partial"@) || eq_ci(m, "p"@),
        None => false,
    }
}

/// The bytes of one JSON operation.
pub open spec fn op_bytes(op: PrintOp) -> Seq<u8> {
    match op {
        PrintOp::Init => init_cmd(),
        PrintOp::Text { data, newline } => text_cmd(data@, newline.unwrap_or(true)),
        PrintOp::Feed { lines } => feed_cmd(lines),
        PrintOp::Cut { mode } => cut_cmd(is_partial_mode(opt_string_view(mode))),
    }
}

/// The bytes of a list of JSON operations, in order.
pub open spec fn ops_bytes(ops: Seq<PrintOp>) -> Seq<u8>
    decreases ops.len(),
{
    if ops.len() == 0 {
        Seq::empty()
    } else {
        ops_bytes(ops.drop_last()) + op_bytes(ops.last())
    }
}

fn push_bytes(buf: &mut Vec<u8>, bytes: &[u8])
    ensures
        final(buf)@ == old(buf)@ + bytes@,
{
    let ghost start = buf@;
    let mut i: usize = 0;
    while i < bytes.len()
        invariant
            i <= bytes@.len(),
            buf@ == start + bytes@.subrange(0, i as int),
        decreases bytes.len() - i,
    {
        buf.push(bytes[i]);
        i += 1;
        assert(buf@ =~= start + bytes@.subrange(0, i as int));
    }
    assert(bytes@.subrange(0, bytes@.len() as int) =~= bytes@);
}

/// Appends the initialize command.
pub fn esc_init(buf: &mut Vec<u8>)
    ensures
        final(buf)@ == old(buf)@ + init_cmd(),
{
    buf.push(0x1B);
    buf.push(0x40);
    assert(buf@ =~= old(buf)@ + init_cmd());
}

/// Appends the set-alignment command.
pub fn esc_align(buf: &mut Vec<u8>, a: Align)
    ensures
        final(buf)@ == old(buf)@ + align_cmd(a),
{
    let n: u8 = match a {
        Align::Left => 0,
        Align::Center => 1,
        Align::Right => 2,
    };
    buf.push(0x1B);
    buf.push(0x61);
    buf.push(n);
    assert(buf@ =~= old(buf)@ + align_cmd(a));
}

/// Appends the UTF-8 bytes of `s`, then a line feed if `newline` holds.
pub fn esc_text_line(buf: &mut Vec<u8>, s: &str, newline: bool)
    ensures
        final(buf)@ == old(buf)@ + text_cmd(s@, newline),
{
    push_bytes(buf, s.as_bytes());
    if newline {
        buf.push(0x0A);
    }
    assert(buf@ =~= old(buf)@ + text_cmd(s@, newline));
}

/// Appends a feed of `lines` lines.
pub fn esc_feed(buf: &mut Vec<u8>, lines: u8)
    ensures
        final(buf)@ == old(buf)@ + feed_cmd(lines),
{
    buf.push(0x1B);
    buf.push(0x64);
    buf.push(lines);
    assert(buf@ =~= old(buf)@ + feed_cmd(lines));
}

/// Appends a full cut, or a partial one.
pub fn esc_cut(buf: &mut Vec<u8>, partial: bool)
    ensures
        final(buf)@ == old(buf)@ + cut_cmd(partial),
{
    buf.push(0x1D);
    buf.push(0x56);
    buf.push(if partial { 0x01 } else { 0x00 });
    assert(buf@ =~= old(buf)@ + cut_cmd(partial));
}

/// Appends the raster-image command for a packed bitmap, or fails, leaving
/// `buf` as it was, when `data` does not have the packed size.
pub fn esc_raster_image(buf: &mut Vec<u8>, width: u32, height: u32, data: &[u8], scale_m: u8) -> (r: Result<(), ProxyError>)
    ensures
        r is Ok <==> data@.len() == packed_size(width, height),
        r is Ok ==> final(buf)@ == old(buf)@ + raster_cmd(width, height, data@, scale_m),
        r matches Err(e) ==> e.is_bad_payload() && final(buf)@ == old(buf)@,
{
    let x_bytes: u64 = ((width as u64) + 7) / 8;
    assert(x_bytes * (height as u64) <= 0x2000_0000u64 * 0xFFFF_FFFFu64) by (nonlinear_arith)
        requires
            x_bytes <= 0x2000_0000u64,
    ;
    let expected: u64 = x_bytes * (height as u64);
    if data.len() as u64 != expected {
        return Err(ProxyError::BadPayload(message("image data does not have the packed size")));
    }
    let x_l = (x_bytes % 256) as u8;
    let x_h = ((x_bytes / 256) % 256) as u8;
    let y_l = (height % 256) as u8;
    let y_h = ((height / 256) % 256) as u8;
    buf.push(0x1D);
    buf.push(0x76);
    buf.push(0x30);
    buf.push(scale_m);
    buf.push(x_l);
    buf.push(x_h);
    buf.push(y_l);
    buf.push(y_h);
    push_bytes(buf, data);
    assert(buf@ =~= old(buf)@ + raster_cmd(width, height, data@, scale_m));
    Ok(())
}

/// Encodes a document: initialize, each image with its alignment and feed,
/// alignment back to left, then the cut policy. Fails when an image's bitmap
/// does not have its packed size.
pub fn build_escpos_from_epos_doc(doc: &EposDoc) -> (r: Result<Vec<u8>, ProxyError>)
    ensures
        r is Ok <==> images_sized(doc@.images),
        r matches Ok(out) ==> out@ == doc_bytes(doc@),
        r matches Err(e) ==> e.is_bad_payload(),
{
    let mut out: Vec<u8> = Vec::new();
    esc_init(&mut out);
    let ghost images = doc@.images;
    let mut i: usize = 0;
    while i < doc.images.len()
        invariant
            i <= doc.images@.len(),
            images == doc@.images,
            images.len() == doc.images@.len(),
            images_sized(images.subrange(0, i as int)),
            out@ == init_cmd() + images_cmds(images.subrange(0, i as int)),
        decreases doc.images.len() - i,
    {
        let img = &doc.images[i];
        assert(images[i as int] == img@);
        esc_align(&mut out, img.align);
        let res = esc_raster_image(&mut out, img.width, img.height, img.bitmap.as_slice(), img.scale_m);
        if res.is_err() {
            assert(!images_sized(images)) by {
                assert(!((#[trigger] images[i as int]).bitmap.len() == packed_size(images[i as int].width, images[i as int].height)));
            }
            return Err(ProxyError::BadPayload(message("image data does not have the packed size")));
        }
        if img.gap_lines > 0 {
            esc_feed(&mut out, img.gap_lines);
        }
        i += 1;
        assert(images.subrange(0, i as int).drop_last() =~= images.subrange(0, i as int - 1));
        assert(images.subrange(0, i as int).last() == img@);
        assert(out@ =~= init_cmd() + images_cmds(images.subrange(0, i as int)));
        assert(images_sized(images.subrange(0, i as int))) by {
            assert forall|j: int| 0 <= j < i implies (#[trigger] images.subrange(0, i as int)[j]).bitmap.len()
                == packed_size(images[j].width, images[j].height) by {
                if j < i - 1 {
                    assert(images.subrange(0, i as int - 1)[j] == images[j]);
                }
            }
        }
    }
    assert(images.subrange(0, i as int) =~= images);
    esc_align(&mut out, Align::Left);
    match &doc.cut {
        Some(t) => {
            if str_eq_ignore_ascii_case(t.as_str(), "feed") {
                esc_feed(&mut out, 3);
                esc_cut(&mut out, false);
            } else if str_eq_ignore_ascii_case(t.as_str(), "partial") {
                esc_cut(&mut out, true);
            } else {
                esc_cut(&mut out, false);
            }
        },
        None => {
            esc_feed(&mut out, 3);
            esc_cut(&mut out, false);
        },
    }
    assert(out@ =~= doc_bytes(doc@));
    Ok(out)
}

/// Encodes a JSON operation list, one operation after the other.
pub fn build_escpos_from_ops(ops: &[PrintOp]) -> (r: Result<Vec<u8>, ProxyError>)
    ensures
        r matches Ok(out) && out@ == ops_bytes(ops@),
{
    let mut out: Vec<u8> = Vec::new();
    let mut i: usize = 0;
    while i < ops.len()
        invariant
            i <= ops@.len(),
            out@ == ops_bytes(ops@.subrange(0, i as int)),
        decreases ops.len() - i,
    {
        match &ops[i] {
            PrintOp::Init => esc_init(&mut out),
            PrintOp::Text { data, newline } => {
                let nl = match newline {
                    Some(b) => *b,
                    None => true,
                };
                esc_text_line(&mut out, data.as_str(), nl);
            },
            PrintOp::Feed { lines } => esc_feed(&mut out, *lines),
            PrintOp::Cut { mode } => {
                let partial = match mode {
                    Some(m) => str_eq_ignore_ascii_case(m.as_str(), "partial")
                        || str_eq_ignore_ascii_case(m.as_str(), "p"),
                    None => false,
                };
                esc_cut(&mut out, partial);
            },
        }
        i += 1;
        assert(ops@.subrange(0, i as int).drop_last() =~= ops@.subrange(0, i as int - 1));
    }
    assert(ops@.subrange(0, i as int) =~= ops@);
    Ok(out)
}

proof fn lemma_images_cmds_append(a: Seq<ImageModel>, b: Seq<ImageModel>)
    ensures
        images_cmds(a + b) == images_cmds(a) + images_cmds(b),
    decreases b.len(),
{
    if b.len() == 0 {
        assert(a + b =~= a);
        assert(images_cmds(a) + images_cmds(b) =~= images_cmds(a));
    } else {
        lemma_images_cmds_append(a, b.drop_last());
        assert((a + b).drop_last() =~= a + b.drop_last());
        assert((a + b).last() == b.last());
    }
}

/// The stream of a document holds, for each of its images, the raster
/// command with that image's width, height, scale and bitmap bytes.
pub proof fn lemma_raster_in_stream(doc: DocModel, i: int)
    requires
        0 <= i < doc.images.len(),
    ensures
        exists|off: int| #![trigger doc_bytes(doc).subrange(off, off + raster_cmd(doc.images[i].width, doc.images[i].height, doc.images[i].bitmap, doc.images[i].scale_m).len())]
            0 <= off && off + raster_cmd(doc.images[i].width, doc.images[i].height, doc.images[i].bitmap, doc.images[i].scale_m).len() <= doc_bytes(doc).len()
            && doc_bytes(doc).subrange(off, off + raster_cmd(doc.images[i].width, doc.images[i].height, doc.images[i].bitmap, doc.images[i].scale_m).len())
                == raster_cmd(doc.images[i].width, doc.images[i].height, doc.images[i].bitmap, doc.images[i].scale_m),
{
    let imgs = doc.images;
    let img = imgs[i];
    let pre = imgs.subrange(0, i);
    let post = imgs.subrange(i + 1, imgs.len() as int);
    let one = seq![img];
    assert(imgs =~= pre + one + post);
    lemma_images_cmds_append(pre + one, post);
    lemma_images_cmds_append(pre, one);
    assert(one.drop_last() =~= Seq::<ImageModel>::empty());
    assert(images_cmds(Seq::<ImageModel>::empty()) == Seq::<u8>::empty());
    assert(one.last() == img);
    assert(images_cmds(one) == images_cmds(one.drop_last()) + image_cmds(one.last()));
    assert(images_cmds(one) =~= image_cmds(img));
    let rc = raster_cmd(img.width, img.height, img.bitmap, img.scale_m);
    let off: int = 2 + images_cmds(pre).len() as int + 3;
    let all = doc_bytes(doc);
    assert(all =~= init_cmd() + images_cmds(pre) + align_cmd(img.align) + rc
        + (if img.gap_lines > 0 { feed_cmd(img.gap_lines) } else { Seq::empty() }) + images_cmds(post)
        + align_cmd(Align::Left) + cut_tail(doc.cut));
    assert(all.subrange(off, off + rc.len() as int) =~= rc);
}

} // verus!
