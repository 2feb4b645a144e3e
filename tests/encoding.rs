use printer_proxy::bitmap::{bit_reverse_byte, normalize_bitmap, transform_bitmap, BitOrder};
use printer_proxy::errors::ProxyError;
use printer_proxy::escpos::{
    build_escpos_from_epos_doc, build_escpos_from_ops, esc_align, esc_cut, esc_feed, esc_init,
    esc_raster_image, esc_text_line, Align, EposDoc, ImageSpec, PrintOp,
};

fn image(width: u32, height: u32, bitmap: Vec<u8>) -> ImageSpec {
    ImageSpec {
        width,
        height,
        align: Align::Left,
        gap_lines: 0,
        scale_m: 0,
        invert: false,
        bit_order: BitOrder::MsbFirst,
        bitmap,
    }
}

#[test]
fn bit_reverse_mirrors_bits() {
    assert_eq!(bit_reverse_byte(0x01), 0x80);
    assert_eq!(bit_reverse_byte(0xF0), 0x0F);
    assert_eq!(bit_reverse_byte(0b1100_1010), 0b0101_0011);
}

#[test]
fn transform_twice_restores_bytes() {
    let data = vec![0x00u8, 0x01, 0x5A, 0xC3, 0xFF, 0x80];
    for invert in [false, true] {
        for order in [BitOrder::MsbFirst, BitOrder::LsbFirst] {
            let once = transform_bitmap(data.clone(), invert, order);
            let twice = transform_bitmap(once, invert, order);
            assert_eq!(twice, data);
        }
    }
}

#[test]
fn transform_inverts_then_reverses() {
    assert_eq!(transform_bitmap(vec![0x0F], true, BitOrder::MsbFirst), vec![0xF0]);
    assert_eq!(transform_bitmap(vec![0x01], false, BitOrder::LsbFirst), vec![0x80]);
    assert_eq!(transform_bitmap(vec![0x01], true, BitOrder::LsbFirst), vec![0x7F]);
}

#[test]
fn normalize_pads_and_truncates() {
    assert_eq!(normalize_bitmap(vec![1, 2], 4), vec![1, 2, 0, 0]);
    assert_eq!(normalize_bitmap(vec![1, 2, 3, 4, 5], 3), vec![1, 2, 3]);
    assert_eq!(normalize_bitmap(vec![], 0), Vec::<u8>::new());
}

#[test]
fn command_bytes_match_reference() {
    let mut buf = Vec::new();
    esc_init(&mut buf);
    esc_align(&mut buf, Align::Right);
    esc_feed(&mut buf, 7);
    esc_cut(&mut buf, true);
    esc_cut(&mut buf, false);
    esc_text_line(&mut buf, "Hi", true);
    esc_text_line(&mut buf, "é", false);
    assert_eq!(
        buf,
        vec![0x1B, 0x40, 0x1B, 0x61, 2, 0x1B, 0x64, 7, 0x1D, 0x56, 1, 0x1D, 0x56, 0, b'H', b'i', b'\n', 0xC3, 0xA9]
    );
}

#[test]
fn raster_header_is_little_endian() {
    let mut buf = Vec::new();
    let data = vec![0xAAu8; 300 * 2];
    esc_raster_image(&mut buf, 2400, 2, &data, 1).unwrap();
    assert_eq!(&buf[..8], &[0x1D, 0x76, 0x30, 1, 0x2C, 0x01, 0x02, 0x00]);
    assert_eq!(buf.len(), 8 + 600);
}

#[test]
fn raster_size_mismatch_is_bad_payload() {
    let mut buf = vec![9u8];
    let r = esc_raster_image(&mut buf, 9, 2, &[1, 2, 3], 0);
    assert!(matches!(r, Err(ProxyError::BadPayload(_))));
    assert_eq!(buf, vec![9u8]);
}

#[test]
fn document_encoding_with_default_cut() {
    let mut img = image(8, 1, vec![0xFF]);
    img.align = Align::Center;
    img.scale_m = 3;
    let doc = EposDoc { images: vec![img], cut: None };
    let out = build_escpos_from_epos_doc(&doc).unwrap();
    assert_eq!(
        out,
        vec![
            0x1B, 0x40, 0x1B, 0x61, 0x01, 0x1D, 0x76, 0x30, 0x03, 0x01, 0x00, 0x01, 0x00, 0xFF, 0x1B, 0x61,
            0x00, 0x1B, 0x64, 0x03, 0x1D, 0x56, 0x00
        ]
    );
}

#[test]
fn document_cut_policies() {
    let tail = |cut: Option<&str>| {
        let doc = EposDoc { images: vec![image(8, 1, vec![0x01])], cut: cut.map(|c| c.to_string()) };
        let out = build_escpos_from_epos_doc(&doc).unwrap();
        out[17..].to_vec()
    };
    assert_eq!(tail(None), vec![0x1B, 0x64, 3, 0x1D, 0x56, 0]);
    assert_eq!(tail(Some("feed")), vec![0x1B, 0x64, 3, 0x1D, 0x56, 0]);
    assert_eq!(tail(Some("PARTIAL")), vec![0x1D, 0x56, 1]);
    assert_eq!(tail(Some("full")), vec![0x1D, 0x56, 0]);
}

#[test]
fn document_gap_feeds_after_image() {
    let mut img = image(16, 1, vec![0x12, 0x34]);
    img.gap_lines = 2;
    let doc = EposDoc { images: vec![img], cut: Some("partial".to_string()) };
    let out = build_escpos_from_epos_doc(&doc).unwrap();
    assert_eq!(
        out,
        vec![
            0x1B, 0x40, 0x1B, 0x61, 0, 0x1D, 0x76, 0x30, 0, 2, 0, 1, 0, 0x12, 0x34, 0x1B, 0x64, 2, 0x1B,
            0x61, 0, 0x1D, 0x56, 1
        ]
    );
}

#[test]
fn document_with_wrong_bitmap_size_fails() {
    let doc = EposDoc { images: vec![image(8, 2, vec![0x01])], cut: None };
    assert!(matches!(build_escpos_from_epos_doc(&doc), Err(ProxyError::BadPayload(_))));
}

#[test]
fn ops_encode_in_order() {
    let ops = vec![
        PrintOp::Init,
        PrintOp::Text { data: "A".to_string(), newline: None },
        PrintOp::Text { data: "B".to_string(), newline: Some(false) },
        PrintOp::Feed { lines: 4 },
        PrintOp::Cut { mode: Some("P".to_string()) },
        PrintOp::Cut { mode: Some("full".to_string()) },
        PrintOp::Cut { mode: None },
    ];
    let out = build_escpos_from_ops(&ops).unwrap();
    assert_eq!(
        out,
        vec![0x1B, 0x40, b'A', b'\n', b'B', 0x1B, 0x64, 4, 0x1D, 0x56, 1, 0x1D, 0x56, 0, 0x1D, 0x56, 0]
    );
}

#[test]
fn empty_ops_encode_to_nothing() {
    assert_eq!(build_escpos_from_ops(&[]).unwrap(), Vec::<u8>::new());
}
