use printer_proxy::attrs::{parse_align, parse_bit_order, parse_bit_order_public, parse_bool, parse_bool_public, parse_scale, parse_uint};
use printer_proxy::bitmap::BitOrder;
use printer_proxy::errors::ProxyError;
use printer_proxy::escpos::{build_escpos_from_epos_doc, Align};
use printer_proxy::soap::{finish_image, parse_epos_events, parse_epos_soap, read_image_attrs, strip_whitespace, ImageAcc, XmlAttr, XmlEvent};

fn soap(inner: &str) -> Vec<u8> {
    format!(
        "<?xml version=\"1.0\"?><s:Envelope xmlns:s=\"http://schemas.xmlsoap.org/soap/envelope/\"><s:Body>\
         <epos-print xmlns=\"http://www.epson-pos.com/schemas/2011/03/epos-print\">{}</epos-print></s:Body></s:Envelope>",
        inner
    )
    .into_bytes()
}

#[test]
fn example_image_encodes_exactly() {
    let body = soap("<image width=\"8\" height=\"1\" align=\"center\" scale=\"2x\">/w==</image>");
    let doc = parse_epos_soap(&body, None, None).unwrap();
    let out = build_escpos_from_epos_doc(&doc).unwrap();
    assert_eq!(
        out,
        vec![
            0x1B, 0x40, 0x1B, 0x61, 0x01, 0x1D, 0x76, 0x30, 0x03, 0x01, 0x00, 0x01, 0x00, 0xFF, 0x1B, 0x61,
            0x00, 0x1B, 0x64, 0x03, 0x1D, 0x56, 0x00
        ]
    );
}

#[test]
fn exact_size_bitmap_reaches_raster_command() {
    // 20 x 3 pixels: 3 bytes per row, 9 bytes.
    let body = soap("<image width=\"20\" height=\"3\">AQIDBAUGBwgJ</image>");
    let doc = parse_epos_soap(&body, None, None).unwrap();
    assert_eq!(doc.images[0].bitmap, vec![1, 2, 3, 4, 5, 6, 7, 8, 9]);
    let out = build_escpos_from_epos_doc(&doc).unwrap();
    let header = [0x1Du8, 0x76, 0x30, 0x00, 0x03, 0x00, 0x03, 0x00];
    let pos = out.windows(8).position(|w| w == header).unwrap();
    assert_eq!(&out[pos + 8..pos + 17], &[1, 2, 3, 4, 5, 6, 7, 8, 9]);
}

#[test]
fn lsb_and_invert_overrides_transform_bitmap() {
    let body = soap("<image width=\"8\" height=\"1\" bit_order=\"msb\">AQ==</image>");
    let doc = parse_epos_soap(&body, Some(true), Some(BitOrder::LsbFirst)).unwrap();
    assert_eq!(doc.images[0].bitmap, vec![0x7F]);
    assert!(doc.images[0].invert);
    assert_eq!(doc.images[0].bit_order, BitOrder::LsbFirst);
    let own = soap("<image width=\"8\" height=\"1\" invert=\"YES\" bit_order=\"LSB_FIRST\">AQ==</image>");
    let doc = parse_epos_soap(&own, None, None).unwrap();
    assert_eq!(doc.images[0].bitmap, vec![0x7F]);
}

#[test]
fn no_image_is_bad_payload() {
    let body = soap("<text>hello</text><cut type=\"feed\"/>");
    assert!(matches!(parse_epos_soap(&body, None, None), Err(ProxyError::BadPayload(_))));
}

#[test]
fn short_data_is_zero_padded() {
    // 16 x 2 pixels need 4 bytes; one is given.
    let body = soap("<image width=\"16\" height=\"2\">\n  /w==\n</image>");
    let doc = parse_epos_soap(&body, None, None).unwrap();
    assert_eq!(doc.images[0].bitmap, vec![0xFF, 0, 0, 0]);
}

#[test]
fn long_data_is_truncated() {
    let body = soap("<image width=\"8\" height=\"1\">AQID</image>");
    let doc = parse_epos_soap(&body, None, None).unwrap();
    assert_eq!(doc.images[0].bitmap, vec![1]);
}

#[test]
fn partial_cut_only_cuts() {
    let body = soap("<image width=\"8\" height=\"1\">AQ==</image><cut type=\"partial\"/>");
    let doc = parse_epos_soap(&body, None, None).unwrap();
    assert_eq!(doc.cut.as_deref(), Some("partial"));
    let out = build_escpos_from_epos_doc(&doc).unwrap();
    assert_eq!(&out[out.len() - 6..], &[0x1B, 0x61, 0x00, 0x1D, 0x56, 0x01]);
    assert!(!out.windows(2).any(|w| w == [0x1B, 0x64]));
}

#[test]
fn missing_cut_feeds_and_cuts() {
    let body = soap("<image width=\"8\" height=\"1\">AQ==</image>");
    let out = build_escpos_from_epos_doc(&parse_epos_soap(&body, None, None).unwrap()).unwrap();
    assert_eq!(&out[out.len() - 6..], &[0x1B, 0x64, 0x03, 0x1D, 0x56, 0x00]);
}

#[test]
fn multiple_images_keep_order_and_last_cut_wins() {
    let body = soap(
        "<cut type=\"feed\"></cut><image width=\"8\" height=\"1\" gap=\"2\">AQ==</image>\
         <image width=\"8\" height=\"1\" align=\"RIGHT\">Ag==</image><cut type=\"full\"/>",
    );
    let doc = parse_epos_soap(&body, None, None).unwrap();
    assert_eq!(doc.images.len(), 2);
    assert_eq!(doc.images[0].bitmap, vec![1]);
    assert_eq!(doc.images[0].gap_lines, 2);
    assert_eq!(doc.images[1].bitmap, vec![2]);
    assert_eq!(doc.images[1].align, Align::Right);
    assert_eq!(doc.cut.as_deref(), Some("full"));
}

#[test]
fn incomplete_image_is_rejected() {
    for inner in [
        "<image height=\"1\">AQ==</image>",
        "<image width=\"8\" height=\"0\">AQ==</image>",
        "<image width=\"8\" height=\"1\"></image>",
        "<image width=\"8\" height=\"1\">not base64!</image>",
    ] {
        assert!(matches!(parse_epos_soap(&soap(inner), None, None), Err(ProxyError::BadPayload(_))), "{}", inner);
    }
}

#[test]
fn malformed_xml_is_rejected() {
    let body = b"<epos-print><image width=\"8\" height=\"1\">AQ==</wrong></epos-print>".to_vec();
    assert!(matches!(parse_epos_soap(&body, None, None), Err(ProxyError::BadPayload(_))));
}

#[test]
fn events_are_parsed_without_xml() {
    let attrs = vec![
        XmlAttr { key: b"WIDTH".to_vec(), value: "8".to_string() },
        XmlAttr { key: b"height".to_vec(), value: "+1".to_string() },
        XmlAttr { key: b"scale".to_vec(), value: "2h".to_string() },
    ];
    let events = vec![
        XmlEvent::Start { name: b"p:IMAGE".to_vec(), attrs },
        XmlEvent::Text { text: "A Q = =".to_string() },
        XmlEvent::End { name: b"p:IMAGE".to_vec() },
        XmlEvent::Start { name: b"cut".to_vec(), attrs: vec![XmlAttr { key: b"Type".to_vec(), value: "feed".to_string() }] },
        XmlEvent::Eof,
    ];
    let doc = parse_epos_events(&events, None, None).unwrap();
    assert_eq!(doc.images.len(), 1);
    assert_eq!(doc.images[0].scale_m, 2);
    assert_eq!(doc.images[0].bitmap, vec![1]);
    assert_eq!(doc.cut.as_deref(), Some("feed"));
    let failed = vec![XmlEvent::Failed { message: "bad".to_string() }];
    assert!(matches!(parse_epos_events(&failed, None, None), Err(ProxyError::BadPayload(_))));
}

#[test]
fn image_attributes_read_with_defaults() {
    let attrs = vec![
        XmlAttr { key: b"align".to_vec(), value: "Center".to_string() },
        XmlAttr { key: b"gap".to_vec(), value: "300".to_string() },
        XmlAttr { key: b"width".to_vec(), value: "abc".to_string() },
    ];
    let acc = read_image_attrs(&attrs);
    assert_eq!(acc.align, Align::Center);
    assert_eq!(acc.gap, 0);
    assert_eq!(acc.width, 0);
    assert_eq!(acc.bit_order, BitOrder::MsbFirst);
}

#[test]
fn finish_image_normalizes_then_transforms() {
    let acc = ImageAcc { width: 9, height: 1, align: Align::Left, gap: 0, scale: 0, invert: true, bit_order: BitOrder::MsbFirst };
    let img = finish_image(acc, vec![0x0F], None, None);
    assert_eq!(img.bitmap, vec![0xF0, 0xFF]);
}

#[test]
fn whitespace_is_stripped() {
    let chars: Vec<char> = " a\tb\nc\u{A0}d ".chars().collect();
    assert_eq!(strip_whitespace(&chars), vec!['a', 'b', 'c', 'd']);
}

#[test]
fn attribute_values_read() {
    assert_eq!(parse_align("RIGHT"), Align::Right);
    assert_eq!(parse_align("middle"), Align::Left);
    assert_eq!(parse_scale("2W"), 1);
    assert_eq!(parse_scale("2h"), 2);
    assert_eq!(parse_scale("2"), 3);
    assert_eq!(parse_scale("3x"), 0);
    assert!(parse_bool("On"));
    assert!(parse_bool("y"));
    assert!(!parse_bool("no"));
    assert!(parse_bool_public("TRUE"));
    assert_eq!(parse_bit_order("lsb"), BitOrder::LsbFirst);
    assert_eq!(parse_bit_order("msb"), BitOrder::MsbFirst);
    assert_eq!(parse_bit_order_public("Lsb_First"), BitOrder::LsbFirst);
}

#[test]
fn unsigned_numbers_parse_like_std() {
    assert_eq!(parse_uint("42", 255), Some(42));
    assert_eq!(parse_uint("+7", 255), Some(7));
    assert_eq!(parse_uint("256", 255), None);
    assert_eq!(parse_uint("", 255), None);
    assert_eq!(parse_uint("+", 255), None);
    assert_eq!(parse_uint("-1", 255), None);
    assert_eq!(parse_uint("4294967295", 0xFFFF_FFFF), Some(4294967295));
    assert_eq!(parse_uint("4294967296", 0xFFFF_FFFF), None);
}

#[test]
fn xml_error_message_carries_parser_text() {
    let body = b"<a><b></a>".to_vec();
    match parse_epos_soap(&body, None, None) {
        Err(ProxyError::BadPayload(m)) => {
            assert!(m.starts_with("XML parse error: "), "{}", m);
            assert!(m.len() > "XML parse error: ".len());
        }
        other => panic!("unexpected {:?}", other),
    }
}

#[test]
fn xml_error_after_complete_image_rejects_document() {
    let body = b"<p><image width=\"8\" height=\"1\">AQ==</image></q>".to_vec();
    match parse_epos_soap(&body, None, None) {
        Err(ProxyError::BadPayload(m)) => assert!(m.starts_with("XML parse error: "), "{}", m),
        other => panic!("unexpected {:?}", other),
    }
}

#[test]
fn base64_error_message_carries_decoder_text() {
    let body = soap("<image width=\"8\" height=\"1\">@@@</image>");
    match parse_epos_soap(&body, None, None) {
        Err(ProxyError::BadPayload(m)) => {
            assert!(m.starts_with("image data is not valid base64: "), "{}", m);
            assert!(m.len() > "image data is not valid base64: ".len());
        }
        other => panic!("unexpected {:?}", other),
    }
}

#[test]
fn one_image_short_data_padded_before_transform() {
    // 16 x 1 pixels need 2 bytes; one byte 0x01 is given, bit order reversed.
    let body = soap("<image width=\"16\" height=\"1\" bit_order=\"lsb\">AQ==</image>");
    let doc = parse_epos_soap(&body, None, None).unwrap();
    assert_eq!(doc.images[0].bitmap, vec![0x80, 0x00]);
    let out = build_escpos_from_epos_doc(&doc).unwrap();
    assert_eq!(&out[5..13], &[0x1D, 0x76, 0x30, 0x00, 0x02, 0x00, 0x01, 0x00]);
    assert_eq!(&out[13..15], &[0x80, 0x00]);
}
