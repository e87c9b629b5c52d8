use mouse_testing::hid_descriptor::{decode, extract, parse, Field, ReportMap};

/// The real report descriptor read from a built-in trackpad, byte for byte.
const TRACKPAD: &[u8] = &[
    0x05, 0x01, 0x09, 0x02, 0xa1, 0x01, 0x09, 0x01, 0xa1, 0x00, 0x05, 0x09, 0x19, 0x01,
    0x29, 0x03, 0x15, 0x00, 0x25, 0x01, 0x85, 0x02, 0x95, 0x03, 0x75, 0x01, 0x81, 0x02,
    0x95, 0x01, 0x75, 0x05, 0x81, 0x01, 0x05, 0x01, 0x09, 0x30, 0x09, 0x31, 0x15, 0x81,
    0x25, 0x7f, 0x75, 0x08, 0x95, 0x02, 0x81, 0x06, 0x95, 0x04, 0x75, 0x08, 0x81, 0x01,
    0x76, 0x00, 0x40, 0x95, 0x02, 0xb1, 0x01, 0xc0, 0xc0, 0x05, 0x0d, 0x09, 0x05, 0xa1,
    0x01, 0x06, 0x00, 0xff, 0x09, 0x0c, 0x15, 0x00, 0x26, 0xff, 0x00, 0x75, 0x08, 0x95,
    0x10, 0x85, 0x3f, 0x81, 0x22, 0xc0, 0x06, 0x00, 0xff, 0x09, 0x0c, 0xa1, 0x01, 0x06,
    0x00, 0xff, 0x09, 0x0c, 0x15, 0x00, 0x26, 0xff, 0x00, 0x85, 0x44, 0x75, 0x08, 0x96,
    0xd7, 0x06, 0x81, 0x00, 0xc0,
];

/// A classic three-button-plus-wheel mouse with no report id.
const CLASSIC: &[u8] = &[
    0x05, 0x01, 0x09, 0x02, 0xa1, 0x01, 0x09, 0x01, 0xa1, 0x00, 0x05, 0x09, 0x19, 0x01,
    0x29, 0x03, 0x15, 0x00, 0x25, 0x01, 0x95, 0x03, 0x75, 0x01, 0x81, 0x02, 0x95, 0x01,
    0x75, 0x05, 0x81, 0x03, 0x05, 0x01, 0x09, 0x30, 0x09, 0x31, 0x09, 0x38, 0x15, 0x81,
    0x25, 0x7f, 0x75, 0x08, 0x95, 0x03, 0x81, 0x06, 0xc0, 0xc0,
];

/// Five buttons, 16-bit deltas, a wheel and a horizontal wheel on the
/// consumer page.
const HIGH_RES: &[u8] = &[
    0x05, 0x01, 0x09, 0x02, 0xa1, 0x01, 0x85, 0x01, 0x09, 0x01, 0xa1, 0x00, 0x05, 0x09,
    0x19, 0x01, 0x29, 0x05, 0x15, 0x00, 0x25, 0x01, 0x95, 0x05, 0x75, 0x01, 0x81, 0x02,
    0x95, 0x01, 0x75, 0x03, 0x81, 0x01, 0x05, 0x01, 0x09, 0x30, 0x09, 0x31, 0x16, 0x00,
    0x80, 0x26, 0xff, 0x7f, 0x75, 0x10, 0x95, 0x02, 0x81, 0x06, 0x09, 0x38, 0x15, 0x81,
    0x25, 0x7f, 0x75, 0x08, 0x95, 0x01, 0x81, 0x06, 0x05, 0x0c, 0x0a, 0x38, 0x02, 0x15,
    0x81, 0x25, 0x7f, 0x75, 0x08, 0x95, 0x01, 0x81, 0x06, 0xc0, 0xc0,
];

fn field(map: &ReportMap, page: u16, usage: u16) -> Option<Field> {
    map.fields
        .iter()
        .copied()
        .find(|f| f.usage_page == page && f.usage == usage)
}

#[test]
fn parses_the_real_trackpad_descriptor() {
    let map = parse(TRACKPAD);
    assert!(map.uses_report_ids);

    let x = field(&map, 0x01, 0x30).expect("no X field");
    let y = field(&map, 0x01, 0x31).expect("no Y field");
    assert_eq!(x.report_id, 2);
    assert_eq!((x.bit_offset, x.bit_size, x.signed, x.relative), (8, 8, true, true));
    assert_eq!((y.bit_offset, y.bit_size, y.signed, y.relative), (16, 8, true, true));

    // Three buttons in the low three bits, then five bits of padding.
    for (n, expected_bit) in [(1u16, 0u32), (2, 1), (3, 2)] {
        let b = field(&map, 0x09, n).unwrap_or_else(|| panic!("no button {n}"));
        assert_eq!(b.bit_offset, expected_bit);
        assert_eq!(b.bit_size, 1);
        assert!(!b.relative);
    }
    // This descriptor genuinely has no wheel.
    assert!(field(&map, 0x01, 0x38).is_none());
    assert!(map.is_pointer_report(2));
}

#[test]
fn parses_a_classic_mouse_without_report_ids() {
    let map = parse(CLASSIC);
    assert!(!map.uses_report_ids);
    let x = field(&map, 0x01, 0x30).unwrap();
    let y = field(&map, 0x01, 0x31).unwrap();
    let w = field(&map, 0x01, 0x38).unwrap();
    assert_eq!(x.bit_offset, 8);
    assert_eq!(y.bit_offset, 16);
    assert_eq!(w.bit_offset, 24);
    for f in [x, y, w] {
        assert_eq!(f.bit_size, 8);
        assert!(f.signed && f.relative);
    }
}

#[test]
fn parses_sixteen_bit_deltas_and_a_horizontal_wheel() {
    let map = parse(HIGH_RES);
    let x = field(&map, 0x01, 0x30).unwrap();
    let y = field(&map, 0x01, 0x31).unwrap();
    assert_eq!((x.bit_offset, x.bit_size), (8, 16));
    assert_eq!((y.bit_offset, y.bit_size), (24, 16));
    assert!(x.signed && x.relative);
    let w = field(&map, 0x01, 0x38).unwrap();
    assert_eq!((w.bit_offset, w.bit_size), (40, 8));
    let h = field(&map, 0x0C, 0x0238).expect("no AC Pan field");
    assert_eq!((h.bit_offset, h.bit_size), (48, 8));
    // Five buttons, not three.
    assert!(field(&map, 0x09, 5).is_some());
    assert!(field(&map, 0x09, 6).is_none());
}

#[test]
fn bit_extraction_handles_sign_and_straddling_bytes() {
    // 0xFF as a signed 8-bit value is -1, as unsigned it is 255.
    assert_eq!(extract(&[0xFF], 0, 8, true), -1);
    assert_eq!(extract(&[0xFF], 0, 8, false), 255);
    assert_eq!(extract(&[0x80], 0, 8, true), -128);
    // 12 bits spanning a byte boundary.
    assert_eq!(extract(&[0x34, 0x12], 0, 12, false), 0x234);
    assert_eq!(extract(&[0b0000_0110], 1, 2, false), 0b11);
    // 16-bit little endian.
    assert_eq!(extract(&[0x00, 0x80], 0, 16, true), -32768);
    assert_eq!(extract(&[0xFF, 0x7F], 0, 16, true), 32767);
    // Reading past the end yields zero rather than panicking.
    assert_eq!(extract(&[0x01], 0, 32, false), 0);
}

#[test]
fn decodes_a_trackpad_report_body() {
    let map = parse(TRACKPAD);
    let fields = map.fields_for(2);
    // Buttons byte: left down. X = -3, Y = +7.
    let body = [0b0000_0001u8, (-3i8) as u8, 7u8, 0, 0, 0, 0];
    let d = decode(&fields, &body);
    assert_eq!(d.dx, -3);
    assert_eq!(d.dy, 7);
    assert_eq!(d.buttons, 0b1);
    assert_eq!(d.wheel, 0);
}

#[test]
fn decodes_a_high_resolution_report_body() {
    let map = parse(HIGH_RES);
    let fields = map.fields_for(1);
    // Buttons 1 and 5 down, dx = -1000, dy = 2000, wheel -1, pan +1.
    let mut body = vec![0u8; 7];
    body[0] = 0b0001_0001;
    body[1..3].copy_from_slice(&(-1000i16).to_le_bytes());
    body[3..5].copy_from_slice(&2000i16.to_le_bytes());
    body[5] = (-1i8) as u8;
    body[6] = 1;
    let d = decode(&fields, &body);
    assert_eq!(d.dx, -1000);
    assert_eq!(d.dy, 2000);
    assert_eq!(d.wheel, -1);
    assert_eq!(d.hwheel, 1);
    assert_eq!(d.buttons, 0b1_0001);
}

#[test]
fn a_truncated_or_junk_descriptor_does_not_panic() {
    for cut in 0..TRACKPAD.len() {
        let _ = parse(&TRACKPAD[..cut]);
    }
    let _ = parse(&[0xFE, 0x02, 0x00, 0xAA, 0xBB]);
    let _ = parse(&[0xFF; 64]);
}

#[test]
fn report_layout_is_recorded_per_report_id() {
    // The trackpad's report 2 is three button bits, five padding bits, two
    // bytes of motion and four constant bytes: 56 bits in all. Report 0x3f
    // is sixteen vendor bytes.
    let map = parse(TRACKPAD);
    assert!(map.report_bits.contains(&(2, 56)));
    assert!(map.report_bits.contains(&(0x3f, 128)));
    let classic = parse(CLASSIC);
    assert_eq!(classic.report_bits, vec![(0, 32)]);
}

#[test]
fn fields_for_keeps_only_one_report_and_its_order() {
    let map = parse(TRACKPAD);
    let two = map.fields_for(2);
    assert!(two.iter().all(|f| f.report_id == 2));
    assert_eq!(two.len(), 5);
    assert_eq!(two[0].usage, 1);
    assert!(map.fields_for(9).is_empty());
    assert!(!map.is_pointer_report(0x3f));
}

#[test]
fn a_field_past_the_end_of_the_body_reads_zero_and_unknown_usages_are_ignored() {
    let f = Field {
        report_id: 0,
        usage_page: 0x01,
        usage: 0x30,
        bit_offset: 64,
        bit_size: 8,
        signed: true,
        relative: true,
    };
    let vendor = Field { usage_page: 0xFF00, usage: 1, bit_offset: 0, ..f };
    let d = decode(&[f, vendor], &[0x7F]);
    assert_eq!(d.dx, 0);
    assert_eq!(d.matched_fields, 1);
    assert_eq!(extract(&[1, 2, 3], 0, 0, false), 0);
    assert_eq!(extract(&[1, 2, 3, 4, 5], 0, 33, false), 0);
}
