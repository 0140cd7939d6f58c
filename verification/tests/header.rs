//! Headers and their attributes.

use openexr::header::{
    encode_attribute_value, encode_channel_list, encode_header, parse_attribute_value,
    parse_channel_list, parse_header, parse_multipart_headers, VersionField,
};
use openexr::types::{
    Attribute, AttributeValue, Box2i, Channel, Compression, LineOrder, PixelType,
};

#[test]
fn version_roundtrip() {
    let v = VersionField::from_u32(0x0000_0002);
    assert_eq!(v.format_version, 2);
    assert!(!v.long_names);
    assert!(!v.multipart);
    assert_eq!(v.to_u32(), 0x0000_0002);
}

#[test]
fn channel_list_roundtrip() {
    let chs = vec![
        Channel {
            name: "A".to_string(),
            pixel_type: PixelType::Half,
            p_linear: false,
            x_sampling: 1,
            y_sampling: 1,
        },
        Channel {
            name: "B".to_string(),
            pixel_type: PixelType::Float,
            p_linear: true,
            x_sampling: 1,
            y_sampling: 1,
        },
    ];
    let bytes = encode_channel_list(&chs);
    let chs2 = parse_channel_list(&bytes).unwrap();
    assert_eq!(chs, chs2);
}

#[test]
fn attribute_value_roundtrip_compression_and_box2i() {
    let attrs = vec![
        Attribute {
            name: "compression".into(),
            value: AttributeValue::Compression(Compression::Zip),
        },
        Attribute {
            name: "dataWindow".into(),
            value: AttributeValue::Box2i(Box2i {
                x_min: 0,
                y_min: 0,
                x_max: 7,
                y_max: 3,
            }),
        },
        Attribute {
            name: "lineOrder".into(),
            value: AttributeValue::LineOrder(LineOrder::IncreasingY),
        },
    ];
    let v = VersionField::from_u32(2);
    let raw = encode_header(v, &attrs);
    let parsed = parse_header(&raw).unwrap();
    assert_eq!(parsed.version.format_version, 2);
    assert_eq!(parsed.attributes, attrs);
}

#[test]
fn version_flags_have_their_bits() {
    let v = VersionField::from_u32(0x1e02);
    assert_eq!(v.format_version, 2);
    assert!(v.single_tile && v.long_names && v.non_image && v.multipart);
    assert_eq!(v.to_u32(), 0x1e02);
    let v = VersionField::from_u32(0x0202);
    assert!(v.single_tile && !v.long_names && !v.non_image && !v.multipart);
}

#[test]
fn attribute_values_have_their_bytes() {
    let (label, data) = encode_attribute_value(&AttributeValue::Int(-2));
    assert_eq!(label, "int");
    assert_eq!(data, vec![0xfe, 0xff, 0xff, 0xff]);
    assert_eq!(parse_attribute_value("int", &data).unwrap(), AttributeValue::Int(-2));
    let value = AttributeValue::String("caf\u{e9}".to_string());
    let (label, data) = encode_attribute_value(&value);
    assert_eq!(label, "string");
    assert_eq!(data, "caf\u{e9}".as_bytes());
    assert_eq!(parse_attribute_value(&label, &data).unwrap(), value);
    assert!(parse_attribute_value("int", &data[..3]).is_err());
    assert!(parse_attribute_value("compression", &[77]).is_err());
}

#[test]
fn headers_that_are_cut_short_are_refused() {
    let raw = encode_header(VersionField::from_u32(2), &[Attribute {
        name: "n".into(),
        value: AttributeValue::Int(5),
    }]);
    assert!(parse_header(&raw).is_ok());
    for end in 0..raw.len() {
        assert!(parse_header(&raw[..end]).is_err(), "{end}");
    }
    let mut wrong = raw.clone();
    wrong[0] ^= 1;
    assert!(parse_header(&wrong).is_err());
    assert!(parse_multipart_headers(&raw).is_err());
}

#[test]
fn attributes_without_a_type_name_are_read_back() {
    let attrs = vec![Attribute {
        name: "n".into(),
        value: AttributeValue::Other { type_label: String::new(), data: vec![1, 0, 2] },
    }];
    let raw = encode_header(VersionField::from_u32(2), &attrs);
    let h = parse_header(&raw).unwrap();
    assert_eq!(h.attributes, attrs);
    assert_eq!(h.end_offset, raw.len());
}

#[test]
fn nothing_behind_a_header_is_read() {
    let attrs = vec![Attribute { name: "n".into(), value: AttributeValue::Int(5) }];
    let raw = encode_header(VersionField::from_u32(2), &attrs);
    let h = parse_header(&raw).unwrap();
    assert_eq!(raw[h.end_offset - 1], 0);
    let mut longer = raw.clone();
    longer.extend_from_slice(&[7, 0, 0, 9, 0]);
    assert_eq!(parse_header(&longer).unwrap(), h);
}

#[test]
fn headers_of_parts_end_with_two_zero_bytes() {
    let attrs = vec![Attribute { name: "n".into(), value: AttributeValue::Int(5) }];
    let mut raw = encode_header(VersionField::from_u32(0x1002), &attrs);
    let table = raw[8..].to_vec();
    raw.extend_from_slice(&table);
    raw.push(0);
    let parts = parse_multipart_headers(&raw).unwrap();
    assert_eq!(parts.len(), 2);
    for p in &parts {
        assert_eq!(p.end_offset, raw.len());
        assert!(p.version.multipart);
        assert_eq!(p.attributes, attrs);
    }
    assert_eq!(raw[raw.len() - 2..], [0, 0]);
    for end in 0..raw.len() {
        assert!(parse_multipart_headers(&raw[..end]).is_err(), "{end}");
    }
}

#[test]
fn lists_of_texts_are_read_and_others_kept() {
    let texts = AttributeValue::StringVector(vec!["a".to_string(), String::new(), "bc".to_string()]);
    let (label, payload) = encode_attribute_value(&texts);
    assert_eq!(label, "stringvector");
    assert_eq!(payload, [1, 0, 0, 0, b'a', 0, 0, 0, 0, 2, 0, 0, 0, b'b', b'c']);
    assert_eq!(parse_attribute_value(&label, &payload).unwrap(), texts);
    assert_eq!(
        parse_attribute_value(&label, &[]).unwrap(),
        AttributeValue::StringVector(Vec::new())
    );
    // The length of the second text goes past the end; the bytes are no text;
    // the length is negative.
    for data in [
        &payload[..14],
        &[1, 0, 0, 0, 0xff],
        &[0xff, 0xff, 0xff, 0xff],
        &[1, 0],
    ] {
        let kept = AttributeValue::Other {
            type_label: label.clone(),
            data: data.to_vec(),
        };
        assert_eq!(parse_attribute_value(&label, data).unwrap(), kept);
        assert_eq!(encode_attribute_value(&kept), (label.clone(), data.to_vec()));
    }
}
