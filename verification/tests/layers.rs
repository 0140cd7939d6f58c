//! Layers of channels, and their views.

use openexr::header::{encode_header, parse_header, VersionField};
use openexr::layers::{
    enumerate_layers, find_layer, multi_view, split_channel_name, LayerKind,
};
use openexr::luma_chroma::chromaticities_of;
use openexr::types::{Attribute, AttributeValue, Channel, Chromaticities, PixelType};

fn ch(name: &str) -> Channel {
    Channel {
        name: name.to_string(),
        pixel_type: PixelType::Half,
        p_linear: false,
        x_sampling: 1,
        y_sampling: 1,
    }
}

#[test]
fn split_at_last_dot() {
    assert_eq!(split_channel_name("R"), ("", "R"));
    assert_eq!(split_channel_name("diffuse.R"), ("diffuse", "R"));
    assert_eq!(split_channel_name("a.b.c.RY"), ("a.b.c", "RY"));
    assert_eq!(split_channel_name("trailing."), ("trailing", ""));
}

#[test]
fn layers_group_and_classify() {
    let names = [
        "A",
        "B",
        "G",
        "R",
        "Z",
        "depth.Z",
        "diffuse.B",
        "diffuse.G",
        "diffuse.R",
        "ids.id",
        "lum.BY",
        "lum.RY",
        "lum.Y",
        "mask.A",
        "mask.Y",
        "vel.x",
        "vel.y",
    ];
    let chs: Vec<Channel> = names.iter().map(|n| ch(n)).collect();
    let layers = enumerate_layers(&chs, &[]);
    let summary: Vec<(&str, LayerKind, usize)> = layers
        .iter()
        .map(|l| (l.name.as_str(), l.kind, l.channels.len()))
        .collect();
    assert_eq!(
        summary,
        [
            ("", LayerKind::Rgba, 5),
            ("depth", LayerKind::Depth, 1),
            ("diffuse", LayerKind::Rgb, 3),
            ("ids", LayerKind::Other, 1),
            ("lum", LayerKind::LumaChroma, 3),
            ("mask", LayerKind::GrayAlpha, 2),
            ("vel", LayerKind::Other, 2),
        ]
    );
    assert_eq!(layers[2].channels, vec![6, 7, 8]);
    assert_eq!(layers[2].channel_name("G"), "diffuse.G");
    assert_eq!(layers[0].channel_name("G"), "G");
    assert!(layers.iter().all(|l| l.view.is_none()));
    assert!(LayerKind::Rgb.has_frame_mapping());
    assert!(!LayerKind::Depth.has_frame_mapping());
}

#[test]
fn base_layer_comes_first_even_when_prefixed_names_sort_earlier() {
    let chs = vec![ch("Beauty.R"), ch("R"), ch("Beauty.G"), ch("Beauty.B")];
    let layers = enumerate_layers(&chs, &[]);
    assert_eq!(layers[0].name, "");
    assert_eq!(layers[0].kind, LayerKind::Other);
    assert_eq!(layers[1].name, "Beauty");
    assert_eq!(layers[1].kind, LayerKind::Rgb);
}

#[test]
fn views_are_tagged_from_multi_view() {
    let chs: Vec<Channel> = [
        "B",
        "G",
        "R",
        "right.B",
        "right.G",
        "right.R",
        "spec.right.Y",
    ]
    .iter()
    .map(|n| ch(n))
    .collect();
    let attrs = vec![Attribute {
        name: "multiView".to_string(),
        value: AttributeValue::StringVector(vec!["left".to_string(), "right".to_string()]),
    }];
    let layers = enumerate_layers(&chs, &attrs);
    assert_eq!(layers[0].view.as_deref(), Some("left"));
    assert_eq!(layers[1].name, "right");
    assert_eq!(layers[1].view.as_deref(), Some("right"));
    assert_eq!(layers[1].kind, LayerKind::Rgb);
    assert_eq!(layers[2].name, "spec.right");
    assert_eq!(layers[2].view.as_deref(), Some("right"));
    assert_eq!(layers[2].kind, LayerKind::Gray);
    assert_eq!(find_layer(&layers, "right").unwrap().name, "right");
    assert_eq!(find_layer(&layers, "left").unwrap().name, "");
    assert_eq!(find_layer(&layers, "").unwrap().name, "");
    assert!(find_layer(&layers, "centre").is_none());
    assert_eq!(multi_view(&attrs).unwrap().len(), 2);
    assert!(multi_view(&[]).is_none());
}

#[test]
fn views_are_found_in_a_header_that_is_read() {
    let attrs = vec![Attribute {
        name: "multiView".to_string(),
        value: AttributeValue::StringVector(vec!["left".to_string(), "right".to_string()]),
    }];
    let bytes = encode_header(VersionField::from_u32(2), &attrs);
    let header = parse_header(&bytes).unwrap();
    assert_eq!(header.attributes, attrs);
    assert_eq!(multi_view(&header.attributes).unwrap(), ["left", "right"]);
    let layers = enumerate_layers(&[ch("R"), ch("right.R")], &header.attributes);
    assert_eq!(layers[0].view.as_deref(), Some("left"));
    assert_eq!(layers[1].view.as_deref(), Some("right"));
}

#[test]
fn primaries_are_found_by_name_and_type() {
    let wide = Chromaticities {
        red_x: 0.7347f32.to_bits(),
        red_y: 0.2653f32.to_bits(),
        green_x: 0.0f32.to_bits(),
        green_y: 1.0f32.to_bits(),
        blue_x: 0.0001f32.to_bits(),
        blue_y: (-0.077f32).to_bits(),
        white_x: 0.32168f32.to_bits(),
        white_y: 0.33767f32.to_bits(),
    };
    let named = |name: &str, value: AttributeValue| Attribute {
        name: name.to_string(),
        value,
    };
    assert!(chromaticities_of(&[]).is_none());
    let attrs = [
        named("chromaticities", AttributeValue::Int(3)),
        named("primaries", AttributeValue::Chromaticities(wide)),
    ];
    assert!(chromaticities_of(&attrs).is_none());
    let attrs = [
        named("chromaticities", AttributeValue::Int(3)),
        named("chromaticities", AttributeValue::Chromaticities(wide)),
    ];
    assert_eq!(chromaticities_of(&attrs), Some(wide));
}
