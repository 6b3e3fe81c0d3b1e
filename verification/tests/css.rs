use taskband::css::{
    merge_class_maps, parse_color, parse_edges, parse_px, parse_weight, resolve, Color, Edges, Style,
};

#[test]
fn default_style_is_light_gray_segoe_12() {
    let s = Style::default();
    assert_eq!(s.color, Color { r: 0xd0, g: 0xd0, b: 0xd0 });
    assert_eq!(s.background, None);
    assert_eq!(s.font_family, "Segoe UI");
    assert_eq!(s.font_size, 12);
    assert_eq!(s.font_weight, 400);
    assert_eq!(s.padding, Edges::default());
}

#[test]
fn colorref_is_bgr_packed() {
    // R=0x11 G=0x22 B=0x33 -> 0x00332211
    assert_eq!(Color { r: 0x11, g: 0x22, b: 0x33 }.colorref(), 0x0033_2211);
}

#[test]
fn colorref_of_white_and_black() {
    assert_eq!(Color { r: 0xff, g: 0xff, b: 0xff }.colorref(), 0x00ff_ffff);
    assert_eq!(Color { r: 0, g: 0, b: 0 }.colorref(), 0);
}

#[test]
fn default_edges_and_margin_are_zero() {
    let s = Style::default();
    assert_eq!(s.margin, Edges { top: 0, right: 0, bottom: 0, left: 0 });
    assert_eq!(Edges::default(), Edges { top: 0, right: 0, bottom: 0, left: 0 });
}

fn css(pairs: &[(&str, &str)]) -> Vec<(String, String)> {
    pairs.iter().map(|(k, v)| (k.to_string(), v.to_string())).collect()
}

#[test]
fn parses_hex_colors() {
    assert_eq!(parse_color("#ffffff"), Some(Color { r: 255, g: 255, b: 255 }));
    assert_eq!(parse_color("#000000"), Some(Color { r: 0, g: 0, b: 0 }));
    assert_eq!(parse_color("#7fdbb0"), Some(Color { r: 0x7f, g: 0xdb, b: 0xb0 }));
    assert_eq!(parse_color("#fff"), Some(Color { r: 255, g: 255, b: 255 }));
    assert_eq!(parse_color("#123"), Some(Color { r: 0x11, g: 0x22, b: 0x33 }));
    assert_eq!(parse_color(" #ABCDEF "), Some(Color { r: 0xab, g: 0xcd, b: 0xef }));
    assert_eq!(parse_color("nope"), None);
    assert_eq!(parse_color("#12"), None);
    assert_eq!(parse_color("#12345g"), None);
}

#[test]
fn parses_px_lengths() {
    assert_eq!(parse_px("12px"), Some(12));
    assert_eq!(parse_px("  8 "), Some(8));
    assert_eq!(parse_px("0"), Some(0));
    assert_eq!(parse_px("-3px"), Some(-3));
    assert_eq!(parse_px("+4"), Some(4));
    assert_eq!(parse_px("2147483647"), Some(i32::MAX));
    assert_eq!(parse_px("-2147483648px"), Some(i32::MIN));
    assert_eq!(parse_px("2147483648"), None);
    assert_eq!(parse_px("abc"), None);
    assert_eq!(parse_px("px"), None);
}

#[test]
fn parses_font_weight() {
    assert_eq!(parse_weight("normal"), Some(400));
    assert_eq!(parse_weight("bold"), Some(700));
    assert_eq!(parse_weight("600"), Some(600));
    assert_eq!(parse_weight("50"), None);
    assert_eq!(parse_weight("999"), None);
}

#[test]
fn parses_edges_shorthand() {
    assert_eq!(parse_edges("4px"), Some(Edges { top: 4, right: 4, bottom: 4, left: 4 }));
    assert_eq!(parse_edges("0 8px"), Some(Edges { top: 0, right: 8, bottom: 0, left: 8 }));
    assert_eq!(parse_edges("1 2 3"), Some(Edges { top: 1, right: 2, bottom: 3, left: 2 }));
    assert_eq!(parse_edges("1 2 3 4"), Some(Edges { top: 1, right: 2, bottom: 3, left: 4 }));
    assert_eq!(parse_edges("1 2 3 4 5"), None);
    assert_eq!(parse_edges("bad"), None);
    assert_eq!(parse_edges(""), None);
}

#[test]
fn module_css_overrides_defaults() {
    let defaults = css(&[("color", "#d0d0d0"), ("font-size", "12px"), ("padding", "0 8px")]);
    let module = css(&[("color", "#7fdbb0"), ("font-weight", "bold")]);
    let style = resolve(&defaults, &module);
    assert_eq!(style.color, Color { r: 0x7f, g: 0xdb, b: 0xb0 });
    assert_eq!(style.font_size, 12);
    assert_eq!(style.font_weight, 700);
    assert_eq!(style.padding, Edges { top: 0, right: 8, bottom: 0, left: 8 });
    assert_eq!(style.background, None);
}

#[test]
fn background_color_and_font_family_are_applied() {
    let style = resolve(&Vec::new(), &css(&[("background-color", "#303040"), ("font-family", "  Consolas ")]));
    assert_eq!(style.background, Some(Color { r: 0x30, g: 0x30, b: 0x40 }));
    assert_eq!(style.font_family, "Consolas");
}

#[test]
fn invalid_and_unknown_values_are_ignored() {
    let style = resolve(&Vec::new(), &css(&[("color", "notacolor"), ("wobble", "3")]));
    assert_eq!(style, Style::default());
}

#[test]
fn module_classes_merge_over_shared_ones() {
    let shared = vec![
        ("critical".to_string(), css(&[("color", "#ff5555"), ("font-weight", "bold")])),
        ("warning".to_string(), css(&[("color", "#f5c542")])),
    ];
    let module = vec![
        ("critical".to_string(), css(&[("color", "#000000")])),
        ("title".to_string(), css(&[("font-weight", "bold")])),
    ];
    let merged = merge_class_maps(&shared, &module);
    assert_eq!(
        merged,
        vec![
            ("critical".to_string(), css(&[("color", "#000000"), ("font-weight", "bold")])),
            ("warning".to_string(), css(&[("color", "#f5c542")])),
            ("title".to_string(), css(&[("font-weight", "bold")])),
        ]
    );
}
