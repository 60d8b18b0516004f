use sensor_core::fixed::{format_cents, parse_fixed, Fixed};
use sensor_core::raster::{Raster, Rgba};
use sensor_core::text_renderer::{
    get_bounding_box, get_latest_value, get_unit, get_value, get_value_avg, get_value_max,
    get_value_min, render, replace_all_chars, replace_placeholders,
};
use sensor_core::{SensorType, SensorValue, SensorValueModifier, TextAlign, TextConfig};

fn reading(id: &str, value: &str, unit: &str, kind: SensorType) -> SensorValue {
    SensorValue {
        id: id.to_string(),
        value: value.to_string(),
        unit: unit.to_string(),
        label: String::new(),
        sensor_type: kind,
    }
}

fn text_config(format: &str, modifier: SensorValueModifier, align: TextAlign, w: u32, h: u32) -> TextConfig {
    TextConfig {
        sensor_id: "cpu".to_string(),
        value_modifier: modifier,
        format: format.to_string(),
        font_family: "Arial".to_string(),
        font_size: 12,
        font_color: "#FFFFFFFF".to_string(),
        width: w,
        height: h,
        alignment: align,
    }
}

fn sample_history() -> Vec<Vec<SensorValue>> {
    vec![
        vec![reading("cpu", "3", "%", SensorType::Number)],
        vec![reading("cpu", "x", "%", SensorType::Text)],
        vec![reading("cpu", "2", "%", SensorType::Number)],
        vec![reading("cpu", "1", "%", SensorType::Number)],
    ]
}

#[test]
fn aggregates_ignore_text_samples() {
    let h = sample_history();
    assert_eq!(get_value_avg("cpu", &h), "2.00");
    assert_eq!(get_value_min("cpu", &h), "1.00");
    assert_eq!(get_value_max("cpu", &h), "3.00");
}

#[test]
fn aggregates_without_numbers_are_not_available() {
    let h = vec![vec![reading("cpu", "x", "", SensorType::Text)]];
    assert_eq!(get_value_avg("cpu", &h), "N/A");
    assert_eq!(get_value_min("gpu", &h), "N/A");
    assert_eq!(get_value_max("cpu", &[]), "N/A");
}

#[test]
fn average_rounds_to_two_digits() {
    let h = vec![
        vec![reading("t", "1", "", SensorType::Number)],
        vec![reading("t", "2", "", SensorType::Number)],
        vec![reading("t", "2", "", SensorType::Number)],
    ];
    assert_eq!(get_value_avg("t", &h), "1.67");
    let h = vec![vec![reading("t", "-0.125", "", SensorType::Number)]];
    assert_eq!(get_value_min("t", &h), "-0.13");
}

#[test]
fn latest_value_and_unit_come_from_newest_frame() {
    let h = sample_history();
    assert_eq!(get_value("cpu", &h), "3");
    assert_eq!(get_unit("cpu", &h), "%");
    assert_eq!(get_value("gpu", &h), "N/A");
    assert_eq!(get_unit("gpu", &h), "");
    assert!(get_latest_value("cpu", &[]).is_none());
    assert_eq!(get_latest_value("cpu", &h).unwrap().value, "3");
}

#[test]
fn placeholders_are_all_replaced() {
    let h = sample_history();
    let c = text_config(
        "{value}{unit} avg {value-avg} min {value-min} max {value-max}",
        SensorValueModifier::Current,
        TextAlign::Left,
        10,
        10,
    );
    let text = replace_placeholders(&c, "cpu", &h);
    assert_eq!(text, "3% avg 2.00 min 1.00 max 3.00");
    for token in ["{value}", "{unit}", "{value-avg}", "{value-min}", "{value-max}"] {
        assert!(!text.contains(token));
    }
}

#[test]
fn modifier_chooses_the_reduction() {
    let h = sample_history();
    let c = text_config("{value} {unit}", SensorValueModifier::Avg, TextAlign::Left, 10, 10);
    assert_eq!(replace_placeholders(&c, "cpu", &h), "2.00 %");
    let c = text_config("{value}", SensorValueModifier::Max, TextAlign::Left, 10, 10);
    assert_eq!(replace_placeholders(&c, "cpu", &h), "3.00");
    let c = text_config("{value}", SensorValueModifier::Min, TextAlign::Left, 10, 10);
    assert_eq!(replace_placeholders(&c, "cpu", &h), "1.00");
}

#[test]
fn unknown_sensor_renders_placeholder_text() {
    let c = text_config("{value} {unit}", SensorValueModifier::Current, TextAlign::Left, 10, 10);
    assert_eq!(replace_placeholders(&c, "cpu", &[]), "N/A ");
}

#[test]
fn replace_all_matches_left_to_right() {
    let s: Vec<char> = "aaaa".chars().collect();
    let pat: Vec<char> = "aa".chars().collect();
    let rep: Vec<char> = "b".chars().collect();
    assert_eq!(replace_all_chars(&s, &pat, &rep), vec!['b', 'b']);
    let s: Vec<char> = "aaa".chars().collect();
    assert_eq!(replace_all_chars(&s, &pat, &rep), vec!['b', 'a']);
}

#[test]
fn parses_decimal_text() {
    let p = |s: &str| parse_fixed(&s.chars().collect());
    assert_eq!(p("12.5"), Some(Fixed { micros: 12_500_000 }));
    assert_eq!(p("-0.0000019"), Some(Fixed { micros: -1 }));
    assert_eq!(p("+3"), Some(Fixed { micros: 3_000_000 }));
    assert_eq!(p(".5"), Some(Fixed { micros: 500_000 }));
    assert_eq!(p("7."), Some(Fixed { micros: 7_000_000 }));
    assert_eq!(p("."), None);
    assert_eq!(p(""), None);
    assert_eq!(p("1.2.3"), None);
    assert_eq!(p("abc"), None);
    assert_eq!(p("1000000000000"), Some(Fixed { micros: 1_000_000_000_000_000_000 }));
    assert_eq!(p("9223372036854.775807"), Some(Fixed { micros: i64::MAX }));
    assert_eq!(p("-9223372036854.775807"), Some(Fixed { micros: -i64::MAX }));
    assert_eq!(p("9223372036854.775808"), None);
    assert_eq!(Fixed::from_int(-4), Fixed { micros: -4_000_000 });
}

#[test]
fn formats_hundredths() {
    let f = |c: i128| format_cents(c).into_iter().collect::<String>();
    assert_eq!(f(0), "0.00");
    assert_eq!(f(5), "0.05");
    assert_eq!(f(-105), "-1.05");
    assert_eq!(f(123456), "1234.56");
}

fn scratch_with_block(w: u32, h: u32, left: u32, top: u32, bw: u32, bh: u32) -> Raster {
    let mut r = Raster::new(w, h);
    for y in top..top + bh {
        for x in left..left + bw {
            r.put_pixel(x, y, Rgba { r: 255, g: 255, b: 255, a: 255 });
        }
    }
    r
}

#[test]
fn bounding_box_is_tight() {
    let r = scratch_with_block(20, 10, 3, 2, 4, 5);
    let b = get_bounding_box(&r);
    assert_eq!((b.left, b.top, b.width, b.height), (3, 2, 4, 5));
    let empty = Raster::new(6, 4);
    let b = get_bounding_box(&empty);
    assert_eq!((b.left, b.top, b.width, b.height), (0, 0, 6, 4));
}

fn opaque_columns(tile: &Raster) -> Vec<u32> {
    let mut cols = Vec::new();
    for x in 0..tile.width {
        if (0..tile.height).any(|y| tile.get_pixel(x, y).a != 0) {
            cols.push(x);
        }
    }
    cols
}

#[test]
fn alignment_places_block_edges() {
    let scratch = scratch_with_block(40, 20, 25, 7, 4, 3);
    let left = render(&text_config("", SensorValueModifier::Current, TextAlign::Left, 10, 9), &scratch);
    assert_eq!(opaque_columns(&left), vec![0, 1, 2, 3]);
    let right = render(&text_config("", SensorValueModifier::Current, TextAlign::Right, 10, 9), &scratch);
    assert_eq!(opaque_columns(&right), vec![6, 7, 8, 9]);
    let center = render(&text_config("", SensorValueModifier::Current, TextAlign::Center, 10, 9), &scratch);
    assert_eq!(opaque_columns(&center), vec![3, 4, 5, 6]);
    assert_eq!(center.get_pixel(3, 3).a, 255);
    assert_eq!(center.get_pixel(3, 2).a, 0);
    assert_eq!(center.get_pixel(3, 6).a, 0);
}

#[test]
fn text_tile_is_deterministic() {
    let h = sample_history();
    let c = text_config("{value-avg} {unit}", SensorValueModifier::Current, TextAlign::Right, 12, 8);
    assert_eq!(replace_placeholders(&c, "cpu", &h), replace_placeholders(&c, "cpu", &h));
    let scratch = scratch_with_block(30, 12, 2, 3, 5, 4);
    assert_eq!(render(&c, &scratch).pixels, render(&c, &scratch).pixels);
}

#[test]
fn placeholder_pieces_can_rejoin() {
    let h = sample_history();
    let c = text_config("{val{unit}ue}", SensorValueModifier::Current, TextAlign::Left, 10, 10);
    let h2 = vec![vec![reading("cpu", "7", "", SensorType::Number)]];
    assert_eq!(replace_placeholders(&c, "cpu", &h2), "{value}");
    assert_eq!(replace_placeholders(&c, "cpu", &h), "{val%ue}");
}

#[test]
fn parses_exponent_notation() {
    let p = |s: &str| parse_fixed(&s.chars().collect());
    assert_eq!(p("1e3"), Some(Fixed { micros: 1_000_000_000 }));
    assert_eq!(p("1.5E-3"), Some(Fixed { micros: 1_500 }));
    assert_eq!(p("-2.5e+2"), Some(Fixed { micros: -250_000_000 }));
    assert_eq!(p("1e-7"), Some(Fixed { micros: 0 }));
    assert_eq!(p("12e-1"), Some(Fixed { micros: 1_200_000 }));
    assert_eq!(p("0e99999999999999999999"), Some(Fixed { micros: 0 }));
    assert_eq!(p("1e99999999999999999999"), None);
    assert_eq!(p("1e-99999999999999999999"), Some(Fixed { micros: 0 }));
    assert_eq!(p("9.2e12"), Some(Fixed { micros: 9_200_000_000_000_000_000 }));
    assert_eq!(p("9.3e12"), None);
    assert_eq!(p("2e"), None);
    assert_eq!(p("e5"), None);
    assert_eq!(p("1e+"), None);
    assert_eq!(p("1e2.5"), None);
    assert_eq!(p("inf"), None);
}

#[test]
fn aggregates_read_large_and_exponent_samples() {
    let h = vec![
        vec![reading("big", "2000000000000", "", SensorType::Number)],
        vec![reading("big", "4e12", "", SensorType::Number)],
    ];
    assert_eq!(get_value_min("big", &h), "2000000000000.00");
    assert_eq!(get_value_max("big", &h), "4000000000000.00");
    assert_eq!(get_value_avg("big", &h), "3000000000000.00");
}

#[test]
fn colored_transparent_pixels_are_not_visible() {
    let mut r = Raster::new(2, 1);
    r.put_pixel(0, 0, Rgba { r: 255, g: 0, b: 0, a: 0 });
    r.put_pixel(1, 0, Rgba { r: 255, g: 255, b: 255, a: 255 });
    let b = get_bounding_box(&r);
    assert_eq!((b.left, b.top, b.width, b.height), (1, 0, 1, 1));
    let mut hidden = Raster::new(2, 1);
    hidden.put_pixel(0, 0, Rgba { r: 255, g: 0, b: 0, a: 0 });
    let b = get_bounding_box(&hidden);
    assert_eq!((b.left, b.top, b.width, b.height), (0, 0, 2, 1));
}
