use sensor_core::conditional_image_renderer::GalleryImage;
use sensor_core::fixed::Fixed;
use sensor_core::raster::{Raster, Rgba};
use sensor_core::{
    draw_element, raster_fits, ElementWork, draw_conditional_image, draw_static_image, draw_text, draw_tile, extract_value_sequence,
    get_cache_dir, hex_to_rgba, plan_graph, ConditionalImageConfig, ElementConfig, ElementPayload,
    ElementType, GraphConfig, GraphType, ImageConfig, SensorType, SensorValue, SensorValueModifier,
    TextAlign, TextConfig,
};

fn png_of(w: u32, h: u32, px: [u8; 4]) -> Vec<u8> {
    let img = image::RgbaImage::from_pixel(w, h, image::Rgba(px));
    let mut out = std::io::Cursor::new(Vec::new());
    img.write_to(&mut out, image::ImageOutputFormat::Png).unwrap();
    out.into_inner()
}

fn reading(id: &str, value: &str, kind: SensorType) -> SensorValue {
    SensorValue {
        id: id.to_string(),
        value: value.to_string(),
        unit: String::new(),
        label: String::new(),
        sensor_type: kind,
    }
}

const RED: Rgba = Rgba { r: 255, g: 0, b: 0, a: 255 };
const CLEAR: Rgba = Rgba { r: 0, g: 0, b: 0, a: 0 };

#[test]
fn hex_colors() {
    assert_eq!(hex_to_rgba("#FF0000CC"), Some(Rgba { r: 255, g: 0, b: 0, a: 204 }));
    assert_eq!(hex_to_rgba("##0a0B0c0D"), Some(Rgba { r: 10, g: 11, b: 12, a: 13 }));
    assert_eq!(hex_to_rgba("#FF"), Some(Rgba { r: 0, g: 0, b: 0, a: 255 }));
    assert_eq!(hex_to_rgba("#GG000000"), None);
    assert_eq!(hex_to_rgba("#"), None);
    assert_eq!(hex_to_rgba("#FF00000000"), None);
}

#[test]
fn cache_dirs_by_type() {
    assert_eq!(get_cache_dir("/cache/app", "e1", &ElementType::StaticImage), "/cache/app/static-image/e1");
    assert_eq!(get_cache_dir("/c/", "x", &ElementType::ConditionalImage), "/c/conditional-image/x");
    assert_eq!(get_cache_dir("", "g", &ElementType::Graph), "graph/g");
    assert_eq!(get_cache_dir("b", "t", &ElementType::Text), "b/text/t");
}

#[test]
fn value_sequence_is_oldest_first() {
    let h = vec![
        vec![reading("a", "3", SensorType::Number)],
        vec![reading("b", "9", SensorType::Number)],
        vec![reading("a", "oops", SensorType::Number)],
        vec![reading("a", "1.5", SensorType::Text)],
    ];
    assert_eq!(extract_value_sequence(&h, "a"), vec![Fixed { micros: 1_500_000 }, Fixed::from_int(3)]);
    let h = vec![vec![reading("a", "x", SensorType::Number), reading("a", "5", SensorType::Number)]];
    assert_eq!(extract_value_sequence(&h, "a"), vec![Fixed::from_int(5)]);
}

#[test]
fn static_image_is_decoded_and_overlaid() {
    let mut frame = Raster::new(4, 4);
    let png = png_of(2, 2, [255, 0, 0, 255]);
    draw_static_image(&mut frame, Some(&png), 3, -1);
    assert_eq!(frame.get_pixel(3, 0), RED);
    assert_eq!(frame.get_pixel(3, 1), CLEAR);
    assert_eq!(frame.get_pixel(2, 0), CLEAR);
    let before = frame.pixels.clone();
    draw_static_image(&mut frame, Some(&vec![1, 2, 3]), 0, 0);
    draw_static_image(&mut frame, None, 0, 0);
    assert_eq!(frame.pixels, before);
}

#[test]
fn later_tiles_draw_over_earlier() {
    let mut frame = Raster::filled(3, 1, Rgba { r: 0, g: 0, b: 255, a: 255 });
    let red = Raster::filled(2, 1, RED);
    draw_tile(&mut frame, &red, 1, 0);
    let clear = Raster::new(3, 1);
    draw_tile(&mut frame, &clear, 0, 0);
    assert_eq!(frame.get_pixel(0, 0), Rgba { r: 0, g: 0, b: 255, a: 255 });
    assert_eq!(frame.get_pixel(2, 0), RED);
    draw_tile(&mut frame, &red, 100, 100);
    assert_eq!(frame.get_pixel(0, 0), Rgba { r: 0, g: 0, b: 255, a: 255 });
}

#[test]
fn conditional_image_follows_newest_reading() {
    let gallery = vec![
        GalleryImage { file_name: "ok.png".to_string(), data: png_of(1, 1, [0, 255, 0, 255]) },
        GalleryImage { file_name: "warn.png".to_string(), data: png_of(1, 1, [255, 0, 0, 255]) },
    ];
    let config = ConditionalImageConfig {
        sensor_id: "state".to_string(),
        sensor_value: String::new(),
        images_path: String::new(),
        min_sensor_value: Fixed::from_int(0),
        max_sensor_value: Fixed::from_int(1),
        width: 1,
        height: 1,
    };
    let history = vec![vec![reading("state", "wrn", SensorType::Text)]];
    let mut frame = Raster::new(2, 1);
    draw_conditional_image(&mut frame, 1, 0, &config, &history, &gallery);
    assert_eq!(frame.get_pixel(1, 0), RED);
    let mut untouched = Raster::new(2, 1);
    draw_conditional_image(&mut untouched, 1, 0, &config, &[vec![reading("other", "ok", SensorType::Text)]], &gallery);
    assert_eq!(untouched.pixels, Raster::new(2, 1).pixels);
}

#[test]
fn text_is_drawn_at_anchor() {
    let config = TextConfig {
        sensor_id: "s".to_string(),
        value_modifier: SensorValueModifier::Current,
        format: "{value}".to_string(),
        font_family: "f".to_string(),
        font_size: 10,
        font_color: "#FF0000FF".to_string(),
        width: 2,
        height: 1,
        alignment: TextAlign::Left,
    };
    let mut scratch = Raster::new(5, 5);
    scratch.put_pixel(3, 3, RED);
    let mut frame = Raster::new(4, 2);
    draw_text(&mut frame, &config, &scratch, 2, 1);
    assert_eq!(frame.get_pixel(2, 1), RED);
    assert_eq!(frame.get_pixel(3, 1), CLEAR);
}

#[test]
fn graph_plan_uses_history() {
    let config = GraphConfig {
        sensor_id: "t".to_string(),
        sensor_values: Vec::new(),
        min_sensor_value: None,
        max_sensor_value: None,
        width: 3,
        height: 4,
        graph_type: GraphType::Line,
        graph_color: "#FF0000FF".to_string(),
        graph_stroke_width: 0,
        background_color: "#00000000".to_string(),
        border_color: "#FFFFFF01".to_string(),
    };
    let history = vec![
        vec![reading("t", "4", SensorType::Number)],
        vec![reading("t", "0", SensorType::Number)],
    ];
    let plan = plan_graph(&config, &history);
    let ends: Vec<(i64, i64, i64, i64)> = plan.segments.iter().map(|s| (s.x0, s.y0, s.x1, s.y1)).collect();
    assert_eq!(ends, vec![(0, 4, 1, 4), (1, 4, 2, 0)]);
    assert_eq!(plan.border, Some(Rgba { r: 255, g: 255, b: 255, a: 1 }));
}

#[test]
fn element_payload_gives_type() {
    let e = ElementConfig {
        id: "i".to_string(),
        name: "n".to_string(),
        x: -5,
        y: 2,
        payload: ElementPayload::StaticImage(ImageConfig { width: 1, height: 1, image_path: String::new() }),
    };
    assert_eq!(e.element_type(), ElementType::StaticImage);
}

#[test]
fn element_work_by_type() {
    let history = vec![vec![reading("s", "42", SensorType::Number)]];
    let text = ElementConfig {
        id: "t".to_string(),
        name: String::new(),
        x: 0,
        y: 0,
        payload: ElementPayload::Text(TextConfig {
            sensor_id: "s".to_string(),
            value_modifier: SensorValueModifier::Current,
            format: "{value} C".to_string(),
            font_family: "f".to_string(),
            font_size: 10,
            font_color: "#FFFFFFFF".to_string(),
            width: 10,
            height: 10,
            alignment: TextAlign::Left,
        }),
    };
    match draw_element(&text, &history) {
        ElementWork::RasterizeText { text } => assert_eq!(text, "42 C"),
        _ => panic!("a text element asks for rasterized text"),
    }
    let image = ElementConfig {
        payload: ElementPayload::StaticImage(ImageConfig { width: 1, height: 1, image_path: String::new() }),
        ..text.clone()
    };
    assert!(matches!(draw_element(&image, &history), ElementWork::LoadStaticImage));
    assert!(raster_fits(100, 100));
    assert!(raster_fits(u32::MAX, 1));
}
