use sensor_core::fixed::Fixed;
use sensor_core::graph_renderer::{get_max, get_min, prepare_graph_data, render, render_line_chart};
use sensor_core::raster::Rgba;
use sensor_core::{GraphConfig, GraphType};

fn fx(values: &[i32]) -> Vec<Fixed> {
    values.iter().map(|v| Fixed::from_int(*v)).collect()
}

fn graph(values: &[i32], w: u32, h: u32, kind: GraphType, stroke: i32, border: &str) -> GraphConfig {
    GraphConfig {
        sensor_id: "s".to_string(),
        sensor_values: fx(values),
        min_sensor_value: None,
        max_sensor_value: None,
        width: w,
        height: h,
        graph_type: kind,
        graph_color: "#FF0000FF".to_string(),
        graph_stroke_width: stroke,
        background_color: "#00000080".to_string(),
        border_color: border.to_string(),
    }
}

#[test]
fn prepared_series_has_tile_width() {
    assert_eq!(prepare_graph_data(4, &fx(&[])), fx(&[0, 0, 0, 0]));
    assert_eq!(prepare_graph_data(4, &fx(&[7])), fx(&[0, 0, 0, 7]));
    assert_eq!(prepare_graph_data(3, &fx(&[1, 2, 3, 4, 5])), fx(&[3, 4, 5]));
    assert_eq!(prepare_graph_data(0, &fx(&[1])).len(), 0);
}

#[test]
fn extrema_of_series() {
    assert_eq!(get_min(&fx(&[3, -2, 5])), Fixed::from_int(-2));
    assert_eq!(get_max(&fx(&[3, -2, 5])), Fixed::from_int(5));
}

#[test]
fn line_chart_rows_and_strokes() {
    let c = graph(&[0, 5, 10], 3, 10, GraphType::Line, 2, "#00000000");
    let plan = render(&c);
    let ends: Vec<(i64, i64, i64, i64)> = plan.segments.iter().map(|s| (s.x0, s.y0, s.x1, s.y1)).collect();
    assert_eq!(
        ends,
        vec![(-1, 10, 0, 5), (0, 10, 1, 5), (1, 10, 2, 5), (0, 5, 1, 0), (1, 5, 2, 0), (2, 5, 3, 0)]
    );
    assert_eq!(plan.color, Rgba { r: 255, g: 0, b: 0, a: 255 });
    assert_eq!(plan.border, None);
    assert!(plan.tile.pixels.iter().all(|p| *p == Rgba { r: 0, g: 0, b: 0, a: 128 }));
}

#[test]
fn flat_series_draws_mid_line() {
    let c = graph(&[4, 4], 2, 9, GraphType::Line, 0, "#FFFFFFFF");
    let plan = render(&c);
    let ends: Vec<(i64, i64, i64, i64)> = plan.segments.iter().map(|s| (s.x0, s.y0, s.x1, s.y1)).collect();
    assert_eq!(ends, vec![(0, 5, 1, 5)]);
    assert_eq!(plan.border, Some(Rgba { r: 255, g: 255, b: 255, a: 255 }));
}

#[test]
fn explicit_bounds_pin_rows_to_tile() {
    let mut c = graph(&[-5, 50], 2, 10, GraphType::Line, 0, "");
    c.min_sensor_value = Some(Fixed::from_int(0));
    c.max_sensor_value = Some(Fixed::from_int(20));
    let plan = render_line_chart(&fx(&[-5, 50]), &c);
    assert_eq!((plan.segments[0].y0, plan.segments[0].y1), (10, 0));
}

#[test]
fn filled_chart_fills_below_line() {
    let c = graph(&[0, 10, 0], 3, 4, GraphType::LineFill, 0, "#00000000");
    let plan = render(&c);
    let red = Rgba { r: 255, g: 0, b: 0, a: 255 };
    let bg = Rgba { r: 0, g: 0, b: 0, a: 128 };
    assert_eq!(plan.tile.get_pixel(0, 3), bg);
    assert_eq!(plan.tile.get_pixel(1, 0), red);
    assert_eq!(plan.tile.get_pixel(1, 3), red);
    assert_eq!(plan.tile.get_pixel(2, 3), bg);
}

#[test]
fn short_series_draws_background_only() {
    let c = graph(&[1], 1, 3, GraphType::LineFill, 4, "#00000000");
    let plan = render(&c);
    assert!(plan.segments.is_empty());
    assert!(plan.tile.pixels.iter().all(|p| *p == Rgba { r: 0, g: 0, b: 0, a: 128 }));
}

#[test]
fn filled_chart_fills_last_column() {
    let c = graph(&[0, 0, 10], 3, 4, GraphType::LineFill, 0, "#00000000");
    let plan = render(&c);
    let red = Rgba { r: 255, g: 0, b: 0, a: 255 };
    for y in 0..4 {
        assert_eq!(plan.tile.get_pixel(2, y), red);
    }
    assert_eq!(plan.tile.get_pixel(0, 3), Rgba { r: 0, g: 0, b: 0, a: 128 });
}

#[test]
fn border_covers_outer_ring() {
    let bg = Rgba { r: 0, g: 0, b: 0, a: 128 };
    let white = Rgba { r: 255, g: 255, b: 255, a: 255 };
    let mut tile = sensor_core::raster::Raster::filled(4, 3, bg);
    sensor_core::graph_renderer::draw_border(&mut tile, Some(white));
    for y in 0..3 {
        for x in 0..4 {
            let ring = x == 0 || x == 3 || y == 0 || y == 2;
            assert_eq!(tile.get_pixel(x, y), if ring { white } else { bg });
        }
    }
    let mut plain = sensor_core::raster::Raster::filled(2, 2, bg);
    sensor_core::graph_renderer::draw_border(&mut plain, None);
    assert!(plain.pixels.iter().all(|p| *p == bg));
    let mut line = sensor_core::raster::Raster::filled(3, 1, bg);
    sensor_core::graph_renderer::draw_border(&mut line, Some(white));
    assert!(line.pixels.iter().all(|p| *p == white));
}
