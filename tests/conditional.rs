use sensor_core::conditional_image_renderer::{
    get_best_fitting_image_path, get_image_based_on_numeric_sensor_value,
    get_image_based_on_text_sensor_value, get_image_numbers, levenshtein_distance,
    remove_file_extension, render, select_image, to_number, GalleryImage,
};
use sensor_core::fixed::Fixed;
use sensor_core::{ConditionalImageConfig, SensorType};

fn gallery(names: &[&str]) -> Vec<GalleryImage> {
    names
        .iter()
        .enumerate()
        .map(|(i, n)| GalleryImage { file_name: n.to_string(), data: vec![i as u8] })
        .collect()
}

fn config(value: &str, min: i32, max: i32) -> ConditionalImageConfig {
    ConditionalImageConfig {
        sensor_id: "s".to_string(),
        sensor_value: value.to_string(),
        images_path: String::new(),
        min_sensor_value: Fixed::from_int(min),
        max_sensor_value: Fixed::from_int(max),
        width: 10,
        height: 10,
    }
}

#[test]
fn levenshtein_examples() {
    assert_eq!(levenshtein_distance("wrn", "ok"), 3);
    assert_eq!(levenshtein_distance("wrn", "warn"), 1);
    assert_eq!(levenshtein_distance("wrn", "error"), 4);
    assert_eq!(levenshtein_distance("", "abc"), 3);
    assert_eq!(levenshtein_distance("kitten", "sitting"), 3);
    assert_eq!(levenshtein_distance("äb", "ab"), 1);
}

#[test]
fn text_selection_picks_nearest_name() {
    let g = gallery(&["ok.png", "warn.png", "error.png"]);
    assert_eq!(get_image_based_on_text_sensor_value("wrn", &g), Some(1));
    let picked = render(SensorType::Text, &config("wrn", 0, 100), &g);
    assert_eq!(picked, Some(&vec![1u8]));
}

#[test]
fn text_selection_ties_keep_gallery_order() {
    let g = gallery(&["ab.png", "ac.png"]);
    assert_eq!(get_image_based_on_text_sensor_value("aa", &g), Some(0));
    assert_eq!(get_image_based_on_text_sensor_value("aa", &Vec::new()), None);
}

#[test]
fn numeric_selection_remaps_value() {
    let g = gallery(&["0.png", "10.png", "20.png"]);
    let r = get_image_based_on_numeric_sensor_value(
        Fixed::from_int(0),
        Fixed::from_int(100),
        Fixed::from_int(55),
        &g,
    );
    assert_eq!(r, Some(1));
    assert_eq!(render(SensorType::Number, &config("55", 0, 100), &g), Some(&vec![1u8]));
}

#[test]
fn numeric_selection_ignores_order_and_unparsable_names() {
    let g = gallery(&["20.png", "logo.png", "0.png", "10.png"]);
    assert_eq!(render(SensorType::Number, &config("90", 0, 100), &g), Some(&vec![0u8]));
    assert_eq!(render(SensorType::Number, &config("-50", 0, 100), &g), Some(&vec![2u8]));
}

#[test]
fn numeric_selection_ties_prefer_smaller_number() {
    let g = gallery(&["20.png", "0.png", "10.png"]);
    assert_eq!(render(SensorType::Number, &config("75", 0, 100), &g), Some(&vec![2u8]));
    let values = vec![Some(Fixed::from_int(3)), None, Some(Fixed::from_int(1))];
    assert_eq!(get_best_fitting_image_path(&values, 2_000_000, 1), Some(2));
    assert_eq!(get_best_fitting_image_path(&vec![None], 0, 1), None);
}

#[test]
fn numeric_selection_without_candidates_gives_nothing() {
    let g = gallery(&["logo.png", "a.png"]);
    assert_eq!(render(SensorType::Number, &config("5", 0, 100), &g), None);
    let g = gallery(&["1.png"]);
    assert_eq!(render(SensorType::Number, &config("abc", 0, 100), &g), None);
    assert_eq!(render(SensorType::Number, &config("5", 7, 7), &g), None);
    assert_eq!(render(SensorType::Text, &config("5", 0, 100), &Vec::new()), None);
    assert_eq!(select_image(SensorType::Number, &config("5", 0, 100), &g), Some(&vec![0u8]));
}

#[test]
fn file_names_to_numbers() {
    assert_eq!(to_number("1.png"), Some(Fixed::from_int(1)));
    assert_eq!(to_number("-1,123.png"), Some(Fixed { micros: -1_123_000 }));
    assert_eq!(to_number("..5.png"), Some(Fixed::from_int(5)));
    assert_eq!(to_number("logo.png"), None);
    let g = gallery(&["2.png", "x.png"]);
    assert_eq!(get_image_numbers(&g), vec![Some(Fixed::from_int(2)), None]);
}

#[test]
fn extensions_are_removed() {
    assert_eq!(remove_file_extension("warn.png"), "warn");
    assert_eq!(remove_file_extension("a.b.png"), "a.b");
    assert_eq!(remove_file_extension("README"), "README");
    assert_eq!(remove_file_extension(".png"), "");
}

#[test]
fn numeric_selection_reads_exponent_names_and_values() {
    let g = gallery(&["1e1.png", "2e1.png"]);
    assert_eq!(render(SensorType::Number, &config("9e1", 0, 100), &g), Some(&vec![1u8]));
}

#[test]
fn numeric_selection_refuses_ranges_beyond_its_arithmetic() {
    let g = gallery(&["0.png", "10.png"]);
    let r = get_image_based_on_numeric_sensor_value(
        Fixed { micros: -4_700_000_000_000_000_000 },
        Fixed { micros: 4_700_000_000_000_000_000 },
        Fixed::from_int(0),
        &g,
    );
    assert_eq!(r, None);
}
