use geojson2svg::classification::{Classif, Classification};
use geojson2svg::properties::{ChoroplethLayerProperties, SingleColorLayerProperties};
use geojson2svg::CoreError;

#[test]
fn single_colour_defaults() {
    let p = SingleColorLayerProperties::default();
    assert_eq!(
        (p.fill.as_str(), p.fill_opacity.as_str(), p.stroke.as_str(), p.stroke_opacity.as_str(), p.stroke_width.as_str(), p.radius.as_str()),
        ("blue", "0.8", "black", "1", "0.7", "4")
    );
}

#[test]
fn settings_override_defaults() {
    let c = vec![
        ("fill".to_string(), Some("red".to_string())),
        ("radius".to_string(), None),
        ("stroke".to_string(), Some("white".to_string())),
        ("stroke".to_string(), Some("grey".to_string())),
    ];
    let p = SingleColorLayerProperties::from_config(&c);
    assert_eq!(p.fill, "red");
    assert_eq!(p.radius, "4");
    assert_eq!(p.stroke, "white");
    assert_eq!(p.stroke_width, "0.7");
}

#[test]
fn choropleth_defaults() {
    let p = ChoroplethLayerProperties::from_config(&vec![("field".to_string(), Some("pop".to_string()))]);
    assert_eq!(p.type_classification, "Quantiles");
    assert_eq!(p.field_name, "pop");
    assert_eq!(p.palette_name, "Greens");
    assert_eq!(p.fill_opacity, "0.8");
}

#[test]
fn palette_colours_follow_the_classes() {
    let values = vec![1, 2, 3, 4, 5, 6];
    let c = Classif::new(3, values.clone(), Classification::EqualInterval).unwrap();
    // Bounds 1, 2, 4, 6: classes 0, 0, 1, 1, 2, 2.
    let colors = c.palette_colors("Oranges").unwrap();
    let ramp = [(254, 230, 206), (253, 174, 107), (230, 85, 13)];
    assert_eq!(colors, vec![ramp[0], ramp[0], ramp[1], ramp[1], ramp[2], ramp[2]]);
}

#[test]
fn unknown_palettes_are_refused() {
    let c = Classif::new(3, vec![1, 2, 3, 4, 5, 6], Classification::EqualInterval).unwrap();
    assert_eq!(c.palette_colors("oranges"), Err(CoreError::PaletteUnavailable));
    let two = Classif::new(2, vec![1, 2, 3], Classification::EqualInterval).unwrap();
    // ColorBrewer ramps start at three colours.
    assert_eq!(two.palette_colors("Oranges"), Err(CoreError::PaletteUnavailable));
}

#[test]
fn class_colours_use_the_ramp_given() {
    let c = Classif::new(2, vec![0, 10], Classification::EqualInterval).unwrap();
    let ramp = vec![(1, 1, 1), (2, 2, 2)];
    assert_eq!(c.class_colors(&vec![0, 5, 7, 10], &ramp), Ok(vec![(1, 1, 1), (1, 1, 1), (2, 2, 2), (2, 2, 2)]));
    assert_eq!(c.class_colors(&vec![11], &ramp), Err(CoreError::LookupFailure));
    assert_eq!(c.class_colors(&vec![7], &vec![(1, 1, 1)]), Err(CoreError::LookupFailure));
}

#[test]
fn palette_ramps_have_bounded_sizes() {
    let values: Vec<i64> = (0..40).collect();
    let c = Classif::new(12, values.clone(), Classification::EqualInterval).unwrap();
    assert_eq!(c.palette_colors("Greens"), Err(CoreError::PaletteUnavailable));
    assert_eq!(c.palette_colors("Paired").unwrap().len(), 40);
    let c = Classif::new(13, values, Classification::EqualInterval).unwrap();
    assert_eq!(c.palette_colors("Paired"), Err(CoreError::PaletteUnavailable));
}
