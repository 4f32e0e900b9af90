use geojson2svg::classification::{Classif, Classification};
use geojson2svg::layer::get_nb_class;
use geojson2svg::CoreError;

fn bounds_of(nb_class: u32, values: &[i64], method: Classification) -> Vec<i64> {
    Classif::new(nb_class, values.to_vec(), method).unwrap().bounds
}

#[test]
fn quantiles_follow_the_offset_rounding() {
    let values: Vec<i64> = (1..=10).collect();
    // Inner boundaries at positions floor(i * 2.5 + 0.49): 2, 5 and 7.
    assert_eq!(bounds_of(4, &values, Classification::Quantiles), vec![1, 2, 5, 7, 10]);
}

#[test]
fn quantiles_ignore_the_order_of_the_sample() {
    let values = vec![10, 3, 7, 1, 9, 2, 8, 4, 6, 5];
    assert_eq!(bounds_of(4, &values, Classification::Quantiles), vec![1, 2, 5, 7, 10]);
}

#[test]
fn quantiles_need_enough_values() {
    // floor(1 * 1 / 4 + 0.49) is zero: no value for the first inner boundary.
    assert_eq!(Classif::new(4, vec![3], Classification::Quantiles).err(), Some(CoreError::InvalidInput));
    assert_eq!(bounds_of(1, &[3], Classification::Quantiles), vec![3, 3]);
}

#[test]
fn equal_interval_ends_exactly_at_the_maximum() {
    assert_eq!(bounds_of(5, &[0, 10], Classification::EqualInterval), vec![0, 2, 4, 6, 8, 10]);
    // Steps of 10 / 3, rounded down, and the maximum itself.
    assert_eq!(bounds_of(3, &[10, 0], Classification::EqualInterval), vec![0, 3, 6, 10]);
}

#[test]
fn head_tail_follows_the_means_above_the_mean() {
    let values = vec![1, 1, 1, 2, 3, 5, 8, 13, 21, 34];
    // Mean 8; above it 13, 21, 34 with mean 22; above that 34 alone.
    let b = bounds_of(4, &values, Classification::HeadTail);
    assert_eq!(b, vec![1, 22, 34]);
    assert!(b.windows(2).all(|w| w[0] <= w[1]));
}

#[test]
fn head_tail_of_equal_values_has_one_class() {
    assert_eq!(bounds_of(3, &[7, 7, 7], Classification::HeadTail), vec![7, 7]);
}

#[test]
fn bounds_enclose_the_sample_for_every_method() {
    let values = vec![5, -3, 12, 7, 7, 0, 44, 18, 2, 9, 31, -8];
    for (method, nb) in [
        (Classification::Quantiles, 4u32),
        (Classification::EqualInterval, 5),
        (Classification::HeadTail, 3),
    ] {
        let c = Classif::new(nb, values.clone(), method).unwrap();
        let b = &c.bounds;
        assert!(b.windows(2).all(|w| w[0] <= w[1]));
        assert!(b[0] <= -8 && *b.last().unwrap() >= 44);
        if method != Classification::HeadTail {
            assert_eq!(b.len(), nb as usize + 1);
        }
        assert_eq!((c.min, c.max), (-8, 44));
        assert_eq!(c.values, values);
    }
}

#[test]
fn every_sample_value_gets_a_class() {
    let values = vec![5, -3, 12, 7, 7, 0, 44, 18, 2, 9, 31, -8];
    for method in [Classification::Quantiles, Classification::EqualInterval, Classification::HeadTail] {
        let c = Classif::new(4, values.clone(), method).unwrap();
        let ix = c.class_indices(&values).unwrap();
        assert!(ix.iter().all(|i| (*i as usize) < c.bounds.len() - 1));
    }
}

#[test]
fn class_index_is_the_first_class_not_below() {
    let c = Classif::new(4, (1..=10).collect(), Classification::Quantiles).unwrap();
    assert_eq!(c.get_class_index(0), Some(0));
    assert_eq!(c.get_class_index(1), Some(0));
    assert_eq!(c.get_class_index(2), Some(0));
    assert_eq!(c.get_class_index(3), Some(1));
    assert_eq!(c.get_class_index(6), Some(2));
    assert_eq!(c.get_class_index(10), Some(3));
    assert_eq!(c.get_class_index(11), None);
}

#[test]
fn class_indices_report_a_value_above_the_bounds() {
    let c = Classif::new(2, vec![0, 10], Classification::EqualInterval).unwrap();
    assert_eq!(c.class_indices(&vec![0, 5, 6, 10]), Ok(vec![0, 0, 1, 1]));
    assert_eq!(c.class_indices(&vec![3, 11]), Err(CoreError::LookupFailure));
}

#[test]
fn invalid_inputs_are_refused() {
    assert_eq!(Classif::new(0, vec![1, 2], Classification::EqualInterval).err(), Some(CoreError::InvalidInput));
    assert_eq!(Classif::new(3, vec![], Classification::HeadTail).err(), Some(CoreError::InvalidInput));
    assert_eq!(Classif::new(3, vec![1, 2, 3], Classification::Jenks).err(), Some(CoreError::UnsupportedMethod));
}

#[test]
fn natural_breaks_are_checked() {
    let values = vec![1, 2, 4, 7, 9, 12];
    let c = Classif::from_natural_breaks(3, values.clone(), vec![1, 4, 9, 12]).unwrap();
    assert_eq!(c.bounds, vec![1, 4, 9, 12]);
    assert_eq!((c.min, c.max), (1, 12));
    assert_eq!(c.get_class_index(5), Some(1));
    // Out of order, too few, or not enclosing the sample.
    assert_eq!(Classif::from_natural_breaks(3, values.clone(), vec![1, 9, 4, 12]).err(), Some(CoreError::InvalidInput));
    assert_eq!(Classif::from_natural_breaks(3, values.clone(), vec![1, 4, 12]).err(), Some(CoreError::InvalidInput));
    assert_eq!(Classif::from_natural_breaks(3, values, vec![2, 4, 9, 12]).err(), Some(CoreError::InvalidInput));
}

#[test]
fn method_names_ignore_case() {
    assert_eq!(Classification::from_name("jenks"), Some(Classification::Jenks));
    assert_eq!(Classification::from_name("Jenks"), Some(Classification::Jenks));
    assert_eq!(Classification::from_name("Quantile"), Some(Classification::Quantiles));
    assert_eq!(Classification::from_name("QUANTILES"), Some(Classification::Quantiles));
    assert_eq!(Classification::from_name("Equal Interval"), Some(Classification::EqualInterval));
    assert_eq!(Classification::from_name("equal_interval"), Some(Classification::EqualInterval));
    assert_eq!(Classification::from_name("HeadTail"), Some(Classification::HeadTail));
    assert_eq!(Classification::from_name("head tail"), None);
    assert_eq!(Classification::from_name(""), None);
}

#[test]
fn class_count_follows_sturges_rule() {
    assert_eq!(get_nb_class(0), 0);
    assert_eq!(get_nb_class(1), 1);
    assert_eq!(get_nb_class(2), 1);
    assert_eq!(get_nb_class(3), 2);
    assert_eq!(get_nb_class(10), 4);
    assert_eq!(get_nb_class(76), 7);
    assert_eq!(get_nb_class(100), 7);
    assert_eq!(get_nb_class(1000), 10);
    assert_eq!(get_nb_class(usize::MAX), 64);
}

#[test]
fn kelvin_sign_reads_as_k() {
    assert_eq!(Classification::from_name("JEN\u{212A}S"), Some(Classification::Jenks));
    assert_eq!(Classification::from_name("\u{212A}"), None);
}

#[test]
fn head_tail_ignores_the_class_count() {
    let values = vec![1, 1, 1, 2, 3, 5, 8, 13, 21, 34];
    let a = bounds_of(1, &values, Classification::HeadTail);
    let b = bounds_of(9, &values, Classification::HeadTail);
    assert_eq!(a, b);
    assert!(a.len() <= values.len() + 1);
}
