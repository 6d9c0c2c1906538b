use cv_timeline::model::{Color, Timeline, TimelineBlock, Year};

fn year(v: f32) -> Year {
    Year::from_bits(v.to_bits())
}

#[test]
fn default_block_matches_the_form_defaults() {
    let b = TimelineBlock::default();
    assert_eq!(b.title, "New block");
    assert_eq!(b.subtitle, None);
    assert_eq!(f32::from_bits(b.start_year.to_bits()), 2020.0);
    assert_eq!(f32::from_bits(b.end_year.to_bits()), 2021.0);
    assert_eq!(b.color, Color { r: 66, g: 133, b: 244, a: 255 });
}

#[test]
fn default_timeline_spans_2015_to_2026() {
    let t = Timeline::default();
    assert_eq!(f32::from_bits(t.start_year.to_bits()), 2015.0);
    assert_eq!(f32::from_bits(t.end_year.to_bits()), 2026.0);
    assert!(t.blocks.is_empty());
}

fn samples() -> Vec<f32> {
    vec![
        0.0,
        -0.0,
        1.0,
        -1.0,
        2020.0,
        2020.5,
        2021.0 / 3.0,
        -2020.25,
        f32::MIN_POSITIVE,
        -f32::MIN_POSITIVE,
        f32::from_bits(1),
        f32::from_bits(0x8000_0001),
        f32::MAX,
        f32::MIN,
        f32::INFINITY,
        f32::NEG_INFINITY,
        f32::NAN,
        -f32::NAN,
        f32::from_bits(0x7FC0_1234),
    ]
}

#[test]
fn year_ge_is_f32_ge() {
    for &a in &samples() {
        for &b in &samples() {
            assert_eq!(year(a).ge(&year(b)), a >= b, "{a} >= {b}");
        }
    }
}

#[test]
fn year_total_key_orders_as_total_cmp() {
    for &a in &samples() {
        for &b in &samples() {
            assert_eq!(year(a).total_key().cmp(&year(b).total_key()), a.total_cmp(&b), "{a} vs {b}");
        }
    }
}

#[test]
fn year_is_nan_matches_f32() {
    for &a in &samples() {
        assert_eq!(year(a).is_nan(), a.is_nan());
    }
}

#[test]
fn year_round_trips_its_bits() {
    let y = year(2023.75);
    assert_eq!(f32::from_bits(y.to_bits()), 2023.75);
}
