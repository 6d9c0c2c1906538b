use cv_timeline::text::{TruncateStep, Truncation};

/// Runs the shortening of `text`, answering each query with `fits`, and
/// returns the label and the texts that were measured.
fn shorten(text: &str, fits: impl Fn(&str) -> bool) -> (String, Vec<String>) {
    let (mut t, mut query) = Truncation::start(text);
    let mut asked = Vec::new();
    loop {
        asked.push(query.clone());
        match t.answer(fits(&query)) {
            TruncateStep::Measure(q) => query = q,
            TruncateStep::Done(label) => return (label, asked),
        }
    }
}

fn mono(max: usize) -> impl Fn(&str) -> bool {
    move |s: &str| s.chars().count() <= max
}

#[test]
fn text_that_fits_is_kept() {
    assert_eq!(shorten("hello", mono(5)).0, "hello");
    assert_eq!(shorten("", mono(0)).0, "");
}

#[test]
fn long_text_keeps_longest_fitting_prefix() {
    assert_eq!(shorten("Software engineer", mono(5)).0, "Soft\u{2026}");
    assert_eq!(shorten("abc", mono(2)).0, "a\u{2026}");
}

#[test]
fn only_the_ellipsis_when_no_prefix_fits() {
    assert_eq!(shorten("abc", mono(1)).0, "\u{2026}");
}

#[test]
fn nothing_when_even_the_ellipsis_does_not_fit() {
    assert_eq!(shorten("abc", mono(0)).0, "");
}

#[test]
fn multibyte_characters_are_kept_whole() {
    assert_eq!(shorten("Zürich Öl", mono(4)).0, "Zür\u{2026}");
}

#[test]
fn binary_search_asks_logarithmically_many_questions() {
    let (label, asked) = shorten("abcd", |s: &str| s == "\u{2026}" || s == "ab\u{2026}");
    assert_eq!(label, "ab\u{2026}");
    assert_eq!(asked, vec!["abcd", "\u{2026}", "ab\u{2026}", "abc\u{2026}"]);
}

#[test]
fn shortened_label_always_fits_a_monotone_measure() {
    let text = "Senior research engineer, robotics lab";
    for max in 0..45 {
        let (label, _) = shorten(text, mono(max));
        assert!(label.is_empty() || label.chars().count() <= max);
        if max >= 1 && max < text.chars().count() {
            assert_eq!(label.chars().count(), max);
        }
    }
}
