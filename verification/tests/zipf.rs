use zipfr::WordAnalyzer;
use zipfr::zipf::{
    ZipfFitState, ZipfBasis, ZipfReference, ChartScope, DeviationClass, Ratio, calculate_zipf_fit,
    deviation_class,
};

fn table() -> Vec<zipfr::WordCount> {
    let mut analyzer = WordAnalyzer::new();
    let mut words = Vec::new();
    // counts: alpha 4, beta 2, gamma 1
    for _ in 0..4 {
        words.push("alpha".to_string());
    }
    for _ in 0..2 {
        words.push("beta".to_string());
    }
    words.push("gamma".to_string());
    analyzer.analyze(words)
}

#[test]
fn test_absolute_reference_word_ratio_is_one() {
    let t = table();
    let state = ZipfFitState {
        enabled: true,
        basis: ZipfBasis::Filtered,
        reference: ZipfReference::Absolute,
    };
    for scope in [ChartScope::Relative, ChartScope::Absolute] {
        let fit = calculate_zipf_fit(&t[0], &t, &t, &state, &scope).unwrap();
        assert_eq!(fit.num, fit.den);
        assert_eq!(deviation_class(&fit), DeviationClass::Nominal);
    }
}

#[test]
fn test_relative_window_top_word_ratio_is_one() {
    let t = table();
    let window: Vec<zipfr::WordCount> = vec![t[1].clone(), t[2].clone()];
    let state = ZipfFitState {
        enabled: true,
        basis: ZipfBasis::Filtered,
        reference: ZipfReference::Relative,
    };
    let fit = calculate_zipf_fit(&window[0], &window, &t, &state, &ChartScope::Relative).unwrap();
    assert_eq!(fit.num, fit.den);
}

#[test]
fn test_fit_values_are_exact() {
    let t = table();
    let state = ZipfFitState {
        enabled: true,
        basis: ZipfBasis::Filtered,
        reference: ZipfReference::Absolute,
    };
    // beta: count 2, rank 2; ideal = 4 / 2 = 2; ratio = 2 * 2 / 4 = 1
    let fit = calculate_zipf_fit(&t[1], &t, &t, &state, &ChartScope::Absolute).unwrap();
    assert_eq!(fit.num, 4);
    assert_eq!(fit.den, 4);
    // gamma: count 1, rank 3; ratio = 3 / 4
    let fit2 = calculate_zipf_fit(&t[2], &t, &t, &state, &ChartScope::Absolute).unwrap();
    assert_eq!(fit2.num, 3);
    assert_eq!(fit2.den, 4);
}

#[test]
fn test_fit_disabled_or_empty_reference_is_none() {
    let t = table();
    let off = ZipfFitState {
        enabled: false,
        basis: ZipfBasis::Filtered,
        reference: ZipfReference::Absolute,
    };
    assert!(calculate_zipf_fit(&t[0], &t, &t, &off, &ChartScope::Relative).is_none());

    let on = ZipfFitState { enabled: true, ..off };
    let empty: Vec<zipfr::WordCount> = Vec::new();
    assert!(calculate_zipf_fit(&t[0], &t, &empty, &on, &ChartScope::Absolute).is_none());
}

#[test]
fn test_deviation_classes() {
    let cases = [
        (Ratio { num: 9, den: 10 }, DeviationClass::Nominal),
        (Ratio { num: 10, den: 10 }, DeviationClass::Nominal),
        (Ratio { num: 11, den: 10 }, DeviationClass::Nominal),
        (Ratio { num: 8, den: 10 }, DeviationClass::MildUnder),
        (Ratio { num: 12, den: 10 }, DeviationClass::MildOver),
        (Ratio { num: 13, den: 10 }, DeviationClass::MildOver),
        (Ratio { num: 5, den: 10 }, DeviationClass::ModerateUnder),
        (Ratio { num: 2, den: 1 }, DeviationClass::ModerateOver),
        (Ratio { num: 1, den: 10 }, DeviationClass::ExtremeUnder),
        (Ratio { num: 3, den: 1 }, DeviationClass::ExtremeOver),
    ];
    for (ratio, expected) in cases {
        assert_eq!(deviation_class(&ratio), expected);
    }
}
