use rustune::datfile::{FortuneError, FortuneFile, LengthFilter};
use rustune::fortune_engine::{
    calculate_probabilities, collect_matches, load_sources, select_random_fortune,
    select_with_draws, wait_seconds_for_text, EngineError, LoadedSource, TextPattern,
    FULL_PERCENT, PERCENT_UNIT,
};
use rustune::rng::FortuneRng;
use rustune::strfile_builder::{build_dat_from_text, BuildOptions};

const ALPHA: &[u8] =
    b"Rust keeps moving.\n%\nParsers should be strict.\n%\nLogs are your friend.\n";
const BETA: &[u8] = b"Small binaries, sharp tools.\n%\nParity first, modern internals.\n";

fn corpus(path: &str, text: &[u8]) -> FortuneFile {
    let mut rng = FortuneRng::thread();
    let (dat, _) = build_dat_from_text(text, BuildOptions::default(), &mut rng).expect("build");
    FortuneFile::from_parts(path.to_string(), &dat.to_bytes().unwrap(), text.to_vec())
        .expect("open")
}

fn two_sources() -> Vec<LoadedSource> {
    load_sources(
        vec![(corpus("alpha", ALPHA), None), (corpus("beta", BETA), None)],
        LengthFilter::Any,
    )
    .expect("load")
}

#[test]
fn probabilities_follow_candidate_counts() {
    let loaded = two_sources();
    assert_eq!(loaded[0].candidate_indices, vec![0, 1, 2]);
    assert_eq!(loaded[1].candidate_indices, vec![0, 1]);
    let probs = calculate_probabilities(&loaded, false).expect("probabilities");
    assert_eq!(probs, vec![60 * PERCENT_UNIT, 40 * PERCENT_UNIT]);
}

#[test]
fn equal_probability_flattens_weights() {
    let loaded = two_sources();
    let probs = calculate_probabilities(&loaded, true).expect("probabilities");
    assert_eq!(probs, vec![50 * PERCENT_UNIT, 50 * PERCENT_UNIT]);
}

#[test]
fn explicit_percent_takes_its_share_first() {
    let loaded = load_sources(
        vec![
            (corpus("alpha", ALPHA), Some(30 * PERCENT_UNIT)),
            (corpus("beta", BETA), None),
        ],
        LengthFilter::Any,
    )
    .expect("load");
    let probs = calculate_probabilities(&loaded, false).expect("probabilities");
    assert_eq!(probs, vec![30 * PERCENT_UNIT, 70 * PERCENT_UNIT]);
}

#[test]
fn probability_errors() {
    assert_eq!(calculate_probabilities(&[], false), Err(EngineError::NoEntries));
    let over = load_sources(
        vec![
            (corpus("alpha", ALPHA), Some(70 * PERCENT_UNIT)),
            (corpus("beta", BETA), Some(40 * PERCENT_UNIT)),
        ],
        LengthFilter::Any,
    )
    .expect("load");
    assert_eq!(calculate_probabilities(&over, false), Err(EngineError::PercentOverflow));
    let zero = load_sources(vec![(corpus("alpha", ALPHA), Some(0))], LengthFilter::Any)
        .expect("load");
    assert_eq!(calculate_probabilities(&zero, false), Err(EngineError::AllZero));
    let full = load_sources(
        vec![(corpus("alpha", ALPHA), Some(FULL_PERCENT)), (corpus("beta", BETA), None)],
        LengthFilter::Any,
    )
    .expect("load");
    assert_eq!(
        calculate_probabilities(&full, false),
        Ok(vec![FULL_PERCENT, 0])
    );
}

#[test]
fn load_skips_sources_without_candidates() {
    let loaded = load_sources(
        vec![(corpus("alpha", ALPHA), None), (corpus("beta", BETA), None)],
        LengthFilter::Short { threshold: 20 },
    )
    .expect("load");
    assert_eq!(loaded.len(), 1);
    assert_eq!(loaded[0].db.text_path, "alpha");
    assert_eq!(loaded[0].candidate_indices, vec![0]);
    assert!(matches!(
        load_sources(
            vec![(corpus("beta", BETA), None)],
            LengthFilter::Short { threshold: 5 }
        ),
        Err(EngineError::NoSources)
    ));
}

#[test]
fn load_reports_record_errors() {
    let mut broken = corpus("alpha", ALPHA);
    broken.dat.offsets[0] = 1000;
    assert!(matches!(
        load_sources(vec![(broken, None)], LengthFilter::Any),
        Err(EngineError::Record(FortuneError::InvalidSpan { start: 1000, .. }))
    ));
}

#[test]
fn fixed_zero_selection_repeats() {
    let loaded = two_sources();
    let probs = calculate_probabilities(&loaded, false).unwrap();
    let mut first = None;
    for _ in 0..3 {
        let mut rng = FortuneRng::fixed(vec![0]);
        let sel = select_random_fortune(&loaded, &probs, &mut rng).expect("select");
        let got = (sel.source_path.clone(), sel.record_index, sel.text.clone());
        assert_eq!(got, ("alpha".to_string(), 0, "Rust keeps moving.\n".to_string()));
        if let Some(prev) = &first {
            assert_eq!(prev, &got);
        }
        first = Some(got);
    }
}

#[test]
fn fixed_values_pick_record_by_remainder() {
    let loaded = two_sources();
    let probs = calculate_probabilities(&loaded, true).unwrap();
    let mut rng = FortuneRng::fixed(vec![1]);
    let sel = select_random_fortune(&loaded, &probs, &mut rng).expect("select");
    assert_eq!(sel.source_path, "alpha");
    assert_eq!(sel.record_index, 1);
    assert_eq!(sel.text, "Parsers should be strict.\n");
}

#[test]
fn largest_draw_reaches_last_source() {
    let loaded = two_sources();
    let probs = calculate_probabilities(&loaded, false).unwrap();
    let sel = select_with_draws(&loaded, &probs, u64::MAX, 3).expect("select");
    assert_eq!(sel.source_path, "beta");
    assert_eq!(sel.record_index, 1);
    assert_eq!(sel.text, "Parity first, modern internals.\n");
    let mid = (u64::MAX / 5) * 3 + 100;
    let sel = select_with_draws(&loaded, &probs, mid, 0).expect("select");
    assert_eq!(sel.source_path, "beta");
    let sel = select_with_draws(&loaded, &probs, mid - 1000, 0).expect("select");
    assert_eq!(sel.source_path, "alpha");
}

#[test]
fn zero_probability_source_is_skipped() {
    let loaded = two_sources();
    let sel = select_with_draws(&loaded, &[0, 5], 0, 0).expect("select");
    assert_eq!(sel.source_path, "beta");
}

#[test]
fn selection_errors() {
    let loaded = two_sources();
    let mut rng = FortuneRng::fixed(vec![0]);
    assert!(matches!(
        select_random_fortune(&loaded, &[1], &mut rng),
        Err(EngineError::LengthMismatch)
    ));
    assert!(matches!(
        select_random_fortune(&loaded, &[0, 0], &mut rng),
        Err(EngineError::ZeroTotal)
    ));
    assert!(matches!(
        select_random_fortune(&loaded, &[u64::MAX, 1], &mut rng),
        Err(EngineError::TotalOverflow)
    ));
    let mut empty = two_sources();
    empty[0].candidate_indices.clear();
    assert!(matches!(
        select_with_draws(&empty, &[1, 0], 0, 0),
        Err(EngineError::NoCandidates)
    ));
}

#[test]
fn random_selection_stays_in_range() {
    let loaded = two_sources();
    let probs = calculate_probabilities(&loaded, false).unwrap();
    let mut rng = FortuneRng::thread();
    for _ in 0..20 {
        let sel = select_random_fortune(&loaded, &probs, &mut rng).expect("select");
        let limit = if sel.source_path == "alpha" { 3 } else { 2 };
        assert!(sel.record_index < limit);
    }
}

#[test]
fn scan_collects_matches_in_order() {
    let loaded = two_sources();
    let pattern = TextPattern::new("par", true).expect("pattern");
    let matches = collect_matches(&loaded, &pattern).expect("scan");
    let got: Vec<(String, usize, String)> = matches
        .iter()
        .map(|m| (m.source_path.clone(), m.record_index, m.text.clone()))
        .collect();
    assert_eq!(
        got,
        vec![
            ("alpha".to_string(), 1, "Parsers should be strict.\n".to_string()),
            ("beta".to_string(), 1, "Parity first, modern internals.\n".to_string()),
        ]
    );
    let again = collect_matches(&loaded, &pattern).expect("scan");
    assert_eq!(again.len(), 2);
    assert_eq!(again[0].record_index, 1);
}

#[test]
fn scan_is_case_sensitive_unless_asked() {
    let loaded = two_sources();
    let pattern = TextPattern::new("par", false).expect("pattern");
    assert!(collect_matches(&loaded, &pattern).expect("scan").is_empty());
    let pattern = TextPattern::new("^[A-Z][a-z]+ (are|keeps)", false).expect("pattern");
    let found = collect_matches(&loaded, &pattern).expect("scan");
    let idx: Vec<usize> = found.iter().map(|m| m.record_index).collect();
    assert_eq!(idx, vec![0, 2]);
    assert!(pattern.is_match("Logs are"));
    assert!(!pattern.is_match("logs are"));
}

#[test]
fn invalid_pattern_is_rejected() {
    let err = TextPattern::new("(", false).unwrap_err();
    assert!(err.message.contains("unclosed"));
}

#[test]
fn pacing_follows_reading_speed() {
    assert_eq!(wait_seconds_for_text(""), 6);
    assert_eq!(wait_seconds_for_text(&"x".repeat(120)), 6);
    assert_eq!(wait_seconds_for_text(&"x".repeat(121)), 7);
    assert_eq!(wait_seconds_for_text(&"é".repeat(200)), 10);
}
