use cardamon_core::stats::{
    dataset_query, run_duration_millis, run_start_label, RunSelection, ScenarioSelection,
};
use chrono::{TimeZone, Utc};

#[test]
fn named_scenario_last_runs() {
    let q = dataset_query(Some("checkout".to_string()), Some(5));
    match q.scenarios {
        ScenarioSelection::Named(n) => assert_eq!(n, "checkout"),
        ScenarioSelection::All => panic!("expected a named scenario"),
    }
    assert_eq!(q.runs, RunSelection::LastN(5));
}

#[test]
fn everything_by_default() {
    let q = dataset_query(None, None);
    assert!(matches!(q.scenarios, ScenarioSelection::All));
    assert_eq!(q.runs, RunSelection::All);
}

#[test]
fn duration_is_stop_minus_start() {
    assert_eq!(run_duration_millis(1_000, 3_500), 2_500);
    assert_eq!(run_duration_millis(5_000, 1_000), -4_000);
}

#[test]
fn epoch_label() {
    assert_eq!(run_start_label(0), Some("01/01/70 00:00".to_string()));
}

#[test]
fn label_of_a_known_time() {
    assert_eq!(run_start_label(1_725_029_869_000), Some("30/08/24 14:57".to_string()));
}

#[test]
fn milliseconds_are_truncated_toward_zero() {
    assert_eq!(run_start_label(59_999), Some("01/01/70 00:00".to_string()));
    assert_eq!(run_start_label(-1_500), Some("31/12/69 23:59".to_string()));
    assert_eq!(run_start_label(-999), Some("01/01/70 00:00".to_string()));
}

#[test]
fn end_of_year_9999() {
    assert_eq!(run_start_label(253_402_300_799_999), Some("31/12/99 23:59".to_string()));
}

#[test]
fn out_of_chrono_range_has_no_label() {
    assert_eq!(run_start_label(i64::MAX), None);
    assert_eq!(run_start_label(i64::MIN), None);
}

#[test]
fn agrees_with_chrono_format() {
    let samples: [i64; 7] = [
        0,
        86_399_999,
        951_782_400_000,
        1_709_164_800_123,
        -62_135_596_800_000,
        -62_167_219_200_000,
        -100_000_000_000_000,
    ];
    for ms in samples.iter() {
        let expected = Utc
            .timestamp_opt(ms / 1000, 0)
            .single()
            .map(|t| t.format("%d/%m/%y %H:%M").to_string());
        assert_eq!(run_start_label(*ms), expected, "millis {}", ms);
    }
}
