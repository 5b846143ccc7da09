use cardamon_core::startup::{
    carbon_intensity_step, config_path, database_name, database_url, log_filter,
    region_from_lookup, region_from_validation, region_step, ui_port, CarbonIntensityStep,
    RegionStep,
};

#[test]
fn config_file_given_or_default() {
    assert_eq!(config_path(&Some("other.toml".to_string())), "other.toml");
    assert_eq!(config_path(&None), "./cardamon.toml");
}

#[test]
fn region_given_is_validated() {
    match region_step(Some("GB".to_string())) {
        RegionStep::Validate(code) => assert_eq!(code, "GB"),
        RegionStep::FetchFromIp => panic!("expected validation"),
    }
    assert!(matches!(region_step(None), RegionStep::FetchFromIp));
}

#[test]
fn region_outcomes() {
    assert_eq!(region_from_lookup(Ok("FR".to_string())), Some("FR".to_string()));
    assert_eq!(region_from_lookup(Err("no network".to_string())), None);
    assert_eq!(region_from_validation("DE".to_string(), true), Some("DE".to_string()));
    assert_eq!(region_from_validation("XX".to_string(), false), None);
}

#[test]
fn carbon_intensity_source() {
    match carbon_intensity_step(&Some("GB".to_string())) {
        CarbonIntensityStep::Fetch(code) => assert_eq!(code, "GB"),
        CarbonIntensityStep::GlobalAverage => panic!("expected a fetch"),
    }
    assert!(matches!(carbon_intensity_step(&None), CarbonIntensityStep::GlobalAverage));
}

#[test]
fn defaults() {
    assert_eq!(ui_port(None), 1337);
    assert_eq!(ui_port(Some(8080)), 8080);
    assert_eq!(log_filter(None), "warn");
    assert_eq!(log_filter(Some("debug".to_string())), "debug");
    assert_eq!(database_url(None), "sqlite://cardamon.db?mode=rwc");
    assert_eq!(database_url(Some("postgres://x".to_string())), "postgres://x");
    assert_eq!(database_name(None), "");
    assert_eq!(database_name(Some("cardamon".to_string())), "cardamon");
}
