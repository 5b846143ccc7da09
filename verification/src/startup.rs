//! Choices made before a run: which configuration file to read, where the
//! region code and the carbon intensity come from, and the defaults of the
//! settings read from the environment.

use vstd::prelude::*;

verus! {

/// The configuration file used where none is given.
pub open spec fn default_config_path() -> Seq<char> {
    "./cardamon.toml"@
}

/// The configuration file to load: the one given with `--file`, else
/// `./cardamon.toml`.
pub fn config_path(file: &Option<String>) -> (path: String)
    ensures
        match file {
            Some(p) => path@ == p@,
            None => path@ == default_config_path(),
        },
{
    match file {
        Some(p) => p.clone(),
        None => String::from_str("./cardamon.toml"),
    }
}

/// What to do to obtain the region code of a run.
#[derive(Debug)]
pub enum RegionStep {
    /// No region was given: look it up from the machine's IP address.
    FetchFromIp,
    /// A region was given: check that it is a known region code.
    Validate(String),
}

/// A given region is validated; without one, it is looked up from the IP
/// address.
pub fn region_step(region: Option<String>) -> (step: RegionStep)
    ensures
        match region {
            Some(code) => step == RegionStep::Validate(code),
            None => step == RegionStep::FetchFromIp,
        },
{
    match region {
        Some(code) => RegionStep::Validate(code),
        None => RegionStep::FetchFromIp,
    }
}

/// The region after a lookup from the IP address: the code found, or none
/// where the lookup failed.
pub fn region_from_lookup(found: Result<String, String>) -> (region: Option<String>)
    ensures
        match found {
            Ok(code) => region == Some(code),
            Err(_) => region is None,
        },
{
    match found {
        Ok(code) => Some(code),
        Err(_) => None,
    }
}

/// The region after validation: the given code where it is valid, else none.
pub fn region_from_validation(code: String, valid: bool) -> (region: Option<String>)
    ensures
        valid ==> region == Some(code),
        !valid ==> region is None,
{
    if valid {
        Some(code)
    } else {
        None
    }
}

/// Where the carbon intensity of a run comes from.
#[derive(Debug)]
pub enum CarbonIntensityStep {
    /// Fetch it for this region code; the global average stands in if the
    /// fetch fails.
    Fetch(String),
    /// Use the global average.
    GlobalAverage,
}

/// With a region code the carbon intensity is fetched for it; without one,
/// the global average is used.
pub fn carbon_intensity_step(region: &Option<String>) -> (step: CarbonIntensityStep)
    ensures
        match region {
            Some(code) => step matches CarbonIntensityStep::Fetch(c) && c@ == code@,
            None => step == CarbonIntensityStep::GlobalAverage,
        },
{
    match region {
        Some(code) => CarbonIntensityStep::Fetch(code.clone()),
        None => CarbonIntensityStep::GlobalAverage,
    }
}

/// The port of the UI server: the one given, else 1337.
pub fn ui_port(port: Option<u32>) -> (p: u32)
    ensures
        match port {
            Some(given) => p == given,
            None => p == 1337,
        },
{
    match port {
        Some(given) => given,
        None => 1337,
    }
}

/// The tracing filter: `LOG_FILTER` where it is set, else `warn`.
pub fn log_filter(from_env: Option<String>) -> (filter: String)
    ensures
        match from_env {
            Some(v) => filter@ == v@,
            None => filter@ == "warn"@,
        },
{
    match from_env {
        Some(v) => v,
        None => String::from_str("warn"),
    }
}

/// The database URL: `DATABASE_URL` where it is set, else a local SQLite
/// file that is created when missing.
pub fn database_url(from_env: Option<String>) -> (url: String)
    ensures
        match from_env {
            Some(v) => url@ == v@,
            None => url@ == "sqlite://cardamon.db?mode=rwc"@,
        },
{
    match from_env {
        Some(v) => v,
        None => String::from_str("sqlite://cardamon.db?mode=rwc"),
    }
}

/// The database name: `DATABASE_NAME` where it is set, else empty.
pub fn database_name(from_env: Option<String>) -> (name: String)
    ensures
        match from_env {
            Some(v) => name@ == v@,
            None => name@ == Seq::<char>::empty(),
        },
{
    match from_env {
        Some(v) => v,
        None => String::new(),
    }
}

} // verus!
