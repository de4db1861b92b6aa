use toml::value::Datetime;
use vstd::prelude::*;

verus! {

/// The date-time value that each note carries, as the persisted format writes it.
#[verifier::external_type_specification]
#[verifier::external_body]
pub struct ExDatetime(toml::value::Datetime);

/// Relies on chrono's `Utc::now` for the wall clock, written out by
/// `DateTime::to_rfc3339` and read back by toml's `Datetime` parser. The system
/// clock has no leap seconds and a four-digit year, so the parser accepts the
/// text. Nothing is promised of the value: it is the time of the call.
#[verifier::external_body]
pub fn current_datetime() -> (r: Datetime) {
    chrono::Utc::now().to_rfc3339().parse::<Datetime>().unwrap()
}

} // verus!
