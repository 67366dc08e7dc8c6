use vstd::prelude::*;

verus! {

#[verifier::external_type_specification]
#[verifier::external_body]
pub struct ExInstant(std::time::Instant);

/// Relies on `std::time::Instant::now`: an opaque monotonic timestamp.
#[verifier::external_body]
pub fn instant_now() -> (r: std::time::Instant) {
    std::time::Instant::now()
}

/// Relies on `Instant::elapsed`, with `Duration::as_secs` converting the
/// result: the whole seconds passed since the instant was captured, which
/// depend on when this call runs.
#[verifier::external_body]
pub fn elapsed_secs(start: &std::time::Instant) -> (r: u64) {
    start.elapsed().as_secs()
}

/// Relies on chrono's `Local::now` and `DateTime::format` with
/// `"%Y-%m-%d %H:%M:%S"`: the current local wall-clock time, year first.
/// The result depends on the machine's clock; it holds at least nineteen
/// characters, the year being written with four or more digits.
#[verifier::external_body]
pub fn now_local_timestamp() -> (r: String)
    ensures
        r@.len() >= 19,
{
    chrono::Local::now().format("%Y-%m-%d %H:%M:%S").to_string()
}

} // verus!
