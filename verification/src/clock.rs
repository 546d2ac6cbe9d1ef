use vstd::prelude::*;

verus! {

/// Relies on chrono::Utc::now and DateTime::timestamp: seconds since the unix
/// epoch. Nothing can be promised of the clock's reading. On a system whose
/// clock is set before the epoch, chrono::Utc::now itself panics.
#[verifier::external_body]
pub fn unix_now_raw() -> i64 {
    chrono::Utc::now().timestamp()
}

/// Relies on chrono::Local::now and the Datelike/Timelike accessors `day`
/// (1 to 31), `hour` (0 to 23) and `minute` (0 to 59), which convert the one
/// sampled instant into its local calendar parts.
#[verifier::external_body]
pub fn local_now_parts() -> (r: (u32, u32, u32))
    ensures
        1 <= r.0 <= 31,
        r.1 <= 23,
        r.2 <= 59,
{
    let t = chrono::Local::now();
    (chrono::Datelike::day(&t), chrono::Timelike::hour(&t), chrono::Timelike::minute(&t))
}

/// The wall clock as a non-negative unix second count; a negative reading,
/// should the wrapper ever return one, clamps to zero.
pub fn now_unix() -> u64 {
    let t = unix_now_raw();
    if t < 0 {
        0
    } else {
        t as u64
    }
}

} // verus!
