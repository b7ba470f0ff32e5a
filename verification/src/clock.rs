//! The wall clock, for relative date filters.

use vstd::prelude::*;

verus! {

/// `std::time::SystemTime::now()` as whole seconds since the unix epoch (0
/// for a clock set before 1970). Nothing is claimed of the value.
#[verifier::external_body]
pub fn unix_now() -> (r: i64) {
    match std::time::SystemTime::now().duration_since(std::time::UNIX_EPOCH) {
        Ok(d) => d.as_secs() as i64,
        Err(_) => 0,
    }
}

/// Seconds `utc` read in a time zone `offset` seconds east of UTC, held
/// within the range of `i64`.
pub open spec fn shift_local(utc: int, offset: int) -> int {
    if utc + offset > i64::MAX {
        i64::MAX as int
    } else if utc + offset < i64::MIN {
        i64::MIN as int
    } else {
        utc + offset
    }
}

/// The current time as local wall-clock seconds, in a time zone `offset`
/// seconds east of UTC: the clock's reading shifted by `offset` (which
/// reading the clock gives is not claimed).
pub fn local_now(offset: i64) -> (r: i64)
    ensures
        exists|utc: i64| r == shift_local(utc as int, offset as int),
{
    let utc = unix_now();
    let r = if offset >= 0 {
        if utc > i64::MAX - offset {
            i64::MAX
        } else {
            utc + offset
        }
    } else if utc < i64::MIN - offset {
        i64::MIN
    } else {
        utc + offset
    };
    assert(r == shift_local(utc as int, offset as int));
    r
}

} // verus!
