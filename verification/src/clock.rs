//! The current date, read from the system clock.

use vstd::prelude::*;
use chrono::Datelike;
use crate::date::Date;
use crate::date::from_ymd;

verus! {

/// Relies on chrono: `Local::now().naive_local().date()` is the
/// current local calendar date, and its `Datelike` accessors return a
/// month between 1 and 12 and a day of month between 1 and 31.  What
/// comes back depends on the clock, so nothing more is promised.
#[verifier::external_body]
fn now_ymd() -> (r: (i32, u32, u32))
    ensures
        1 <= r.1 <= 12,
        1 <= r.2 <= 31,
{
    let today = chrono::Local::now().naive_local().date();
    (today.year(), today.month(), today.day())
}

/// The current local date; `None` when the clock reports a date
/// outside the supported years.
pub fn today_date() -> (r: Option<Date>)
    ensures
        r is Some ==> r.unwrap().wf(),
{
    let (y, m, d) = now_ymd();
    from_ymd(y, m, d)
}

} // verus!
