use vstd::prelude::*;
use crate::tasks::Date;

verus! {

/// Relies on chrono's `Local::now` and `Datelike::num_days_from_ce`: the
/// local wall-clock calendar date as a day count from the common era. The
/// result depends on the machine's clock and time zone, so nothing is
/// promised of it; every caller must work for every date handed back.
#[verifier::external_body]
pub(crate) fn today_local() -> Date {
    Date { days: chrono::Datelike::num_days_from_ce(&chrono::Local::now().date_naive()) }
}

} // verus!
