//! A terminal calendar library: recurring event rules, calendrical
//! algorithms, grid layout and styled text rendering.
//!
//! The library is organised leaf to root: `date` holds the calendar
//! arithmetic (leap years, day numbers, weekdays, ISO weeks), `easter`
//! the Easter computation, `rules` the date-rule grammar and its
//! evaluator, `events` the rule-file parsing and recurrence expansion,
//! `grid` the week layout of a month, `style` the per-cell emphasis
//! rules, and `render` the text output.

pub mod clock;
pub mod date;
pub mod easter;
pub mod events;
pub mod grid;
pub mod render;
pub mod rules;
pub mod style;
pub mod text;

use vstd::prelude::*;

verus! {

/// One run's fixed settings: the display window, the week-start
/// convention, and what to show.
pub struct Config {
    pub num_months: usize,
    pub start_month: u32,
    pub start_year: i32,
    pub monday_first: bool,
    pub show_calendar: bool,
    pub show_events: bool,
    pub num_columns: usize,
    pub show_week_numbers: bool,
}

impl Config {
    /// The window starts at a real month and stays within the
    /// supported years.
    pub open spec fn wf(self) -> bool {
        &&& 1 <= self.start_month <= 12
        &&& crate::date::MIN_YEAR <= self.start_year <= crate::date::MAX_YEAR
        &&& 1 <= self.num_months
        &&& 1 <= self.num_columns <= 100000
        &&& self.start_year * 12 + self.start_month + self.num_months <= 12 * crate::date::MAX_YEAR
            + 13
    }

    /// Last year the recurrence expansion must cover for this window.
    pub open spec fn end_year_spec(self) -> int {
        (self.start_year * 12 + self.start_month + self.num_months - 1) / 12
    }
}

/// Last year the recurrence expansion must cover: the year of the
/// month after the window's last displayed month.
pub fn end_year_check(config: &Config) -> (r: i32)
    requires
        config.wf(),
    ensures
        r == config.end_year_spec(),
        config.start_year <= r <= crate::date::MAX_YEAR + 1,
{
    let total: i64 = config.start_year as i64 * 12 + config.start_month as i64
        + config.num_months as i64;
    proof {
        vstd::arithmetic::div_mod::lemma_fundamental_div_mod(total - 1, 12);
    }
    ((total - 1) / 12) as i32
}

} // verus!
