//! Shift rosters: an interval algebra over availability rules, and a fair,
//! deterministic rotation scheduler built on it.
//!
//! A roster is made for a period of time. The rules that hold for everybody
//! carve the period into eligible ranges ([`constraints`]), each of which
//! becomes one slot of the schedule. The slots are taken a rotation at a
//! time, and each rotation is assigned to the people who can take its slots,
//! the one of lowest cost first ([`solver`]). The cost of a person is the
//! weighted average of what the cost factors say of them ([`factors`]): how
//! much of the rotation they can cover, how long their current run of slots
//! has become, how recently they were assigned, and how much they have
//! worked so far.
//!
//! Time is counted in whole seconds. A timestamp is a count of seconds since
//! 1970-01-01T00:00:00 and a duration a count of seconds ([`time`]); the
//! calendar is that of `chrono`. Costs are fixed-point numbers in units of
//! one part in [`factors::COST_SCALE`].
//!
//! Every function states what it returns in its contract, over the
//! specification functions that stand beside it, and is verified against
//! that contract.

pub mod config;
pub mod constraints;
pub mod duration_days;
pub mod duration_hours;
pub mod factors;
pub mod iso8601_duration;
pub mod ledger;
pub mod output;
pub mod solver;
pub mod summary;
pub mod text;
pub mod time;
pub mod timerange;

pub use config::{Config, Human};
pub use constraints::Constraint;
pub use solver::{ScheduleSlot, Scheduler};
pub use summary::Summary;
pub use timerange::TimeRange;
