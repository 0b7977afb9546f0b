//! Interval algebra over calendar instants, and a recurring weekly
//! working-hours policy that materializes concrete working windows
//! inside an arbitrary query interval.
//!
//! Instants are modeled as a calendar day number plus a time of day in
//! nanoseconds, so every computation here is plain integer arithmetic
//! with a full functional specification. Conversions to and from a
//! platform date-time type, and the RFC 3339 wire format of an
//! interval, live outside this verified core.

pub mod instant;
pub mod time_range;
pub mod vec_range;
pub mod working_hours;

pub use instant::Instant;
pub use instant::TimeOfDay;
pub use instant::Weekday;
pub use time_range::TimeRange;
pub use working_hours::WorkingHours;
