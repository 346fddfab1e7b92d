//! Verified core of a proxy client's profile page: the civil calendar behind
//! the "last updated" dates, the date text shown for a timestamp, and the
//! decisions that shape the list of profiles and each profile's row.

pub mod calendar;
pub mod date_text;
pub mod profiles;
