//! Transit routing over static timetables.
//!
//! `timetable` holds the arrays of a timetable and how several of them are joined into one,
//! `route` the round based search over such a timetable, `transfers` the preparation of the
//! pedestrian graph that transfers are measured on, and `api` what a request may ask for.
//! `moments` has moments in UTC, `sorting` a stable sort, and `counting` how many positions have a
//! property.

pub mod api;
pub mod counting;
pub mod moments;
pub mod route;
pub mod sorting;
pub mod timetable;
pub mod transfers;
