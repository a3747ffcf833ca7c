//! What a request may ask for, and how it is turned into a query.

pub mod plan;
pub mod request;
