//! The round based search for itineraries.

pub mod boarding;
pub mod completeness;
pub mod context;
pub mod itineraries;
pub mod journeys;
pub mod picking;
pub mod progress;
pub mod rounds;
pub mod router;
pub mod search;
pub mod shapes;
