//! Flight routing over a network of airports.
//!
//! The crate keeps an in-memory route graph that is built from two tabular
//! datasets (airports and routes), searches it breadth first for a chain of
//! routes with the fewest hops, and resolves public airport codes to the
//! identifiers the graph is keyed by.
//!
//! Coordinates are kept as the decimal text of the dataset. The crate checks
//! that they are numbers and hands them out as text; it does no arithmetic on
//! them.

pub mod adjacency;
pub mod airport;
pub mod flights;
pub mod lookup;
pub mod number;
pub mod records;
pub mod search;
pub mod table;

pub use crate::adjacency::RouteIndex;
pub use crate::airport::{Airport, AirportView};
pub use crate::flights::{Flights, FlightsView};
pub use crate::lookup::FlightError;
pub use crate::records::LoadError;
