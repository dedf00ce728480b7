//! Looking up a flight between two airports, by identifier or by public code.

use crate::flights::{Flights, FlightsView};
use crate::search::lemma_route_passes_airports;
use vstd::prelude::*;

verus! {

/// Why no flight was found.
#[derive(Debug, Clone, Copy, PartialEq, Eq, Structural)]
pub enum FlightError {
    /// The source is no airport of the graph.
    UnknownSource,
    /// The destination is no airport of the graph.
    UnknownDestination,
    /// Source and destination are the same airport.
    SameAirport,
    /// No chain of flights leads from the source to the destination.
    NoRoute,
}

impl FlightsView {
    /// Why the graph has no flight from the airport `src` to the airport
    /// `dst`, if it has none. An unknown source is told before an unknown
    /// destination, and both before anything else.
    pub open spec fn flight_fault(self, src: i32, dst: i32) -> Option<FlightError> {
        if !self.airports.contains_key(src) {
            Some(FlightError::UnknownSource)
        } else if !self.airports.contains_key(dst) {
            Some(FlightError::UnknownDestination)
        } else if src == dst {
            Some(FlightError::SameAirport)
        } else if !self.connected(src, dst) {
            Some(FlightError::NoRoute)
        } else {
            None
        }
    }

    /// Why the graph has no flight between the airports that two public
    /// codes stand for, if it has none. A code that the graph does not know
    /// makes its side unknown.
    pub open spec fn lookup_fault(self, src: Seq<char>, dst: Seq<char>) -> Option<FlightError> {
        if !self.codes.contains_key(src) {
            Some(FlightError::UnknownSource)
        } else if !self.codes.contains_key(dst) {
            Some(FlightError::UnknownDestination)
        } else {
            self.flight_fault(self.codes[src], self.codes[dst])
        }
    }
}

impl Flights {
    /// Looks up a flight between two airports given by their identifiers.
    ///
    /// Both must be airports of the graph, and they must differ; these are
    /// checked before any search. The result is then a chain of flights with
    /// the fewest hops, told from the destination back to the source, or the
    /// fault that none exists. Every edge of the chain joins two airports of
    /// the graph.
    pub fn get_flight_id(&self, src: i32, dst: i32) -> (r: Result<Vec<(i32, i32)>, FlightError>)
        ensures
            match r {
                Ok(route) => {
                    &&& self@.flight_fault(src, dst) is None
                    &&& self@.is_shortest_route(src, dst, route@)
                    &&& self@.passes_airports(route@)
                },
                Err(e) => self@.flight_fault(src, dst) == Some(e),
            },
    {
        if self.airport(src).is_none() {
            return Err(FlightError::UnknownSource);
        }
        if self.airport(dst).is_none() {
            return Err(FlightError::UnknownDestination);
        }
        if src == dst {
            return Err(FlightError::SameAirport);
        }
        let route = self.breadth_first_search(src, dst);
        if route.len() == 0 {
            Err(FlightError::NoRoute)
        } else {
            proof {
                lemma_route_passes_airports(self@, src, dst, route@);
            }
            Ok(route)
        }
    }

    /// Looks up a flight between two airports given by their public codes.
    ///
    /// The codes are taken as they are: capital and small letters differ, and
    /// white space counts. Each is resolved to an identifier, and the flight
    /// is then looked up as [`Flights::get_flight_id`] does.
    pub fn get_flight(&self, src: &str, dst: &str) -> (r: Result<Vec<(i32, i32)>, FlightError>)
        ensures
            match r {
                Ok(route) => {
                    &&& self@.lookup_fault(src@, dst@) is None
                    &&& self@.is_shortest_route(self@.codes[src@], self@.codes[dst@], route@)
                    &&& self@.passes_airports(route@)
                },
                Err(e) => self@.lookup_fault(src@, dst@) == Some(e),
            },
    {
        let src_id: i32 = match self.resolve(src) {
            Some(id) => id,
            None => {
                return Err(FlightError::UnknownSource);
            },
        };
        let dst_id: i32 = match self.resolve(dst) {
            Some(id) => id,
            None => {
                return Err(FlightError::UnknownDestination);
            },
        };
        self.get_flight_id(src_id, dst_id)
    }
}

/// How a lookup ends once the length of the route that was found is known: a
/// route whose legs add up to no distance at all counts as no route.
pub open spec fn verdict(
    found: Result<Vec<(i32, i32)>, FlightError>,
    no_length: bool,
) -> Result<Vec<(i32, i32)>, FlightError> {
    match found {
        Ok(route) => if no_length {
            Err(FlightError::NoRoute)
        } else {
            Ok(route)
        },
        Err(e) => Err(e),
    }
}

/// Ends a lookup. `found` is what the lookup found, and `no_length` tells
/// whether the distances along the route that it found add up to exactly
/// zero. Such a route is refused as no route; every other outcome stands.
pub fn conclude(found: Result<Vec<(i32, i32)>, FlightError>, no_length: bool) -> (r: Result<
    Vec<(i32, i32)>,
    FlightError,
>)
    ensures
        r == verdict(found, no_length),
{
    match found {
        Ok(route) => if no_length {
            Err(FlightError::NoRoute)
        } else {
            Ok(route)
        },
        Err(e) => Err(e),
    }
}

/// A lookup from an airport to itself fails as such, whatever routes the
/// graph holds: the fault is told before any search.
pub proof fn lemma_same_airport_is_refused(g: FlightsView, x: i32)
    requires
        g.airports.contains_key(x),
    ensures
        g.flight_fault(x, x) == Some(FlightError::SameAirport),
{
}

/// A lookup by two codes that stand for one airport fails as a lookup from
/// an airport to itself; in particular a lookup that gives one known code
/// twice.
pub proof fn lemma_same_code_is_refused(g: FlightsView, src: Seq<char>, dst: Seq<char>)
    requires
        g.wf(),
        g.codes.contains_key(src),
        g.codes.contains_key(dst),
        g.codes[src] == g.codes[dst],
    ensures
        g.lookup_fault(src, dst) == Some(FlightError::SameAirport),
{
}

/// A lookup by codes fails with an unknown source exactly when the graph
/// does not know the source's code, and with an unknown destination exactly
/// when it knows the source's code and not the destination's.
pub proof fn lemma_unknown_code_tells_its_side(g: FlightsView, src: Seq<char>, dst: Seq<char>)
    requires
        g.wf(),
    ensures
        g.lookup_fault(src, dst) == Some(FlightError::UnknownSource) <==> !g.codes.contains_key(
            src,
        ),
        g.lookup_fault(src, dst) == Some(FlightError::UnknownDestination) <==> g.codes.contains_key(
            src,
        ) && !g.codes.contains_key(dst),
{
}

/// Between two different airports of the graph a lookup fails exactly when
/// no chain of flights connects them, and then for that reason.
pub proof fn lemma_no_route_is_a_failure(g: FlightsView, src: i32, dst: i32)
    requires
        g.airports.contains_key(src),
        g.airports.contains_key(dst),
        src != dst,
    ensures
        g.flight_fault(src, dst) is Some <==> !g.connected(src, dst),
        g.flight_fault(src, dst) is Some ==> g.flight_fault(src, dst) == Some(
            FlightError::NoRoute,
        ),
{
}

} // verus!
