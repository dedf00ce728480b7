//! The route graph: airports keyed by identifier, the routes that were
//! loaded, and the public codes by which callers name an airport.

use crate::adjacency::{lemma_neighbors_mirror, neighbors_in, RouteIndex};
use crate::airport::{Airport, AirportView};
use crate::number::i32_of_text;
use crate::records::{
    airport_of_row, airport_row_fault, airport_rows_verdict, code_of_row, dataset_verdict,
    leading_airport_rows, leading_route_rows, lemma_leading_rows_end_at_first_rejected,
    parse_airport, parse_route, route_of_row, route_row_fault, route_rows_verdict, LoadError,
};
use crate::table::{csv_records, read_records};
use std::collections::HashMap;
use vstd::hash_map::StringHashMap;
use vstd::prelude::*;

verus! {

/// The route graph.
pub struct Flights {
    airports: HashMap<i32, Airport>,
    connections: Vec<(i32, i32)>,
    name_idmap: StringHashMap<i32>,
}

/// The mathematical value of a route graph.
#[verifier::ext_equal]
pub struct FlightsView {
    /// The airports, by identifier.
    pub airports: Map<i32, AirportView>,
    /// The routes in the order in which they were loaded, each as the pair of
    /// the identifiers of its source and of its destination.
    pub connections: Seq<(i32, i32)>,
    /// The identifier that each public code stands for.
    pub codes: Map<Seq<char>, i32>,
}

impl FlightsView {
    /// The graph with no airport and no route.
    pub open spec fn empty() -> FlightsView {
        FlightsView { airports: Map::empty(), connections: Seq::empty(), codes: Map::empty() }
    }

    /// The graph with one more route.
    pub open spec fn with_route(self, route: (i32, i32)) -> FlightsView {
        FlightsView { connections: self.connections.push(route), ..self }
    }

    /// The graph with `airport` under its identifier and `code` standing for
    /// it. An earlier airport with that identifier is replaced, and so is an
    /// earlier meaning of the code.
    pub open spec fn with_airport(self, airport: AirportView, code: Seq<char>) -> FlightsView {
        FlightsView {
            airports: self.airports.insert(airport.id, airport),
            codes: self.codes.insert(code, airport.id),
            ..self
        }
    }

    /// The graph after the routes in the first `n` records of `rows` were
    /// added, one after the other. A record that holds no route adds nothing.
    pub open spec fn after_route_rows(self, rows: Seq<Seq<Seq<char>>>, n: nat) -> FlightsView
        decreases n,
    {
        if n == 0 {
            self
        } else {
            let before = self.after_route_rows(rows, (n - 1) as nat);
            match route_of_row(rows[n - 1]) {
                Some(route) => before.with_route(route),
                None => before,
            }
        }
    }

    /// The graph after the airports in the first `n` records of `rows` were
    /// added, one after the other, each with the neighbors that the routes
    /// of the graph give it. A record that holds no airport adds nothing.
    pub open spec fn after_airport_rows(self, rows: Seq<Seq<Seq<char>>>, n: nat) -> FlightsView
        decreases n,
    {
        if n == 0 {
            self
        } else {
            let before = self.after_airport_rows(rows, (n - 1) as nat);
            if airport_row_fault(rows[n - 1]) is None {
                before.with_airport(
                    airport_of_row(rows[n - 1], self.connections),
                    code_of_row(rows[n - 1]),
                )
            } else {
                before
            }
        }
    }

    /// Every airport is filed under its own identifier and has well-formed
    /// coordinates, and every public code stands for an airport of the graph.
    pub open spec fn wf(self) -> bool {
        &&& forall|id: i32| #[trigger]
            self.airports.contains_key(id) ==> self.airports[id].id == id && self.airports[id].wf()
        &&& forall|code: Seq<char>| #[trigger]
            self.codes.contains_key(code) ==> self.airports.contains_key(self.codes[code])
    }
}

impl View for Flights {
    type V = FlightsView;

    closed spec fn view(&self) -> FlightsView {
        FlightsView {
            airports: self.airports@.map_values(|a: Airport| a@),
            connections: self.connections@,
            codes: self.name_idmap@,
        }
    }
}

impl Flights {
    /// A graph with no airport and no route.
    pub fn new() -> (flights: Flights)
        ensures
            flights@ == FlightsView::empty(),
            flights@.wf(),
    {
        let flights = Flights {
            airports: HashMap::new(),
            connections: Vec::new(),
            name_idmap: StringHashMap::new(),
        };
        assert(flights@.airports =~= Map::empty());
        flights
    }

    /// Adds the routes that the records of a routes dataset hold, in their
    /// order, up to the first record that is rejected. The routes before it
    /// stay in the graph; its fault is returned.
    pub fn add_routes(&mut self, rows: &Vec<Vec<String>>) -> (r: Result<(), LoadError>)
        requires
            old(self)@.wf(),
        ensures
            final(self)@.wf(),
            final(self)@ == old(self)@.after_route_rows(
                rows.deep_view(),
                leading_route_rows(rows.deep_view()),
            ),
            r == route_rows_verdict(rows.deep_view()),
    {
        let ghost table = rows.deep_view();
        let ghost accepts = |row: Seq<Seq<char>>| route_row_fault(row) is None;
        let mut i: usize = 0;
        while i < rows.len()
            invariant
                i <= rows.len(),
                table == rows.deep_view(),
                accepts == (|row: Seq<Seq<char>>| route_row_fault(row) is None),
                forall|j: int| 0 <= j < i ==> accepts(#[trigger] table[j]),
                self@ == old(self)@.after_route_rows(table, i as nat),
                self@.wf(),
            decreases rows.len() - i,
        {
            assert(table[i as int] == rows[i as int].deep_view());
            let ghost before = self@;
            match parse_route(&rows[i]) {
                Ok(Some(route)) => {
                    self.connections.push(route);
                    assert(self@ == before.with_route(route));
                },
                Ok(None) => {},
                Err(e) => {
                    proof {
                        lemma_leading_rows_end_at_first_rejected(table, accepts, i as nat);
                    }
                    return Err(e);
                },
            }
            i = i + 1;
        }
        proof {
            lemma_leading_rows_end_at_first_rejected(table, accepts, i as nat);
        }
        Ok(())
    }

    /// Adds the airports that the records of an airports dataset hold, in
    /// their order, up to the first record that is rejected. Each airport gets
    /// as neighbors what the routes already in the graph hold for it, and
    /// its public code is made to stand for it; an airport or a code that
    /// the graph already has is replaced. The airports before the rejected
    /// record stay in the graph; its fault is returned.
    pub fn add_airports(&mut self, rows: &Vec<Vec<String>>) -> (r: Result<(), LoadError>)
        requires
            old(self)@.wf(),
        ensures
            final(self)@.wf(),
            final(self)@ == old(self)@.after_airport_rows(
                rows.deep_view(),
                leading_airport_rows(rows.deep_view()),
            ),
            r == airport_rows_verdict(rows.deep_view()),
    {
        let ghost table = rows.deep_view();
        let ghost accepts = |row: Seq<Seq<char>>| airport_row_fault(row) is None;
        let index = RouteIndex::build(&self.connections);
        let mut i: usize = 0;
        while i < rows.len()
            invariant
                i <= rows.len(),
                table == rows.deep_view(),
                accepts == (|row: Seq<Seq<char>>| airport_row_fault(row) is None),
                forall|j: int| 0 <= j < i ==> accepts(#[trigger] table[j]),
                self@ == old(self)@.after_airport_rows(table, i as nat),
                self@.connections == old(self)@.connections,
                index@ == old(self)@.connections,
                self@.wf(),
            decreases rows.len() - i,
        {
            assert(table[i as int] == rows[i as int].deep_view());
            let ghost before = self@;
            match parse_airport(&rows[i], &index) {
                Ok(airport) => {
                    let id: i32 = airport.id();
                    let code: String = rows[i][5].clone();
                    let ghost added = airport@;
                    assert(code@ == code_of_row(table[i as int]));
                    self.airports.insert(id, airport);
                    self.name_idmap.insert(code, id);
                    assert(self@.airports =~= before.airports.insert(id, added));
                },
                Err(e) => {
                    proof {
                        lemma_leading_rows_end_at_first_rejected(table, accepts, i as nat);
                    }
                    return Err(e);
                },
            }
            i = i + 1;
        }
        proof {
            lemma_leading_rows_end_at_first_rejected(table, accepts, i as nat);
        }
        Ok(())
    }

    /// Loads a routes dataset: splits it into records and adds the routes
    /// that they hold, as [`Flights::add_routes`] does. A dataset that is no
    /// well-formed table is read up to the record where it goes wrong.
    pub fn read_routes(&mut self, data: &[u8]) -> (r: Result<(), LoadError>)
        requires
            old(self)@.wf(),
        ensures
            final(self)@.wf(),
            final(self)@ == old(self)@.after_route_rows(
                csv_records(data@).0,
                leading_route_rows(csv_records(data@).0),
            ),
            r == dataset_verdict(route_rows_verdict(csv_records(data@).0), csv_records(data@).1),
    {
        let (rows, complete) = read_records(data);
        match self.add_routes(&rows) {
            Err(e) => Err(e),
            Ok(_) => if complete {
                Ok(())
            } else {
                Err(LoadError::Malformed)
            },
        }
    }

    /// Loads an airports dataset: splits it into records and adds the
    /// airports that they hold, as [`Flights::add_airports`] does. A dataset
    /// that is no well-formed table is read up to the record where it goes
    /// wrong.
    pub fn read_airports(&mut self, data: &[u8]) -> (r: Result<(), LoadError>)
        requires
            old(self)@.wf(),
        ensures
            final(self)@.wf(),
            final(self)@ == old(self)@.after_airport_rows(
                csv_records(data@).0,
                leading_airport_rows(csv_records(data@).0),
            ),
            r == dataset_verdict(
                airport_rows_verdict(csv_records(data@).0),
                csv_records(data@).1,
            ),
    {
        let (rows, complete) = read_records(data);
        match self.add_airports(&rows) {
            Err(e) => Err(e),
            Ok(_) => if complete {
                Ok(())
            } else {
                Err(LoadError::Malformed)
            },
        }
    }

    /// Builds the graph from the two datasets: first the routes, then the
    /// airports, so that each airport finds the routes that touch it. A fault
    /// in one dataset ends the loading of that dataset only; what was loaded
    /// stays. The result tells how the loading of the routes and how the
    /// loading of the airports ended.
    pub fn create_graph(&mut self, routes: &[u8], airports: &[u8]) -> (r: (
        Result<(), LoadError>,
        Result<(), LoadError>,
    ))
        requires
            old(self)@.wf(),
        ensures
            final(self)@.wf(),
            final(self)@ == old(self)@.after_route_rows(
                csv_records(routes@).0,
                leading_route_rows(csv_records(routes@).0),
            ).after_airport_rows(
                csv_records(airports@).0,
                leading_airport_rows(csv_records(airports@).0),
            ),
            r.0 == dataset_verdict(
                route_rows_verdict(csv_records(routes@).0),
                csv_records(routes@).1,
            ),
            r.1 == dataset_verdict(
                airport_rows_verdict(csv_records(airports@).0),
                csv_records(airports@).1,
            ),
    {
        let routes_loaded = self.read_routes(routes);
        let airports_loaded = self.read_airports(airports);
        (routes_loaded, airports_loaded)
    }

    /// The airport with the given identifier, if the graph has one.
    pub fn airport(&self, id: i32) -> (found: Option<&Airport>)
        ensures
            match found {
                Some(airport) => self@.airports.contains_key(id) && airport@ == self@.airports[id],
                None => !self@.airports.contains_key(id),
            },
    {
        self.airports.get(&id)
    }

    /// The identifier that a public code stands for, if the graph knows the
    /// code. The code is taken as it is: capital and small letters differ.
    pub fn resolve(&self, code: &str) -> (found: Option<i32>)
        ensures
            match found {
                Some(id) => self@.codes.contains_key(code@) && id == self@.codes[code@],
                None => !self@.codes.contains_key(code@),
            },
    {
        match self.name_idmap.get(code) {
            Some(id) => Some(*id),
            None => None,
        }
    }

    /// The number of airports in the graph.
    pub fn airport_count(&self) -> (n: usize)
        ensures
            n == self@.airports.len(),
    {
        assert(self@.airports.dom() =~= self.airports@.dom());
        self.airports.len()
    }

    /// The routes that were loaded so far.
    pub fn routes(&self) -> (routes: &Vec<(i32, i32)>)
        ensures
            routes@ == self@.connections,
    {
        &self.connections
    }
}

/// Adding routes leaves the airports and the codes as they are, keeps the
/// routes that were there in their place, and keeps a well-formed graph
/// well-formed.
pub proof fn lemma_after_route_rows(g: FlightsView, rows: Seq<Seq<Seq<char>>>, n: nat)
    ensures
        g.after_route_rows(rows, n).airports == g.airports,
        g.after_route_rows(rows, n).codes == g.codes,
        g.connections.is_prefix_of(g.after_route_rows(rows, n).connections),
        g.wf() ==> g.after_route_rows(rows, n).wf(),
    decreases n,
{
    if n > 0 {
        lemma_after_route_rows(g, rows, (n - 1) as nat);
    }
}

/// Adding airports leaves the routes as they are, keeps the airports and
/// codes that no record replaces, and keeps a well-formed graph well-formed.
pub proof fn lemma_after_airport_rows(g: FlightsView, rows: Seq<Seq<Seq<char>>>, n: nat)
    requires
        n <= rows.len(),
    ensures
        g.after_airport_rows(rows, n).connections == g.connections,
        g.airports.dom().subset_of(g.after_airport_rows(rows, n).airports.dom()),
        g.codes.dom().subset_of(g.after_airport_rows(rows, n).codes.dom()),
        g.wf() ==> g.after_airport_rows(rows, n).wf(),
    decreases n,
{
    if n > 0 {
        lemma_after_airport_rows(g, rows, (n - 1) as nat);
    }
}

/// After the airports of a dataset were added, each of them is in the graph
/// under its identifier, with the neighbors that the routes of the graph
/// give it, and its public code stands for an airport of the graph. Where no
/// later record has the same code, the code stands for this airport.
pub proof fn lemma_loaded_airport_is_addressable(
    g: FlightsView,
    rows: Seq<Seq<Seq<char>>>,
    n: nat,
    i: int,
)
    requires
        0 <= i < n <= rows.len(),
        airport_row_fault(rows[i]) is None,
        g.wf(),
    ensures
        ({
            let h = g.after_airport_rows(rows, n);
            let id = i32_of_text(rows[i][0])->0;
            let code = code_of_row(rows[i]);
            &&& h.airports.contains_key(id)
            &&& h.airports[id].id == id
            &&& h.airports[id].connections == neighbors_in(g.connections, id)
            &&& h.codes.contains_key(code)
            &&& h.airports.contains_key(h.codes[code])
            &&& (forall|j: int| i < j < n ==> code_of_row(#[trigger] rows[j]) != code)
                ==> h.codes[code] == id
        }),
    decreases n,
{
    let last = n - 1;
    let before = g.after_airport_rows(rows, last as nat);
    lemma_after_airport_rows(g, rows, last as nat);
    if i < last {
        lemma_loaded_airport_is_addressable(g, rows, last as nat, i);
        let code = code_of_row(rows[i]);
        if forall|j: int| i < j < n ==> code_of_row(#[trigger] rows[j]) != code {
            assert(code_of_row(rows[last]) != code);
            assert(forall|j: int| i < j < last ==> code_of_row(#[trigger] rows[j]) != code);
        }
    }
}

/// In a graph that was built from nothing, first the routes and then the
/// airports, flights go both ways: where a flight goes from one airport of
/// the graph to another, one goes back.
pub proof fn lemma_built_graph_is_symmetric(
    route_rows: Seq<Seq<Seq<char>>>,
    routes_read: nat,
    airport_rows: Seq<Seq<Seq<char>>>,
    airports_read: nat,
    a: i32,
    b: i32,
)
    requires
        airports_read <= airport_rows.len(),
    ensures
        ({
            let g = FlightsView::empty().after_route_rows(route_rows, routes_read);
            let h = g.after_airport_rows(airport_rows, airports_read);
            h.airports.contains_key(a) && h.airports.contains_key(b) ==> (h.links(a, b)
                <==> h.links(b, a))
        }),
{
    let g = FlightsView::empty().after_route_rows(route_rows, routes_read);
    let h = g.after_airport_rows(airport_rows, airports_read);
    lemma_after_route_rows(FlightsView::empty(), route_rows, routes_read);
    assert(g.airports =~= Map::<i32, AirportView>::empty());
    lemma_airports_hold_their_routes(g, airport_rows, airports_read, a);
    lemma_airports_hold_their_routes(g, airport_rows, airports_read, b);
    lemma_neighbors_mirror(g.connections, a, b);
}

/// After airports were added to a graph, an airport that was not in the
/// graph before has its own identifier and the neighbors that the routes of
/// the graph give it.
pub proof fn lemma_airports_hold_their_routes(
    g: FlightsView,
    rows: Seq<Seq<Seq<char>>>,
    n: nat,
    id: i32,
)
    requires
        n <= rows.len(),
        !g.airports.contains_key(id),
    ensures
        ({
            let h = g.after_airport_rows(rows, n);
            h.airports.contains_key(id) ==> h.airports[id].id == id && h.airports[id].connections
                == neighbors_in(g.connections, id)
        }),
    decreases n,
{
    if n > 0 {
        lemma_airports_hold_their_routes(g, rows, (n - 1) as nat, id);
    }
}

} // verus!
