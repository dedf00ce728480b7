use travel::records::{is_not_applicable, parse_airport, parse_route};
use travel::{Flights, LoadError, RouteIndex};

const ROUTES_HEADER: &str = "airline,airline_id,source,source_id,destination,destination_id,codeshare,stops,equipment\n";

const AIRPORTS_HEADER: &str = "id,name,city,country,iata,icao,latitude,longitude,altitude\n";

fn row(fields: &[&str]) -> Vec<String> {
    fields.iter().map(|field| field.to_string()).collect()
}

#[test]
fn new_graph_is_empty() {
    let flights = Flights::new();
    assert_eq!(flights.airport_count(), 0);
    assert!(flights.routes().is_empty());
    assert!(flights.airport(1).is_none());
    assert_eq!(flights.resolve("KBOS"), None);
}

#[test]
fn read_routes_collects_the_pairs_in_order() {
    let data = format!(
        "{}2B,410,AER,2965,KZN,2990,,0,CR2\n2B,410,ASF,2966,KZN,2990,,0,CR2\n2B,410,KZN,2990,AER,2965,,0,CR2\n",
        ROUTES_HEADER
    );
    let mut flights = Flights::new();
    assert_eq!(flights.read_routes(data.as_bytes()), Ok(()));
    assert_eq!(flights.routes(), &vec![(2965, 2990), (2966, 2990), (2990, 2965)]);
}

#[test]
fn read_routes_leaves_the_header_out() {
    let data = "0,0,0,1,0,2\n0,0,0,3,0,4\n";
    let mut flights = Flights::new();
    assert_eq!(flights.read_routes(data.as_bytes()), Ok(()));
    assert_eq!(flights.routes(), &vec![(3, 4)]);
}

#[test]
fn read_routes_of_nothing_adds_nothing() {
    let mut flights = Flights::new();
    assert_eq!(flights.read_routes(b""), Ok(()));
    assert_eq!(flights.read_routes(ROUTES_HEADER.as_bytes()), Ok(()));
    assert!(flights.routes().is_empty());
}

#[test]
fn read_routes_skips_what_is_not_applicable() {
    let data = format!(
        "{}a,1,X,NA,Y,2,,0,e\na,1,X,1,Y,NA,,0,e\na,1,X,NA,Y,NA,,0,e\na,1,X,1,Y,2,,0,e\na,1,X,NA,Y,oops,,0,e\n",
        ROUTES_HEADER
    );
    let mut flights = Flights::new();
    assert_eq!(flights.read_routes(data.as_bytes()), Ok(()));
    assert_eq!(flights.routes(), &vec![(1, 2)]);
}

#[test]
fn read_routes_adds_to_what_is_there() {
    let first = format!("{}a,1,X,1,Y,2,,0,e\n", ROUTES_HEADER);
    let second = format!("{}a,1,X,3,Y,4,,0,e\n", ROUTES_HEADER);
    let mut flights = Flights::new();
    assert_eq!(flights.read_routes(first.as_bytes()), Ok(()));
    assert_eq!(flights.read_routes(second.as_bytes()), Ok(()));
    assert_eq!(flights.routes(), &vec![(1, 2), (3, 4)]);
}

#[test]
fn read_routes_stops_at_a_bad_number() {
    let data = format!(
        "{}a,1,X,1,Y,2,,0,e\na,1,X,three,Y,4,,0,e\na,1,X,5,Y,6,,0,e\n",
        ROUTES_HEADER
    );
    let mut flights = Flights::new();
    assert_eq!(flights.read_routes(data.as_bytes()), Err(LoadError::BadNumber));
    assert_eq!(flights.routes(), &vec![(1, 2)]);
}

#[test]
fn read_routes_stops_at_a_bad_destination() {
    let data = format!("{}a,1,X,1,Y,2.5,,0,e\na,1,X,5,Y,6,,0,e\n", ROUTES_HEADER);
    let mut flights = Flights::new();
    assert_eq!(flights.read_routes(data.as_bytes()), Err(LoadError::BadNumber));
    assert!(flights.routes().is_empty());
}

#[test]
fn read_routes_rejects_an_identifier_out_of_range() {
    let data = format!("{}a,1,X,2147483648,Y,2,,0,e\n", ROUTES_HEADER);
    let mut flights = Flights::new();
    assert_eq!(flights.read_routes(data.as_bytes()), Err(LoadError::BadNumber));
}

#[test]
fn read_routes_wants_six_fields() {
    let data = "a,b,c,d\na,1,X,NA\na,1,X,7\na,1,X,NA\n";
    let mut flights = Flights::new();
    assert_eq!(flights.read_routes(data.as_bytes()), Err(LoadError::MissingField));
    let short = "a,b,c\na,1,X\n";
    assert_eq!(flights.read_routes(short.as_bytes()), Err(LoadError::MissingField));
    let five = "a,b,c,d,e\na,1,X,7,Y\n";
    assert_eq!(flights.read_routes(five.as_bytes()), Err(LoadError::MissingField));
    assert!(flights.routes().is_empty());
}

#[test]
fn read_routes_stops_where_the_table_goes_wrong() {
    let data = format!("{}a,1,X,1,Y,2,,0,e\na,1,X,3,Y,4\na,1,X,5,Y,6,,0,e\n", ROUTES_HEADER);
    let mut flights = Flights::new();
    assert_eq!(flights.read_routes(data.as_bytes()), Err(LoadError::Malformed));
    assert_eq!(flights.routes(), &vec![(1, 2)]);
}

#[test]
fn read_routes_rejects_bytes_that_are_no_text() {
    let mut data = ROUTES_HEADER.as_bytes().to_vec();
    data.extend_from_slice(b"a,1,X,1,Y,2,,0,e\na,1,\xff\xfe,3,Y,4,,0,e\n");
    let mut flights = Flights::new();
    assert_eq!(flights.read_routes(&data), Err(LoadError::Malformed));
    assert_eq!(flights.routes(), &vec![(1, 2)]);
}

#[test]
fn read_routes_tells_a_bad_record_before_a_bad_table() {
    let data = format!("{}a,1,X,one,Y,2,,0,e\na,1,X,3,Y,4\n", ROUTES_HEADER);
    let mut flights = Flights::new();
    assert_eq!(flights.read_routes(data.as_bytes()), Err(LoadError::BadNumber));
}

#[test]
fn read_routes_reads_quoted_fields() {
    let data = format!("{}\"a, b\",1,X,\"12\",Y,\"34\",,0,e\n", ROUTES_HEADER);
    let mut flights = Flights::new();
    assert_eq!(flights.read_routes(data.as_bytes()), Ok(()));
    assert_eq!(flights.routes(), &vec![(12, 34)]);
}

#[test]
fn add_routes_takes_records_as_they_are() {
    let rows = vec![
        row(&["a", "1", "X", "10", "Y", "20"]),
        row(&["a", "1", "X", "NA", "Y", "20"]),
        row(&["a", "1", "X", "-3", "Y", "+4"]),
    ];
    let mut flights = Flights::new();
    assert_eq!(flights.add_routes(&rows), Ok(()));
    assert_eq!(flights.routes(), &vec![(10, 20), (-3, 4)]);
}

#[test]
fn add_routes_keeps_what_came_before_a_fault() {
    let rows = vec![
        row(&["a", "1", "X", "10", "Y", "20"]),
        row(&["a", "1", "X", "10"]),
        row(&["a", "1", "X", "30", "Y", "40"]),
    ];
    let mut flights = Flights::new();
    assert_eq!(flights.add_routes(&rows), Err(LoadError::MissingField));
    assert_eq!(flights.routes(), &vec![(10, 20)]);
}

#[test]
fn parse_route_reads_the_fourth_and_sixth_field() {
    assert_eq!(parse_route(&row(&["9", "9", "9", "1", "9", "2", "9"])), Ok(Some((1, 2))));
    assert_eq!(parse_route(&row(&["9", "9", "9", "NA", "9", "2"])), Ok(None));
    assert_eq!(parse_route(&row(&["9", "9", "9", "NA"])), Ok(None));
    assert_eq!(parse_route(&row(&["9", "9", "9", "1", "9", "NA"])), Ok(None));
    assert_eq!(parse_route(&row(&["9", "9", "9", "1", "9", "na"])), Err(LoadError::BadNumber));
    assert_eq!(parse_route(&row(&["9", "9", "9", " 1", "9", "2"])), Err(LoadError::BadNumber));
    assert_eq!(parse_route(&row(&["9", "9", "9", "1", "9"])), Err(LoadError::MissingField));
    assert_eq!(parse_route(&row(&[])), Err(LoadError::MissingField));
}

#[test]
fn is_not_applicable_knows_the_marker_only() {
    assert!(is_not_applicable("NA"));
    for text in ["", "N", "A", "na", "Na", "NA ", " NA", "NAN", "N\u{c5}", "\\N"] {
        assert!(!is_not_applicable(text), "{:?}", text);
    }
}

#[test]
fn route_index_counts_every_route_in_both_directions() {
    let routes = vec![(1, 2), (3, 1), (2, 3), (1, 2), (4, 4), (1, 1)];
    let index = RouteIndex::build(&routes);
    assert_eq!(index.neighbors(1), vec![2, 3, 2, 1, 1]);
    assert_eq!(index.neighbors(2), vec![1, 3, 1]);
    assert_eq!(index.neighbors(3), vec![1, 2]);
    assert_eq!(index.neighbors(4), vec![4, 4]);
    assert_eq!(index.neighbors(5), Vec::<i32>::new());
    assert_eq!(RouteIndex::build(&Vec::new()).neighbors(1), Vec::<i32>::new());
}

#[test]
fn route_index_mirrors_every_neighbor() {
    let routes = vec![(1, 2), (3, 1), (2, 3), (1, 2), (4, 4), (1, 1), (7, -2)];
    let index = RouteIndex::build(&routes);
    for a in -3..9 {
        for b in -3..9 {
            assert_eq!(index.neighbors(a).contains(&b), index.neighbors(b).contains(&a));
            let joined = routes.contains(&(a, b)) || routes.contains(&(b, a));
            assert_eq!(index.neighbors(a).contains(&b), joined);
        }
    }
}

#[test]
fn parse_airport_reads_the_fields_by_their_place() {
    let record = row(&[
        "3448",
        "Logan International Airport",
        "Boston",
        "United States",
        "BOS",
        "KBOS",
        "42.36429977",
        "-71.00520325",
        "20",
    ]);
    let routes = vec![(3448, 1), (2, 3448), (5, 6)];
    let airport = parse_airport(&record, &RouteIndex::build(&routes)).unwrap();
    assert_eq!(airport.id(), 3448);
    assert_eq!(airport.name(), "Logan International Airport");
    assert_eq!(airport.city(), "Boston");
    assert_eq!(airport.country(), "United States");
    assert_eq!(airport.latitude(), "42.36429977");
    assert_eq!(airport.longitude(), "-71.00520325");
    assert_eq!(airport.connections(), &vec![1, 2]);
}

#[test]
fn parse_airport_rejects_bad_records() {
    let routes = RouteIndex::build(&Vec::new());
    let short = row(&["1", "n", "c", "k", "i", "AAA", "0"]);
    assert!(matches!(parse_airport(&short, &routes), Err(LoadError::MissingField)));
    let bad_id = row(&["one", "n", "c", "k", "i", "AAA", "0", "0"]);
    assert!(matches!(parse_airport(&bad_id, &routes), Err(LoadError::BadNumber)));
    let bad_latitude = row(&["1", "n", "c", "k", "i", "AAA", "north", "0"]);
    assert!(matches!(parse_airport(&bad_latitude, &routes), Err(LoadError::BadNumber)));
    let bad_longitude = row(&["1", "n", "c", "k", "i", "AAA", "0", ""]);
    assert!(matches!(parse_airport(&bad_longitude, &routes), Err(LoadError::BadNumber)));
    let good = row(&["1", "n", "c", "k", "i", "AAA", "1e2", "-.5"]);
    assert!(parse_airport(&good, &routes).is_ok());
}

#[test]
fn read_airports_files_each_airport_under_its_identifier_and_code() {
    let data = format!(
        "{}1,Alpha,Acity,Aland,AA,AAA,0,0,5\n2,Beta,Bcity,Bland,BB,BBB,0,1,6\n",
        AIRPORTS_HEADER
    );
    let mut flights = Flights::new();
    assert_eq!(flights.read_airports(data.as_bytes()), Ok(()));
    assert_eq!(flights.resolve("AAA"), Some(1));
    assert_eq!(flights.resolve("BBB"), Some(2));
    assert_eq!(flights.resolve("AA"), None);
    assert_eq!(flights.resolve("aaa"), None);
    assert_eq!(flights.resolve(" AAA"), None);
    let beta = flights.airport(2).unwrap();
    assert_eq!(beta.id(), 2);
    assert_eq!(beta.name(), "Beta");
    assert_eq!(beta.city(), "Bcity");
    assert_eq!(beta.country(), "Bland");
    assert_eq!(beta.latitude(), "0");
    assert_eq!(beta.longitude(), "1");
    assert!(beta.connections().is_empty());
    assert!(flights.airport(3).is_none());
}

#[test]
fn read_airports_gives_each_airport_the_routes_that_touch_it() {
    let routes = format!(
        "{}a,1,X,1,Y,2,,0,e\na,1,X,3,Y,1,,0,e\na,1,X,2,Y,3,,0,e\na,1,X,1,Y,9,,0,e\n",
        ROUTES_HEADER
    );
    let airports = format!(
        "{}1,Alpha,c,k,AA,AAA,0,0,5\n2,Beta,c,k,BB,BBB,0,1,6\n3,Gamma,c,k,CC,CCC,1,1,7\n4,Delta,c,k,DD,DDD,2,2,8\n",
        AIRPORTS_HEADER
    );
    let mut flights = Flights::new();
    assert_eq!(flights.read_routes(routes.as_bytes()), Ok(()));
    assert_eq!(flights.read_airports(airports.as_bytes()), Ok(()));
    assert_eq!(flights.airport(1).unwrap().connections(), &vec![2, 3, 9]);
    assert_eq!(flights.airport(2).unwrap().connections(), &vec![1, 3]);
    assert_eq!(flights.airport(3).unwrap().connections(), &vec![1, 2]);
    assert!(flights.airport(4).unwrap().connections().is_empty());
    assert!(flights.airport(9).is_none());
}

#[test]
fn read_airports_does_not_see_routes_that_come_later() {
    let routes = format!("{}a,1,X,1,Y,2,,0,e\n", ROUTES_HEADER);
    let airports = format!("{}1,Alpha,c,k,AA,AAA,0,0,5\n2,Beta,c,k,BB,BBB,0,1,6\n", AIRPORTS_HEADER);
    let mut flights = Flights::new();
    assert_eq!(flights.read_airports(airports.as_bytes()), Ok(()));
    assert_eq!(flights.read_routes(routes.as_bytes()), Ok(()));
    assert!(flights.airport(1).unwrap().connections().is_empty());
    assert!(flights.airport(2).unwrap().connections().is_empty());
    assert_eq!(flights.routes(), &vec![(1, 2)]);
}

#[test]
fn read_airports_lets_the_later_record_win() {
    let data = format!(
        "{}1,Alpha,c,k,AA,AAA,0,0,5\n1,Other,c,k,OO,OOO,3,4,5\n2,Beta,c,k,BB,AAA,0,1,6\n",
        AIRPORTS_HEADER
    );
    let mut flights = Flights::new();
    assert_eq!(flights.read_airports(data.as_bytes()), Ok(()));
    assert_eq!(flights.airport_count(), 2);
    assert_eq!(flights.airport(1).unwrap().name(), "Other");
    assert_eq!(flights.airport(1).unwrap().latitude(), "3");
    assert_eq!(flights.resolve("AAA"), Some(2));
    assert_eq!(flights.resolve("OOO"), Some(1));
}

#[test]
fn read_airports_stops_at_a_bad_coordinate() {
    let data = format!(
        "{}1,Alpha,c,k,AA,AAA,0,0,5\n2,Beta,c,k,BB,BBB,north,1,6\n3,Gamma,c,k,CC,CCC,1,1,7\n",
        AIRPORTS_HEADER
    );
    let mut flights = Flights::new();
    assert_eq!(flights.read_airports(data.as_bytes()), Err(LoadError::BadNumber));
    assert_eq!(flights.resolve("AAA"), Some(1));
    assert_eq!(flights.resolve("BBB"), None);
    assert_eq!(flights.resolve("CCC"), None);
    assert!(flights.airport(2).is_none());
    assert!(flights.airport(3).is_none());
}

#[test]
fn read_airports_stops_at_a_bad_identifier() {
    let data = format!("{}x1,Alpha,c,k,AA,AAA,0,0,5\n2,Beta,c,k,BB,BBB,0,1,6\n", AIRPORTS_HEADER);
    let mut flights = Flights::new();
    assert_eq!(flights.read_airports(data.as_bytes()), Err(LoadError::BadNumber));
    assert!(flights.airport(2).is_none());
}

#[test]
fn read_airports_wants_eight_fields() {
    let data = "id,name,city,country,iata,icao,latitude\n1,Alpha,c,k,AA,AAA,0\n";
    let mut flights = Flights::new();
    assert_eq!(flights.read_airports(data.as_bytes()), Err(LoadError::MissingField));
    assert!(flights.airport(1).is_none());
}

#[test]
fn read_airports_stops_where_the_table_goes_wrong() {
    let data = format!("{}1,Alpha,c,k,AA,AAA,0,0,5\n2,Beta,c,k,BB,BBB,0,1\n", AIRPORTS_HEADER);
    let mut flights = Flights::new();
    assert_eq!(flights.read_airports(data.as_bytes()), Err(LoadError::Malformed));
    assert_eq!(flights.resolve("AAA"), Some(1));
    assert_eq!(flights.resolve("BBB"), None);
}

#[test]
fn read_airports_reads_quoted_names() {
    let data = format!(
        "{}7,\"Field, the \"\"big\"\" one\",\"Sao Paulo\",Brazil,GRU,SBGR,-23.435556,-46.473056,2459\n",
        AIRPORTS_HEADER
    );
    let mut flights = Flights::new();
    assert_eq!(flights.read_airports(data.as_bytes()), Ok(()));
    let airport = flights.airport(7).unwrap();
    assert_eq!(airport.name(), "Field, the \"big\" one");
    assert_eq!(airport.city(), "Sao Paulo");
    assert_eq!(airport.latitude(), "-23.435556");
}

#[test]
fn add_airports_takes_records_as_they_are() {
    let mut flights = Flights::new();
    assert_eq!(flights.add_routes(&vec![row(&["a", "1", "X", "5", "Y", "6"])]), Ok(()));
    let rows = vec![
        row(&["5", "Five", "c", "k", "i", "FIVE", "1.5", "2.5"]),
        row(&["6", "Six", "c", "k", "i", "SIX", "inf", "NaN"]),
    ];
    assert_eq!(flights.add_airports(&rows), Ok(()));
    assert_eq!(flights.airport(5).unwrap().connections(), &vec![6]);
    assert_eq!(flights.airport(6).unwrap().connections(), &vec![5]);
    assert_eq!(flights.airport(6).unwrap().latitude(), "inf");
    assert_eq!(flights.resolve("SIX"), Some(6));
}

#[test]
fn create_graph_loads_routes_before_airports() {
    let routes = format!("{}a,1,X,1,Y,2,,0,e\n", ROUTES_HEADER);
    let airports = format!("{}1,Alpha,c,k,AA,AAA,0,0,5\n2,Beta,c,k,BB,BBB,0,1,6\n", AIRPORTS_HEADER);
    let mut flights = Flights::new();
    assert_eq!(flights.create_graph(routes.as_bytes(), airports.as_bytes()), (Ok(()), Ok(())));
    assert_eq!(flights.routes(), &vec![(1, 2)]);
    assert_eq!(flights.airport(1).unwrap().connections(), &vec![2]);
    assert_eq!(flights.airport(2).unwrap().connections(), &vec![1]);
}

#[test]
fn create_graph_from_nothing_is_empty() {
    let mut flights = Flights::new();
    assert_eq!(flights.create_graph(b"", b""), (Ok(()), Ok(())));
    assert_eq!(flights.airport_count(), 0);
    assert!(flights.routes().is_empty());
}

#[test]
fn create_graph_goes_on_after_a_fault_in_one_dataset() {
    let routes = format!("{}a,1,X,1,Y,2,,0,e\na,1,X,bad,Y,2,,0,e\na,1,X,2,Y,1,,0,e\n", ROUTES_HEADER);
    let airports = format!(
        "{}1,Alpha,c,k,AA,AAA,0,0,5\n2,Beta,c,k,BB,BBB,0,1,6\n3,Gamma,c,k,CC,CCC,bad,1,7\n",
        AIRPORTS_HEADER
    );
    let mut flights = Flights::new();
    assert_eq!(
        flights.create_graph(routes.as_bytes(), airports.as_bytes()),
        (Err(LoadError::BadNumber), Err(LoadError::BadNumber))
    );
    assert_eq!(flights.routes(), &vec![(1, 2)]);
    assert_eq!(flights.airport(1).unwrap().connections(), &vec![2]);
    assert_eq!(flights.resolve("BBB"), Some(2));
    assert_eq!(flights.resolve("CCC"), None);
}

#[test]
fn dummy_is_logan_international() {
    let airport = travel::Airport::dummy();
    assert_eq!(airport.id(), 3448);
    assert_eq!(airport.name(), "Logan International Airport");
    assert_eq!(airport.latitude(), "42.36429977");
    assert_eq!(airport.longitude(), "-71.00520325");
    assert_eq!(airport.city(), "Boston");
    assert_eq!(airport.country(), "US");
    assert!(airport.connections().is_empty());
    assert_eq!(airport.latitude().parse::<f64>(), Ok(42.36429977));
    assert_eq!(airport.longitude().parse::<f64>(), Ok(-71.00520325));
}
