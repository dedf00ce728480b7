//! Airports, the vertices of the route graph.

use crate::number::is_real_text;
use vstd::prelude::*;

verus! {

/// An airport as the dataset describes it, with the airports one flight away.
///
/// Latitude and longitude are decimal degrees, kept as they are written in
/// the dataset; both are real numbers in decimal notation.
pub struct Airport {
    id: i32,
    name: String,
    latitude: String,
    longitude: String,
    city: String,
    country: String,
    connections: Vec<i32>,
}

/// The mathematical value of an [`Airport`].
#[verifier::ext_equal]
pub struct AirportView {
    pub id: i32,
    pub name: Seq<char>,
    pub latitude: Seq<char>,
    pub longitude: Seq<char>,
    pub city: Seq<char>,
    pub country: Seq<char>,
    pub connections: Seq<i32>,
}

impl View for Airport {
    type V = AirportView;

    closed spec fn view(&self) -> AirportView {
        AirportView {
            id: self.id,
            name: self.name@,
            latitude: self.latitude@,
            longitude: self.longitude@,
            city: self.city@,
            country: self.country@,
            connections: self.connections@,
        }
    }
}

impl AirportView {
    /// Both coordinates are real numbers in decimal notation.
    pub open spec fn wf(self) -> bool {
        is_real_text(self.latitude) && is_real_text(self.longitude)
    }
}

impl Airport {
    #[verifier::type_invariant]
    spec fn coordinates_are_numbers(self) -> bool {
        is_real_text(self.latitude@) && is_real_text(self.longitude@)
    }

    /// An airport with the given attributes and neighbors.
    pub(crate) fn new(
        id: i32,
        name: String,
        latitude: String,
        longitude: String,
        city: String,
        country: String,
        connections: Vec<i32>,
    ) -> (airport: Airport)
        requires
            is_real_text(latitude@),
            is_real_text(longitude@),
        ensures
            airport@ == (AirportView {
                id,
                name: name@,
                latitude: latitude@,
                longitude: longitude@,
                city: city@,
                country: country@,
                connections: connections@,
            }),
    {
        Airport { id, name, latitude, longitude, city, country, connections }
    }

    /// A sample airport, Logan International in Boston, with no connections.
    pub fn dummy() -> (airport: Airport)
        ensures
            airport@ == (AirportView {
                id: 3448,
                name: "Logan International Airport"@,
                latitude: "42.36429977"@,
                longitude: "-71.00520325"@,
                city: "Boston"@,
                country: "US"@,
                connections: Seq::empty(),
            }),
            airport@.wf(),
    {
        let latitude = "42.36429977";
        let longitude = "-71.00520325";
        proof {
            lemma_sample_coordinates();
        }
        Airport::new(
            3448,
            "Logan International Airport".to_owned(),
            latitude.to_owned(),
            longitude.to_owned(),
            "Boston".to_owned(),
            "US".to_owned(),
            Vec::new(),
        )
    }

    /// The identifier the graph is keyed by.
    pub fn id(&self) -> (id: i32)
        ensures
            id == self@.id,
    {
        self.id
    }

    /// The display name.
    pub fn name(&self) -> (name: &str)
        ensures
            name@ == self@.name,
    {
        self.name.as_str()
    }

    /// The latitude in decimal degrees, as written in the dataset.
    pub fn latitude(&self) -> (latitude: &str)
        ensures
            latitude@ == self@.latitude,
            is_real_text(latitude@),
    {
        proof {
            use_type_invariant(self);
        }
        self.latitude.as_str()
    }

    /// The longitude in decimal degrees, as written in the dataset.
    pub fn longitude(&self) -> (longitude: &str)
        ensures
            longitude@ == self@.longitude,
            is_real_text(longitude@),
    {
        proof {
            use_type_invariant(self);
        }
        self.longitude.as_str()
    }

    /// The city the airport serves.
    pub fn city(&self) -> (city: &str)
        ensures
            city@ == self@.city,
    {
        self.city.as_str()
    }

    /// The country the airport lies in.
    pub fn country(&self) -> (country: &str)
        ensures
            country@ == self@.country,
    {
        self.country.as_str()
    }

    /// The identifiers of the airports one flight away, in the order of the
    /// routes that name them.
    pub fn connections(&self) -> (connections: &Vec<i32>)
        ensures
            connections@ == self@.connections,
    {
        &self.connections
    }
}

/// The coordinates of the sample airport are real numbers.
proof fn lemma_sample_coordinates()
    ensures
        is_real_text("42.36429977"@),
        is_real_text("-71.00520325"@),
{
    reveal_strlit("42.36429977");
    reveal_strlit("-71.00520325");
    let lat = "42.36429977"@;
    assert(crate::number::unsigned_part(lat) == lat);
    assert(lat.take(11) =~= lat);
    assert(crate::number::is_digit(lat[0]));
    assert(crate::number::is_mantissa_text(lat));
    let lon = "-71.00520325"@;
    let body = crate::number::unsigned_part(lon);
    assert(body == lon.skip(1));
    assert(body.take(11) =~= body);
    assert(crate::number::is_digit(body[0]));
    assert(crate::number::is_mantissa_text(body));
}

} // verus!
