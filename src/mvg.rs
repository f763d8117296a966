//! The transit data model: stations, lines, legs and connections.
//!
//! Instants are whole seconds since the Unix epoch (UTC).

use vstd::prelude::*;

verus! {

/// Something with a human-readable name.
pub trait Place {
    spec fn name_view(&self) -> Seq<char>;

    fn name(&self) -> (r: &str)
        ensures
            r@ == self.name_view(),
    ;
}

/// A station known to the routing service.
#[derive(Debug, Clone)]
pub struct Station {
    pub global_id: String,
    pub name: String,
}

impl PartialEq for Station {
    fn eq(&self, other: &Station) -> (r: bool) {
        self.global_id == other.global_id && self.name == other.name
    }
}

impl vstd::std_specs::cmp::PartialEqSpecImpl for Station {
    open spec fn obeys_eq_spec() -> bool {
        true
    }

    open spec fn eq_spec(&self, other: &Station) -> bool {
        self.global_id@ == other.global_id@ && self.name@ == other.name@
    }
}

impl Place for Station {
    open spec fn name_view(&self) -> Seq<char> {
        self.name@
    }

    fn name(&self) -> (r: &str) {
        self.name.as_str()
    }
}

/// The kind of vehicle that serves a line, or walking.
#[derive(Debug, Clone, Copy, PartialEq, Eq, Structural)]
pub enum TransportType {
    Schiff,
    Ruftaxi,
    Bahn,
    UBahn,
    Tram,
    SBahn,
    Bus,
    RegionalBus,
    Pedestrian,
}

/// The pictogram shown for a transport type.
pub open spec fn icon_of(t: TransportType) -> Seq<char> {
    match t {
        TransportType::Bahn => "🚆"@,
        TransportType::SBahn => "🚆"@,
        TransportType::UBahn => "🚇"@,
        TransportType::Tram => "🚊"@,
        TransportType::Bus => "🚍"@,
        TransportType::RegionalBus => "🚍"@,
        TransportType::Schiff => "🛳"@,
        TransportType::Ruftaxi => "🚖"@,
        TransportType::Pedestrian => "🚶"@,
    }
}

impl TransportType {
    pub fn icon(self) -> (r: &'static str)
        ensures
            r@ == icon_of(self),
    {
        match self {
            TransportType::Bahn => "🚆",
            TransportType::SBahn => "🚆",
            TransportType::UBahn => "🚇",
            TransportType::Tram => "🚊",
            TransportType::Bus => "🚍",
            TransportType::RegionalBus => "🚍",
            TransportType::Schiff => "🛳",
            TransportType::Ruftaxi => "🚖",
            TransportType::Pedestrian => "🚶",
        }
    }
}


/// A place returned by a location search.
#[derive(Debug, Clone)]
pub enum Location {
    Station(Station),
}

/// One item of a location search: a place of a known kind, or a place of
/// a kind this library does not know, with the kind's name.
#[derive(Debug, Clone)]
pub enum LocationOrUnknown {
    Location(Location),
    Unknown(String),
}

/// The known places of a search result, in order.
pub open spec fn known_of(s: Seq<LocationOrUnknown>) -> Seq<Location>
    decreases s.len(),
{
    if s.len() == 0 {
        Seq::empty()
    } else {
        let rest = known_of(s.drop_last());
        match s.last() {
            LocationOrUnknown::Location(l) => rest.push(l),
            LocationOrUnknown::Unknown(_) => rest,
        }
    }
}

/// Keep the places of known kinds, in order, and skip the others.
pub fn known_locations(found: Vec<LocationOrUnknown>) -> (r: Vec<Location>)
    ensures
        r@ == known_of(found@),
{
    let mut r: Vec<Location> = Vec::new();
    let mut rest = found;
    let ghost all = found@;
    while rest.len() > 0
        invariant
            rest@.len() <= all.len(),
            rest@ == all.skip(all.len() - rest@.len()),
            r@ == known_of(all.take(all.len() - rest@.len())),
        decreases rest@.len(),
    {
        let ghost done = all.len() - rest@.len();
        let item = rest.remove(0);
        proof {
            assert(all.take(done + 1).drop_last() =~= all.take(done));
            assert(rest@ =~= all.skip(done + 1));
        }
        match item {
            LocationOrUnknown::Location(l) => r.push(l),
            LocationOrUnknown::Unknown(_) => {},
        }
    }
    proof {
        assert(all.take(all.len() as int) =~= all);
    }
    r
}


/// Why a station name could not be resolved to a single station.
#[derive(Debug, Clone)]
pub enum StationLookupError {
    /// The search found no station for the name.
    NotFound(String),
    /// The search found several stations, none named exactly as asked; the
    /// names of all candidates, in order.
    Ambiguous(String, Vec<String>),
}

/// `i` is the first position of a station named exactly `name`.
pub open spec fn first_named(stations: Seq<Station>, name: Seq<char>, i: int) -> bool {
    &&& 0 <= i < stations.len()
    &&& stations[i].name@ == name
    &&& forall|j: int| 0 <= j < i ==> stations[j].name@ != name
}

/// The names of some stations, in order.
pub open spec fn names_of(stations: Seq<Station>) -> Seq<Seq<char>> {
    stations.map_values(|s: Station| s.name@)
}

/// Decide which station a search for `name` designates: the only one found,
/// or among several the first named exactly `name`.
pub fn pick_unambiguous_station(name: &str, stations: Vec<Station>) -> (r: Result<
    Station,
    StationLookupError,
>)
    ensures
        stations@.len() == 0 ==> (r matches Err(StationLookupError::NotFound(n)) && n@ == name@),
        stations@.len() == 1 ==> r == Ok::<Station, StationLookupError>(stations@[0]),
        stations@.len() > 1 ==> match r {
            Ok(s) => exists|i: int| first_named(stations@, name@, i) && s == stations@[i],
            Err(e) => {
                &&& forall|i: int| 0 <= i < stations@.len() ==> stations@[i].name@ != name@
                &&& e matches StationLookupError::Ambiguous(n, candidates)
                &&& n@ == name@
                &&& candidates@.map_values(|c: String| c@) == names_of(stations@)
            },
        },
{
    let wanted = name.to_owned();
    let mut pool = stations;
    let n = pool.len();
    if n > 1 {
        let mut i: usize = 0;
        while i < n
            invariant
                n == pool@.len(),
                n > 1,
                pool@ == stations@,
                i <= n,
                wanted@ == name@,
                forall|j: int| 0 <= j < i ==> stations@[j].name@ != name@,
            decreases n - i,
        {
            if pool[i].name == wanted {
                                let found = pool.remove(i);
                proof {
                    assert(first_named(stations@, name@, i as int));
                }
                return Ok(found);
            }
            i = i + 1;
        }
        let mut candidates: Vec<String> = Vec::new();
        let mut k: usize = 0;
        while k < n
            invariant
                n == pool@.len(),
                n > 1,
                pool@ == stations@,
                forall|j: int| 0 <= j < n ==> stations@[j].name@ != name@,
                k <= n,
                candidates@.map_values(|c: String| c@) == names_of(stations@.take(k as int)),
            decreases n - k,
        {
            let c = pool[k].name.clone();
            proof {
                assert(names_of(stations@.take(k + 1)) =~= names_of(stations@.take(k as int)).push(
                    c@,
                ));
            }
            candidates.push(c);
            proof {
                assert(candidates@.map_values(|c: String| c@) =~= names_of(
                    stations@.take(k + 1),
                ));
            }
            k = k + 1;
        }
        proof {
            assert(stations@.take(n as int) =~= stations@);
        }
        Err(StationLookupError::Ambiguous(wanted, candidates))
    } else {
        match pool.pop() {
            Some(station) => Ok(station),
            None => Err(StationLookupError::NotFound(wanted)),
        }
    }
}

/// A line: its label (such as "S2" or "947") and its transport type.
#[derive(Debug, Clone)]
pub struct Line {
    pub label: String,
    pub transport_type: TransportType,
}

/// A place along a connection, with the planned instant of departure there.
#[derive(Debug, Clone)]
pub struct ConnectionPartPlace {
    pub name: String,
    pub planned_departure: i64,
}

impl Place for ConnectionPartPlace {
    open spec fn name_view(&self) -> Seq<char> {
        self.name@
    }

    fn name(&self) -> (r: &str) {
        self.name.as_str()
    }
}

/// One leg of a connection: from a place to a place on a line.
#[derive(Debug, Clone)]
pub struct ConnectionPart {
    pub from: ConnectionPartPlace,
    pub to: ConnectionPartPlace,
    pub line: Line,
}

impl ConnectionPart {
    pub fn from(&self) -> (r: &ConnectionPartPlace)
        ensures
            *r == self.from,
    {
        &self.from
    }

    pub fn to(&self) -> (r: &ConnectionPartPlace)
        ensures
            *r == self.to,
    {
        &self.to
    }

    pub fn line_transport_type(&self) -> (r: TransportType)
        ensures
            r == self.line.transport_type,
    {
        self.line.transport_type
    }

    pub fn line_label(&self) -> (r: &str)
        ensures
            r@ == self.line.label@,
    {
        self.line.label.as_str()
    }
}

/// A concrete routing result: its legs, in order of travel.
#[derive(Debug, Clone)]
pub struct Connection {
    pub parts: Vec<ConnectionPart>,
}

impl Connection {
    /// A connection has at least one leg.
    pub open spec fn wf(&self) -> bool {
        self.parts@.len() > 0
    }

    /// The first leg.
    pub open spec fn first_part(&self) -> ConnectionPart {
        self.parts@[0]
    }

    /// The planned departure instant of the first leg.
    pub open spec fn departure_time(&self) -> i64 {
        self.parts@[0].from.planned_departure
    }

    /// The planned arrival instant of the last leg.
    pub open spec fn arrival_time(&self) -> i64 {
        self.parts@.last().to.planned_departure
    }

    pub fn departure(&self) -> (r: &ConnectionPart)
        requires
            self.wf(),
        ensures
            *r == self.first_part(),
    {
        &self.parts[0]
    }

    pub fn planned_departure_time(&self) -> (r: i64)
        requires
            self.wf(),
        ensures
            r == self.departure_time(),
    {
        self.departure().from.planned_departure
    }

    pub fn arrival(&self) -> (r: &ConnectionPart)
        requires
            self.wf(),
        ensures
            *r == self.parts@.last(),
    {
        &self.parts[self.parts.len() - 1]
    }

    pub fn planned_arrival_time(&self) -> (r: i64)
        requires
            self.wf(),
        ensures
            r == self.arrival_time(),
    {
        self.arrival().to.planned_departure
    }
}


/// What a one-line summary says about the first leg of a connection.
#[derive(Debug, Clone)]
pub enum FirstLegSummary {
    /// The connection is a single walk.
    WalkOnly,
    /// The connection is a single ride: its transport type and line label.
    RideOnly(TransportType, String),
    /// The connection starts with a walk to the named place.
    WalkTo(String),
    /// The connection starts with a ride to the named place: the place, the
    /// transport type and the line label.
    RideTo(String, TransportType, String),
}

/// The summary of the first leg of a connection with at least one leg.
pub open spec fn first_leg_summary_of(c: Connection) -> FirstLegSummary {
    let first = c.first_part();
    let kind = first.line.transport_type;
    if c.parts@.len() == 1 {
        if kind == TransportType::Pedestrian {
            FirstLegSummary::WalkOnly
        } else {
            FirstLegSummary::RideOnly(kind, first.line.label)
        }
    } else {
        if kind == TransportType::Pedestrian {
            FirstLegSummary::WalkTo(first.to.name)
        } else {
            FirstLegSummary::RideTo(first.to.name, kind, first.line.label)
        }
    }
}

impl Connection {
    /// Summarise the first leg: a lone walk or ride, or where the first leg
    /// goes and how.
    pub fn first_leg_summary(&self) -> (r: FirstLegSummary)
        requires
            self.wf(),
        ensures
            r == first_leg_summary_of(*self),
    {
        let first = self.departure();
        let kind = first.line_transport_type();
        if self.parts.len() == 1 {
            if kind == TransportType::Pedestrian {
                FirstLegSummary::WalkOnly
            } else {
                FirstLegSummary::RideOnly(kind, first.line.label.clone())
            }
        } else {
            if kind == TransportType::Pedestrian {
                FirstLegSummary::WalkTo(first.to.name.clone())
            } else {
                FirstLegSummary::RideTo(first.to.name.clone(), kind, first.line.label.clone())
            }
        }
    }
}

/// The transport types asked for in a connection search: all but walking.
pub open spec fn searched_transport_types() -> Seq<char> {
    "SCHIFF,RUFTAXI,BAHN,UBAHN,TRAM,SBAHN,BUS,REGIONAL_BUS"@
}

/// The query parameters of a location search for `name`.
pub fn location_query(name: &str) -> (r: Vec<(String, String)>)
    ensures
        r@.len() == 1,
        r@[0].0@ == "query"@,
        r@[0].1@ == name@,
{
    let mut r: Vec<(String, String)> = Vec::new();
    r.push(("query".to_owned(), name.to_owned()));
    r
}

/// The query parameters of a search for connections from `origin` to
/// `destination` that depart from `routing_time` (an RFC 3339 instant) on.
pub fn connection_query(origin: &Station, destination: &Station, routing_time: &str) -> (r: Vec<
    (String, String),
>)
    ensures
        r@.len() == 5,
        r@[0].0@ == "originStationGlobalId"@ && r@[0].1@ == origin.global_id@,
        r@[1].0@ == "destinationStationGlobalId"@ && r@[1].1@ == destination.global_id@,
        r@[2].0@ == "routingDateTime"@ && r@[2].1@ == routing_time@,
        r@[3].0@ == "routingDateTimeIsArrival"@ && r@[3].1@ == "false"@,
        r@[4].0@ == "transportTypes"@ && r@[4].1@ == searched_transport_types(),
{
    let mut r: Vec<(String, String)> = Vec::new();
    r.push(("originStationGlobalId".to_owned(), origin.global_id.clone()));
    r.push(("destinationStationGlobalId".to_owned(), destination.global_id.clone()));
    r.push(("routingDateTime".to_owned(), routing_time.to_owned()));
    r.push(("routingDateTimeIsArrival".to_owned(), "false".to_owned()));
    r.push(
        (
            "transportTypes".to_owned(),
            "SCHIFF,RUFTAXI,BAHN,UBAHN,TRAM,SBAHN,BUS,REGIONAL_BUS".to_owned(),
        ),
    );
    r
}

} // verus!
