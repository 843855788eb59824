//! The tables of the 2021 benchmark instances, as read from their JSON form.
use vstd::prelude::*;

verus! {

/// A 2021 benchmark instance.
pub struct Problem {
    pub trains: Vec<Train>,
    pub routes: Vec<Route>,
    pub train_routes: Vec<TrainRoute>,
    pub conflicts: Vec<RouteLengthExclusion>,
}

/// A row of the train table.
pub struct Train {
    pub name: String,
    pub id: String,
    pub is_dummy: bool,
    pub initial_routes: Vec<String>,
    pub final_routes: Vec<String>,
    pub crossing_trains: Vec<String>,
    pub follower_trains: Vec<String>,
    pub is_safe_place_bound: bool,
    pub safe_place_route: String,
}

/// A row of the route table.
pub struct Route {
    pub name: String,
    pub id: String,
    /// Whether more than one train may be on the route at once.
    pub is_multi_train: bool,
    /// The station or track where the end point of the route is placed.
    pub station_or_track_id: String,
    /// Whether the end point of the route belongs to a station.
    pub is_final_point_in_station: bool,
    /// Whether the station route is a siding.
    pub is_siding: bool,
    /// Whether the route cannot be used by any train.
    pub is_unusable: bool,
}

/// A row of the table of routes that a train may take.
pub struct TrainRoute {
    pub train: String,
    pub route: String,
    pub length: u64,
    pub is_potential_safe_place: bool,
    pub is_black_hole: bool,
    pub next_routes: Vec<String>,
}

/// The routes that conflict with `route` when a train of at least `length`
/// occupies it.
pub struct RouteLengthExclusion {
    pub route: String,
    pub length: u64,
    pub conflicts: Vec<String>,
}

} // verus!
