//! The provider's answer to a "nearby routes" query, field for field.
//!
//! These types only hold data. Which of it the departure board reads is said
//! in [`crate::grouping`].

use vstd::prelude::*;

verus! {

/// Makes `serde_json::Value` known to the verifier as a type whose values
/// are carried around and never looked into. Nothing is assumed of it.
#[verifier::external_type_specification]
#[verifier::external_body]
pub struct ExJsonValue(serde_json::Value);

/// A route name cut into the pieces that a badge is drawn from.
#[derive(Debug)]
pub struct DisplayElements {
    /// The pieces of the name; the provider leaves some of them empty.
    pub elements: Vec<Option<String>>,
    pub boxed_text: String,
    pub route_name_redundancy: bool,
}

/// A service alert on a route.
#[derive(Debug)]
pub struct Alert {
    pub created_at: u64,
    pub description: String,
    pub effect: String,
    pub severity: String,
    pub title: String,
}

/// The station that a stop belongs to.
#[derive(Debug)]
pub struct ParentStation {
    pub global_stop_id: String,
    pub location_type: u64,
    pub rt_stop_id: String,
    pub station_code: String,
    pub station_name: String,
}

/// The stop of an itinerary that is nearest to the point asked about.
#[derive(Debug)]
pub struct ClosestStop {
    pub global_stop_id: String,
    pub location_type: u8,
    pub parent_station: Option<ParentStation>,
    pub parent_station_global_stop_id: Option<String>,
    pub route_type: u8,
    pub rt_stop_id: String,
    pub stop_code: String,
    /// Latitude, as the bit pattern of the provider's double-precision
    /// number.
    pub stop_lat: u64,
    /// Longitude, as the bit pattern of the provider's double-precision
    /// number.
    pub stop_lon: u64,
    pub stop_name: String,
    pub wheelchair_boarding: u8,
}

/// One scheduled departure from the closest stop of an itinerary.
///
/// Times are seconds since the Unix epoch.
#[derive(Debug)]
pub struct ScheduleItem {
    /// When the vehicle is expected to leave, real-time data included.
    pub departure_time: u64,
    pub is_cancelled: bool,
    /// Whether `departure_time` comes from real-time data.
    pub is_real_time: bool,
    pub rt_trip_id: String,
    /// When the timetable says the vehicle leaves.
    pub scheduled_departure_time: u64,
    pub trip_search_key: String,
    pub wheelchair_accessible: u8,
}

/// One direction of travel of a route.
#[derive(Debug)]
pub struct Itinerary {
    pub branch_code: String,
    /// Absent when the itinerary has no stop near the point asked about.
    pub closest_stop: Option<ClosestStop>,
    pub direction_headsign: String,
    pub direction_id: u8,
    pub headsign: String,
    pub merged_headsign: String,
    /// The departures from `closest_stop`, in the provider's order.
    pub schedule_items: Vec<ScheduleItem>,
}

/// The vehicle that serves a route.
#[derive(Debug)]
pub struct Vehicle {
    pub image: String,
    pub name: String,
    pub name_inflection: String,
}

/// One transit line near the point asked about.
#[derive(Debug)]
pub struct Route {
    pub alerts: Vec<Alert>,
    pub compact_display_short_name: DisplayElements,
    /// Fare information, which the provider sends without a fixed shape.
    pub fares: Vec<serde_json::Value>,
    pub global_route_id: String,
    pub itineraries: Vec<Itinerary>,
    pub mode_name: String,
    pub real_time_route_id: String,
    pub route_color: String,
    pub route_display_short_name: DisplayElements,
    pub route_image: String,
    pub route_long_name: String,
    pub route_network_id: String,
    pub route_network_name: String,
    pub route_short_name: String,
    pub route_text_color: String,
    pub route_timezone: String,
    pub route_type: u8,
    pub sorting_key: String,
    pub tts_long_name: String,
    pub tts_short_name: String,
    pub vehicle: Vehicle,
}

/// The whole answer: the routes near one point.
#[derive(Debug)]
pub struct RoutesData {
    pub routes: Vec<Route>,
}

} // verus!
