//! The rows of a departure board, and the mathematical values that the
//! contracts of this crate use to speak about them.

use vstd::prelude::*;

verus! {

/// One departure as it is shown on the board.
///
/// Times are seconds since the Unix epoch, exactly as the provider sent them.
#[derive(Debug, Clone, Copy, PartialEq, Eq)]
pub struct FormattedScheduleItem {
    /// When the vehicle is expected to leave, real-time data included.
    pub departure_time: u64,
    /// When the timetable says the vehicle leaves.
    pub scheduled_departure_time: u64,
    pub is_cancelled: bool,
    /// Whether `departure_time` comes from real-time data.
    pub is_real_time: bool,
}

/// One row of the board: a route at a stop in one direction, with its
/// upcoming departures.
#[derive(Debug, PartialEq, Eq)]
pub struct FormattedRoute {
    pub mode_name: String,
    pub route_color: Option<String>,
    pub route_short_name: String,
    pub stop_name: String,
    pub stop_id: String,
    /// Latitude of the stop, as the bit pattern of the provider's
    /// double-precision number.
    pub stop_lat: u64,
    /// Longitude of the stop, as the bit pattern of the provider's
    /// double-precision number.
    pub stop_lon: u64,
    pub direction_headsign: String,
    pub upcoming_departures: Vec<FormattedScheduleItem>,
}

/// What identifies a row: the route, the stop and the direction of travel.
/// Itineraries with the same key are shown as one row.
pub struct GroupKey {
    pub route_id: Seq<char>,
    pub stop_id: Seq<char>,
    pub direction: Seq<char>,
}

/// The mathematical value of a [`FormattedRoute`].
pub struct DisplayGroup {
    pub mode_name: Seq<char>,
    pub route_color: Option<Seq<char>>,
    pub route_short_name: Seq<char>,
    pub stop_name: Seq<char>,
    pub stop_id: Seq<char>,
    pub stop_lat: u64,
    pub stop_lon: u64,
    pub direction_headsign: Seq<char>,
    pub upcoming_departures: Seq<FormattedScheduleItem>,
}

impl DisplayGroup {
    /// The same row with `departures` in place of its own.
    pub open spec fn with_departures(self, departures: Seq<FormattedScheduleItem>) -> DisplayGroup {
        DisplayGroup { upcoming_departures: departures, ..self }
    }
}

impl View for FormattedRoute {
    type V = DisplayGroup;

    open spec fn view(&self) -> DisplayGroup {
        DisplayGroup {
            mode_name: self.mode_name@,
            route_color: match self.route_color {
                Some(color) => Some(color@),
                None => None,
            },
            route_short_name: self.route_short_name@,
            stop_name: self.stop_name@,
            stop_id: self.stop_id@,
            stop_lat: self.stop_lat,
            stop_lon: self.stop_lon,
            direction_headsign: self.direction_headsign@,
            upcoming_departures: self.upcoming_departures@,
        }
    }
}

impl DeepView for FormattedRoute {
    type V = DisplayGroup;

    open spec fn deep_view(&self) -> DisplayGroup {
        self@
    }
}

} // verus!
