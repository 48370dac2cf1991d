use transit_departures::aggregation::{aggregate, format_schedule_item, BoardBuilder};
use transit_departures::display::{FormattedRoute, FormattedScheduleItem};
use transit_departures::models::{
    ClosestStop, DisplayElements, Itinerary, Route, RoutesData, ScheduleItem, Vehicle,
};

fn name_pieces(text: &str) -> DisplayElements {
    DisplayElements {
        elements: vec![None, Some(text.to_string()), None],
        boxed_text: String::new(),
        route_name_redundancy: false,
    }
}

fn departure(at: u64) -> ScheduleItem {
    ScheduleItem {
        departure_time: at,
        is_cancelled: false,
        is_real_time: false,
        rt_trip_id: String::new(),
        scheduled_departure_time: at,
        trip_search_key: String::new(),
        wheelchair_accessible: 0,
    }
}

fn stop(id: &str, name: &str) -> ClosestStop {
    ClosestStop {
        global_stop_id: id.to_string(),
        location_type: 0,
        parent_station: None,
        parent_station_global_stop_id: None,
        route_type: 3,
        rt_stop_id: String::new(),
        stop_code: String::new(),
        stop_lat: 45.5f64.to_bits(),
        stop_lon: (-73.5f64).to_bits(),
        stop_name: name.to_string(),
        wheelchair_boarding: 0,
    }
}

fn itinerary(direction: &str, at: Option<ClosestStop>, times: &[u64]) -> Itinerary {
    Itinerary {
        branch_code: String::new(),
        closest_stop: at,
        direction_headsign: direction.to_string(),
        direction_id: 0,
        headsign: direction.to_string(),
        merged_headsign: direction.to_string(),
        schedule_items: times.iter().map(|at| departure(*at)).collect(),
    }
}

fn route(id: &str, short_name: &str, itineraries: Vec<Itinerary>) -> Route {
    Route {
        alerts: Vec::new(),
        compact_display_short_name: name_pieces(short_name),
        fares: Vec::new(),
        global_route_id: id.to_string(),
        itineraries,
        mode_name: "Bus".to_string(),
        real_time_route_id: id.to_string(),
        route_color: "00a0e1".to_string(),
        route_display_short_name: name_pieces(short_name),
        route_image: String::new(),
        route_long_name: String::new(),
        route_network_id: String::new(),
        route_network_name: String::new(),
        route_short_name: short_name.to_string(),
        route_text_color: "ffffff".to_string(),
        route_timezone: "America/Montreal".to_string(),
        route_type: 3,
        sorting_key: String::new(),
        tts_long_name: String::new(),
        tts_short_name: String::new(),
        vehicle: Vehicle {
            image: String::new(),
            name: "bus".to_string(),
            name_inflection: String::new(),
        },
    }
}

fn times(row: &FormattedRoute) -> Vec<u64> {
    row.upcoming_departures.iter().map(|d| d.departure_time).collect()
}

fn labels(rows: &[FormattedRoute]) -> Vec<(String, String, String)> {
    rows.iter()
        .map(|row| {
            (row.route_short_name.clone(), row.stop_id.clone(), row.direction_headsign.clone())
        })
        .collect()
}

fn label(short_name: &str, stop_id: &str, direction: &str) -> (String, String, String) {
    (short_name.to_string(), stop_id.to_string(), direction.to_string())
}

#[test]
fn two_itineraries_with_one_key_share_a_sorted_row() {
    let data = RoutesData {
        routes: vec![route(
            "R1",
            "Bus 42",
            vec![
                itinerary("Downtown", Some(stop("S1", "Main St")), &[200, 100]),
                itinerary("Downtown", Some(stop("S1", "Main St")), &[150]),
            ],
        )],
    };
    let rows = aggregate(&data);
    assert_eq!(rows.len(), 1);
    assert_eq!(rows[0].route_short_name, "Bus 42");
    assert_eq!(rows[0].stop_id, "S1");
    assert_eq!(rows[0].direction_headsign, "Downtown");
    assert_eq!(times(&rows[0]), vec![100, 150, 200]);
}

#[test]
fn an_itinerary_without_a_closest_stop_gives_no_row() {
    let data = RoutesData {
        routes: vec![route("R1", "42", vec![itinerary("Downtown", None, &[100])])],
    };
    assert!(aggregate(&data).is_empty());
}

#[test]
fn no_routes_give_no_rows() {
    let data = RoutesData { routes: Vec::new() };
    assert!(aggregate(&data).is_empty());
}

#[test]
fn a_route_without_itineraries_gives_no_row() {
    let data = RoutesData { routes: vec![route("R1", "42", Vec::new())] };
    assert!(aggregate(&data).is_empty());
}

#[test]
fn an_empty_schedule_gives_a_row_without_departures() {
    let data = RoutesData {
        routes: vec![route(
            "R1",
            "42",
            vec![itinerary("Downtown", Some(stop("S1", "Main St")), &[])],
        )],
    };
    let rows = aggregate(&data);
    assert_eq!(rows.len(), 1);
    assert_eq!(rows[0].stop_name, "Main St");
    assert!(rows[0].upcoming_departures.is_empty());
}

#[test]
fn there_is_one_row_for_each_route_stop_and_direction() {
    let data = RoutesData {
        routes: vec![
            route(
                "R1",
                "42",
                vec![
                    itinerary("North", Some(stop("S1", "Main St")), &[10]),
                    itinerary("South", Some(stop("S1", "Main St")), &[20]),
                    itinerary("North", Some(stop("S2", "Oak Ave")), &[30]),
                    itinerary("North", None, &[40]),
                    itinerary("North", Some(stop("S1", "Main St")), &[5]),
                ],
            ),
            route(
                "R2",
                "7",
                vec![
                    itinerary("North", Some(stop("S1", "Main St")), &[50]),
                    itinerary("South", None, &[60]),
                ],
            ),
        ],
    };
    let rows = aggregate(&data);
    assert_eq!(
        labels(&rows),
        vec![
            label("42", "S1", "North"),
            label("42", "S1", "South"),
            label("42", "S2", "North"),
            label("7", "S1", "North"),
        ]
    );
    assert_eq!(times(&rows[0]), vec![5, 10]);
    assert_eq!(times(&rows[1]), vec![20]);
    assert_eq!(times(&rows[2]), vec![30]);
    assert_eq!(times(&rows[3]), vec![50]);
}

#[test]
fn rows_come_in_the_order_of_first_mention() {
    let data = RoutesData {
        routes: vec![
            route("R9", "90", vec![itinerary("West", Some(stop("S9", "Zoo")), &[3])]),
            route(
                "R1",
                "10",
                vec![
                    itinerary("East", Some(stop("S5", "Docks")), &[2]),
                    itinerary("East", Some(stop("S1", "Abbey")), &[1]),
                ],
            ),
            route("R9", "90", vec![itinerary("West", Some(stop("S9", "Zoo")), &[0])]),
        ],
    };
    let rows = aggregate(&data);
    assert_eq!(
        labels(&rows),
        vec![label("90", "S9", "West"), label("10", "S5", "East"), label("10", "S1", "East")]
    );
    assert_eq!(times(&rows[0]), vec![0, 3]);
}

#[test]
fn routes_are_told_apart_by_their_id_not_by_their_name() {
    let data = RoutesData {
        routes: vec![
            route("R1", "42", vec![itinerary("North", Some(stop("S1", "Main St")), &[10])]),
            route("R2", "42", vec![itinerary("North", Some(stop("S1", "Main St")), &[20])]),
        ],
    };
    let rows = aggregate(&data);
    assert_eq!(rows.len(), 2);
    assert_eq!(times(&rows[0]), vec![10]);
    assert_eq!(times(&rows[1]), vec![20]);
}

#[test]
fn a_row_shows_what_the_first_itinerary_with_its_key_says() {
    let mut first_stop = stop("S1", "Main St");
    first_stop.stop_lat = 1.25f64.to_bits();
    first_stop.stop_lon = (-2.5f64).to_bits();
    let mut later_stop = stop("S1", "Main Street (renamed)");
    later_stop.stop_lat = 9.0f64.to_bits();
    let data = RoutesData {
        routes: vec![route(
            "R1",
            "42",
            vec![
                itinerary("North", Some(first_stop), &[10]),
                itinerary("North", Some(later_stop), &[20]),
            ],
        )],
    };
    let rows = aggregate(&data);
    assert_eq!(rows.len(), 1);
    assert_eq!(rows[0].mode_name, "Bus");
    assert_eq!(rows[0].route_color, Some("00a0e1".to_string()));
    assert_eq!(rows[0].route_short_name, "42");
    assert_eq!(rows[0].stop_name, "Main St");
    assert_eq!(rows[0].stop_id, "S1");
    assert_eq!(f64::from_bits(rows[0].stop_lat), 1.25);
    assert_eq!(f64::from_bits(rows[0].stop_lon), -2.5);
    assert_eq!(rows[0].direction_headsign, "North");
    assert_eq!(times(&rows[0]), vec![10, 20]);
}

#[test]
fn departures_are_copied_unchanged() {
    let mut it = itinerary("North", Some(stop("S1", "Main St")), &[]);
    it.schedule_items.push(ScheduleItem {
        departure_time: 1_700_000_120,
        is_cancelled: true,
        is_real_time: false,
        rt_trip_id: "trip-1".to_string(),
        scheduled_departure_time: 1_700_000_000,
        trip_search_key: "key".to_string(),
        wheelchair_accessible: 1,
    });
    it.schedule_items.push(ScheduleItem {
        departure_time: u64::MAX,
        is_cancelled: false,
        is_real_time: true,
        rt_trip_id: "trip-2".to_string(),
        scheduled_departure_time: 0,
        trip_search_key: "key".to_string(),
        wheelchair_accessible: 2,
    });
    let data = RoutesData { routes: vec![route("R1", "42", vec![it])] };
    let rows = aggregate(&data);
    assert_eq!(
        rows[0].upcoming_departures,
        vec![
            FormattedScheduleItem {
                departure_time: 1_700_000_120,
                scheduled_departure_time: 1_700_000_000,
                is_cancelled: true,
                is_real_time: false,
            },
            FormattedScheduleItem {
                departure_time: u64::MAX,
                scheduled_departure_time: 0,
                is_cancelled: false,
                is_real_time: true,
            },
        ]
    );
}

#[test]
fn departures_at_the_same_time_keep_the_order_of_the_answer() {
    let mut first = itinerary("North", Some(stop("S1", "Main St")), &[300, 100, 300]);
    first.schedule_items[0].scheduled_departure_time = 1;
    first.schedule_items[1].scheduled_departure_time = 2;
    first.schedule_items[2].scheduled_departure_time = 3;
    let mut second = itinerary("North", Some(stop("S1", "Main St")), &[100, 300]);
    second.schedule_items[0].scheduled_departure_time = 4;
    second.schedule_items[1].scheduled_departure_time = 5;
    let data = RoutesData { routes: vec![route("R1", "42", vec![first, second])] };
    let rows = aggregate(&data);
    assert_eq!(rows.len(), 1);
    assert_eq!(times(&rows[0]), vec![100, 100, 300, 300, 300]);
    let scheduled: Vec<u64> =
        rows[0].upcoming_departures.iter().map(|d| d.scheduled_departure_time).collect();
    assert_eq!(scheduled, vec![2, 4, 1, 3, 5]);
}

#[test]
fn aggregating_twice_gives_the_same_board() {
    let data = RoutesData {
        routes: vec![
            route(
                "R1",
                "42",
                vec![
                    itinerary("North", Some(stop("S1", "Main St")), &[30, 10, 20]),
                    itinerary("South", Some(stop("S2", "Oak Ave")), &[5]),
                ],
            ),
            route("R2", "7", vec![itinerary("North", Some(stop("S1", "Main St")), &[15, 15])]),
        ],
    };
    let once = aggregate(&data);
    let again = aggregate(&data);
    assert_eq!(once, again);
    assert_eq!(once.len(), 3);
}

#[test]
fn the_builder_makes_the_same_board_step_by_step() {
    let data = RoutesData {
        routes: vec![
            route(
                "R1",
                "42",
                vec![
                    itinerary("North", Some(stop("S1", "Main St")), &[30, 10]),
                    itinerary("North", None, &[1]),
                    itinerary("North", Some(stop("S1", "Main St")), &[20]),
                ],
            ),
            route("R2", "7", vec![itinerary("North", Some(stop("S1", "Main St")), &[15])]),
        ],
    };
    let mut by_route = BoardBuilder::new();
    for r in &data.routes {
        by_route.add_route(r);
    }
    let mut by_itinerary = BoardBuilder::new();
    for r in &data.routes {
        for it in &r.itineraries {
            by_itinerary.add_itinerary(r, it);
        }
    }
    let expected = aggregate(&data);
    assert_eq!(by_route.finish(), expected);
    assert_eq!(by_itinerary.finish(), expected);
    assert_eq!(times(&expected[0]), vec![10, 20, 30]);
    assert_eq!(times(&expected[1]), vec![15]);
}

#[test]
fn a_new_builder_finishes_with_an_empty_board() {
    assert!(BoardBuilder::new().finish().is_empty());
}

#[test]
fn a_schedule_item_is_shown_with_its_four_values() {
    let item = ScheduleItem {
        departure_time: 77,
        is_cancelled: true,
        is_real_time: true,
        rt_trip_id: "t".to_string(),
        scheduled_departure_time: 70,
        trip_search_key: "k".to_string(),
        wheelchair_accessible: 1,
    };
    assert_eq!(
        format_schedule_item(&item),
        FormattedScheduleItem {
            departure_time: 77,
            scheduled_departure_time: 70,
            is_cancelled: true,
            is_real_time: true,
        }
    );
}
