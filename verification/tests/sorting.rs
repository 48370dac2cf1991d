use transit_departures::display::FormattedScheduleItem;
use transit_departures::sorting::sort_departures;

fn leaving(at: u64, tag: u64) -> FormattedScheduleItem {
    FormattedScheduleItem {
        departure_time: at,
        scheduled_departure_time: tag,
        is_cancelled: false,
        is_real_time: false,
    }
}

fn pairs(departures: &[FormattedScheduleItem]) -> Vec<(u64, u64)> {
    departures.iter().map(|d| (d.departure_time, d.scheduled_departure_time)).collect()
}

#[test]
fn sorting_nothing_gives_nothing() {
    let mut departures: Vec<FormattedScheduleItem> = Vec::new();
    sort_departures(&mut departures);
    assert!(departures.is_empty());
}

#[test]
fn sorting_one_departure_keeps_it() {
    let mut departures = vec![leaving(5, 0)];
    sort_departures(&mut departures);
    assert_eq!(pairs(&departures), vec![(5, 0)]);
}

#[test]
fn sorting_puts_the_earliest_first() {
    let mut departures = vec![leaving(200, 0), leaving(100, 1), leaving(150, 2)];
    sort_departures(&mut departures);
    assert_eq!(pairs(&departures), vec![(100, 1), (150, 2), (200, 0)]);
}

#[test]
fn sorting_keeps_sorted_departures_as_they_are() {
    let mut departures = vec![leaving(1, 0), leaving(2, 1), leaving(2, 2), leaving(9, 3)];
    sort_departures(&mut departures);
    assert_eq!(pairs(&departures), vec![(1, 0), (2, 1), (2, 2), (9, 3)]);
}

#[test]
fn sorting_reverses_departures_in_falling_order() {
    let mut departures = vec![leaving(4, 0), leaving(3, 1), leaving(2, 2), leaving(1, 3)];
    sort_departures(&mut departures);
    assert_eq!(pairs(&departures), vec![(1, 3), (2, 2), (3, 1), (4, 0)]);
}

#[test]
fn sorting_is_stable() {
    let mut departures = vec![
        leaving(7, 0),
        leaving(3, 1),
        leaving(7, 2),
        leaving(3, 3),
        leaving(0, 4),
        leaving(7, 5),
        leaving(3, 6),
    ];
    sort_departures(&mut departures);
    assert_eq!(
        pairs(&departures),
        vec![(0, 4), (3, 1), (3, 3), (3, 6), (7, 0), (7, 2), (7, 5)]
    );
}

#[test]
fn sorting_handles_the_largest_and_smallest_times() {
    let mut departures =
        vec![leaving(u64::MAX, 0), leaving(0, 1), leaving(u64::MAX, 2), leaving(0, 3)];
    sort_departures(&mut departures);
    assert_eq!(pairs(&departures), vec![(0, 1), (0, 3), (u64::MAX, 0), (u64::MAX, 2)]);
}

#[test]
fn sorting_agrees_with_the_standard_stable_sort() {
    let mut departures: Vec<FormattedScheduleItem> = Vec::new();
    let mut state: u64 = 12345;
    for tag in 0..200u64 {
        state = state.wrapping_mul(6364136223846793005).wrapping_add(1442695040888963407);
        departures.push(leaving((state >> 33) % 17, tag));
    }
    let mut expected = departures.clone();
    expected.sort_by_key(|d| d.departure_time);
    sort_departures(&mut departures);
    assert_eq!(departures, expected);
}
