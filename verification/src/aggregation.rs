//! Building the board from a provider answer.

use vstd::prelude::*;
use crate::display::{FormattedRoute, FormattedScheduleItem, GroupKey};
use crate::grouping::{
    aggregated, contribution_of, contributions, contributions_among, departures_for,
    distinct_keys, formatted, formatted_all, group_for, has_key, key_set,
    lemma_departures_for_absent_key, lemma_departures_for_push, lemma_distinct_keys_are_the_keys,
    lemma_distinct_keys_push, lemma_first_index_is_first, lemma_first_index_push,
    lemma_one_row_for_each_key, lemma_rows_are_sorted_stably, merged_row, route_contributions,
    Contribution,
};
use crate::models::{ClosestStop, Itinerary, Route, RoutesData, ScheduleItem};
use crate::sorting::{is_stable_sort_of, sort_departures};

verus! {

/// The departure as the board shows it.
pub fn format_schedule_item(item: &ScheduleItem) -> (shown: FormattedScheduleItem)
    ensures
        shown == formatted(*item),
{
    FormattedScheduleItem {
        departure_time: item.departure_time,
        scheduled_departure_time: item.scheduled_departure_time,
        is_cancelled: item.is_cancelled,
        is_real_time: item.is_real_time,
    }
}

/// Puts the departures of an itinerary behind those that a row has already.
fn append_departures(row: &mut Vec<FormattedScheduleItem>, items: &Vec<ScheduleItem>)
    ensures
        final(row)@ == old(row)@ + formatted_all(items@),
{
    let mut i: usize = 0;
    while i < items.len()
        invariant
            i <= items.len(),
            row@ == old(row)@ + formatted_all(items@.take(i as int)),
        decreases items.len() - i,
    {
        row.push(format_schedule_item(&items[i]));
        proof {
            assert(formatted_all(items@.take(i + 1)) =~= formatted_all(
                items@.take(i as int),
            ).push(formatted(items@[i as int])));
        }
        i += 1;
    }
    proof {
        assert(items@.take(i as int) =~= items@);
    }
}

/// A new row for `route` at `stop` in the direction of `itinerary`, without
/// departures yet.
fn new_row(route: &Route, itinerary: &Itinerary, stop: &ClosestStop) -> (row: FormattedRoute)
    requires
        itinerary.closest_stop == Some(*stop),
    ensures
        contribution_of(*route, *itinerary) is Some,
        row@ == contribution_of(*route, *itinerary).unwrap().row.with_departures(Seq::empty()),
{
    FormattedRoute {
        mode_name: route.mode_name.clone(),
        route_color: Some(route.route_color.clone()),
        route_short_name: route.route_short_name.clone(),
        stop_name: stop.stop_name.clone(),
        stop_id: stop.global_stop_id.clone(),
        stop_lat: stop.stop_lat,
        stop_lon: stop.stop_lon,
        direction_headsign: itinerary.direction_headsign.clone(),
        upcoming_departures: Vec::new(),
    }
}

/// The key that row `g` is for.
spec fn key_of_row(ids: Seq<String>, rows: Seq<FormattedRoute>, g: int) -> GroupKey {
    GroupKey {
        route_id: ids[g]@,
        stop_id: rows[g].stop_id@,
        direction: rows[g].direction_headsign@,
    }
}

/// The key of an itinerary of this route, at this stop, in this direction.
spec fn key_of(route_id: Seq<char>, stop_id: Seq<char>, direction: Seq<char>) -> GroupKey {
    GroupKey { route_id, stop_id, direction }
}

/// The place of the row of a route, stop and direction, if there is one.
fn find_row(
    ids: &Vec<String>,
    rows: &Vec<FormattedRoute>,
    route_id: &String,
    stop_id: &String,
    direction: &String,
) -> (found: Option<usize>)
    requires
        ids.len() == rows.len(),
    ensures
        found matches Some(g) ==> g < rows.len() && key_of_row(ids@, rows@, g as int) == key_of(
            route_id@,
            stop_id@,
            direction@,
        ),
        found is None ==> forall|h: int|
            0 <= h < rows.len() ==> key_of_row(ids@, rows@, h) != key_of(
                route_id@,
                stop_id@,
                direction@,
            ),
{
    let mut g: usize = 0;
    while g < rows.len()
        invariant
            ids.len() == rows.len(),
            g <= rows.len(),
            forall|h: int|
                0 <= h < g ==> key_of_row(ids@, rows@, h) != key_of(
                    route_id@,
                    stop_id@,
                    direction@,
                ),
        decreases rows.len() - g,
    {
        if ids[g] == *route_id && rows[g].stop_id == *stop_id && rows[g].direction_headsign
            == *direction {
            return Some(g);
        }
        g += 1;
    }
    None
}

/// Collects itineraries into the rows of a board.
///
/// The rows are kept in the order in which their keys first came, each with
/// the departures of all itineraries that had its key so far. `finish` sorts
/// the departures and hands the rows out.
pub struct BoardBuilder {
    /// The route of each row. A row itself does not say which route it is
    /// for, only how to show it.
    ids: Vec<String>,
    rows: Vec<FormattedRoute>,
    seen: Ghost<Seq<Contribution>>,
}

impl BoardBuilder {
    /// What the itineraries added so far contribute, in the order in which
    /// they were added.
    pub closed spec fn seen(&self) -> Seq<Contribution> {
        self.seen@
    }

    /// The rows are those of the contributions seen: one for each key, in
    /// the order of first occurrence, with the departures merged.
    pub closed spec fn wf(&self) -> bool {
        let keys = distinct_keys(self.seen@);
        &&& self.ids.len() == keys.len()
        &&& self.rows.len() == keys.len()
        &&& forall|g: int|
            #![trigger self.rows[g]]
            #![trigger self.ids[g]]
            0 <= g < keys.len() ==> self.ids[g]@ == keys[g].route_id && self.rows[g]@
                == merged_row(self.seen@, keys[g])
    }

    /// A builder that has seen nothing.
    pub fn new() -> (builder: BoardBuilder)
        ensures
            builder.wf(),
            builder.seen() == Seq::<Contribution>::empty(),
    {
        BoardBuilder { ids: Vec::new(), rows: Vec::new(), seen: Ghost(Seq::empty()) }
    }

    /// Each row carries the stop and the direction of its key.
    proof fn lemma_rows_carry_their_keys(&self)
        requires
            self.wf(),
        ensures
            forall|g: int|
                0 <= g < self.rows.len() ==> key_of_row(self.ids@, self.rows@, g)
                    == #[trigger] distinct_keys(self.seen@)[g],
    {
        let keys = distinct_keys(self.seen@);
        lemma_distinct_keys_are_the_keys(self.seen@);
        assert forall|g: int| 0 <= g < self.rows.len() implies key_of_row(
            self.ids@,
            self.rows@,
            g,
        ) == #[trigger] keys[g] by {
            assert(keys.contains(keys[g]));
            lemma_first_index_is_first(self.seen@, keys[g]);
            assert(self.rows[g]@ == merged_row(self.seen@, keys[g]));
        }
    }

    /// Adds an itinerary of `route`. One without a closest stop changes
    /// nothing. Otherwise its departures go to the row of its route, stop
    /// and direction, behind those that the row has; if there is no such row
    /// yet, a new one is put behind all the others.
    pub fn add_itinerary(&mut self, route: &Route, itinerary: &Itinerary)
        requires
            old(self).wf(),
        ensures
            final(self).wf(),
            final(self).seen() == (match contribution_of(*route, *itinerary) {
                Some(contribution) => old(self).seen().push(contribution),
                None => old(self).seen(),
            }),
    {
        let stop = match &itinerary.closest_stop {
            Some(stop) => stop,
            None => {
                return;
            },
        };
        let ghost before = self.seen@;
        let ghost keys = distinct_keys(before);
        let ghost added = contribution_of(*route, *itinerary).unwrap();
        let ghost after = before.push(added);
        let ghost old_ids = self.ids@;
        let ghost old_rows = self.rows@;
        proof {
            self.lemma_rows_carry_their_keys();
            lemma_distinct_keys_are_the_keys(before);
            lemma_distinct_keys_push(before, added);
            assert(keys.contains(added.key()) <==> has_key(before, added.key()));
        }
        let found = find_row(
            &self.ids,
            &self.rows,
            &route.global_route_id,
            &stop.global_stop_id,
            &itinerary.direction_headsign,
        );
        let g = match found {
            Some(g) => {
                proof {
                    assert(key_of_row(old_ids, old_rows, g as int) == keys[g as int]);
                }
                g
            },
            None => {
                proof {
                    if keys.contains(added.key()) {
                        let h = choose|h: int| 0 <= h < keys.len() && keys[h] == added.key();
                        assert(key_of_row(old_ids, old_rows, h) == keys[h]);
                    }
                    lemma_departures_for_absent_key(before, added.key());
                }
                self.ids.push(route.global_route_id.clone());
                self.rows.push(new_row(route, itinerary, stop));
                self.rows.len() - 1
            },
        };
        append_departures(&mut self.rows[g].upcoming_departures, &itinerary.schedule_items);
        proof {
            self.seen = Ghost(after);
            let new_keys = distinct_keys(after);
            assert forall|h: int| 0 <= h < new_keys.len() implies self.ids[h]@
                == new_keys[h].route_id && #[trigger] self.rows[h]@ == merged_row(
                after,
                new_keys[h],
            ) by {
                lemma_first_index_push(before, added, new_keys[h]);
                lemma_departures_for_push(before, added, new_keys[h]);
                lemma_first_index_is_first(before, new_keys[h]);
                if h < keys.len() {
                    assert(keys.contains(keys[h]));
                    assert(old_rows[h]@ == merged_row(before, keys[h]));
                    if h != g {
                        assert(self.rows[h] == old_rows[h]);
                    }
                } else {
                    assert(self.rows[h]@.upcoming_departures =~= added.row.upcoming_departures);
                }
            }
        }
    }

    /// Adds the itineraries of `route`, in their order.
    pub fn add_route(&mut self, route: &Route)
        requires
            old(self).wf(),
        ensures
            final(self).wf(),
            final(self).seen() == old(self).seen() + route_contributions(*route),
    {
        let mut i: usize = 0;
        proof {
            assert(self.seen@ + contributions_among(*route, route.itineraries@.take(0))
                =~= self.seen@);
        }
        while i < route.itineraries.len()
            invariant
                i <= route.itineraries.len(),
                self.wf(),
                self.seen@ == old(self).seen@ + contributions_among(
                    *route,
                    route.itineraries@.take(i as int),
                ),
            decreases route.itineraries.len() - i,
        {
            let ghost before = self.seen@;
            self.add_itinerary(route, &route.itineraries[i]);
            proof {
                let sooner = route.itineraries@.take(i as int);
                let later = route.itineraries@.take(i + 1);
                assert(later.drop_last() =~= sooner);
                match contribution_of(*route, route.itineraries@[i as int]) {
                    Some(contribution) => {
                        assert(before.push(contribution) =~= old(self).seen@ + (contributions_among(
                            *route,
                            sooner,
                        ) + seq![contribution]));
                    },
                    None => {},
                }
            }
            i += 1;
        }
        proof {
            assert(route.itineraries@.take(i as int) =~= route.itineraries@);
        }
    }

    /// Sorts the departures of each row and hands the rows out.
    pub fn finish(self) -> (rows: Vec<FormattedRoute>)
        requires
            self.wf(),
        ensures
            rows.deep_view() == aggregated(self.seen()),
    {
        let ghost keys = distinct_keys(self.seen@);
        let ghost seen = self.seen@;
        let mut rows = self.rows;
        let mut g: usize = 0;
        while g < rows.len()
            invariant
                g <= rows.len(),
                rows.len() == keys.len(),
                forall|h: int| 0 <= h < g ==> #[trigger] rows[h]@ == group_for(seen, keys[h]),
                forall|h: int|
                    g <= h < rows.len() ==> #[trigger] rows[h]@ == merged_row(seen, keys[h]),
            decreases rows.len() - g,
        {
            let ghost unsorted = rows@;
            sort_departures(&mut rows[g].upcoming_departures);
            proof {
                assert(unsorted[g as int]@ == merged_row(seen, keys[g as int]));
                assert forall|h: int| 0 <= h < rows.len() && h != g implies rows[h]
                    == unsorted[h] by {}
            }
            g += 1;
        }
        proof {
            assert(rows.deep_view() =~= aggregated(seen));
        }
        rows
    }
}

/// The departure board for a provider answer.
///
/// Every itinerary that names a closest stop is shown; one that names none
/// is left out. Itineraries of the same route at the same stop in the same
/// direction share one row, which has the display attributes of the first
/// of them and the departures of all of them. The rows come in the order in
/// which the answer first mentions their route, stop and direction. Within a
/// row the departures are sorted by departure time, those that leave at the
/// same time in the order of the answer.
pub fn aggregate(data: &RoutesData) -> (rows: Vec<FormattedRoute>)
    ensures
        rows.deep_view() == aggregated(contributions(data.routes@)),
        rows.len() == key_set(contributions(data.routes@)).len(),
        forall|g: int|
            0 <= g < rows.len() ==> is_stable_sort_of(
                (#[trigger] rows[g]).upcoming_departures@,
                departures_for(
                    contributions(data.routes@),
                    distinct_keys(contributions(data.routes@))[g],
                ),
            ),
{
    let mut builder = BoardBuilder::new();
    let mut r: usize = 0;
    while r < data.routes.len()
        invariant
            r <= data.routes.len(),
            builder.wf(),
            builder.seen() == contributions(data.routes@.take(r as int)),
        decreases data.routes.len() - r,
    {
        builder.add_route(&data.routes[r]);
        proof {
            assert(data.routes@.take(r + 1).drop_last() =~= data.routes@.take(r as int));
        }
        r += 1;
    }
    proof {
        assert(data.routes@.take(r as int) =~= data.routes@);
    }
    let rows = builder.finish();
    proof {
        let contribs = contributions(data.routes@);
        lemma_one_row_for_each_key(contribs);
        assert forall|g: int| 0 <= g < rows.len() implies is_stable_sort_of(
            (#[trigger] rows[g]).upcoming_departures@,
            departures_for(contribs, distinct_keys(contribs)[g]),
        ) by {
            assert(rows[g]@ == rows.deep_view()[g]);
            lemma_rows_are_sorted_stably(contribs, distinct_keys(contribs)[g]);
        }
    }
    rows
}

/// Aggregating the same answer twice gives the same board: whatever
/// `aggregate` returns for an answer has one and the same value.
pub proof fn lemma_aggregate_is_repeatable(
    data: RoutesData,
    first: Vec<FormattedRoute>,
    second: Vec<FormattedRoute>,
)
    requires
        call_ensures(aggregate, (&data,), first),
        call_ensures(aggregate, (&data,), second),
    ensures
        first.deep_view() == second.deep_view(),
{
}

} // verus!
