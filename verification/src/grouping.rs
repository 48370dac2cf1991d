//! What the board shows for a provider answer, as mathematics.
//!
//! An itinerary that names a closest stop makes a [`Contribution`]: a row of
//! its own. The board merges contributions with the same [`GroupKey`] into
//! one row, keeps the rows in the order in which their keys first appear, and
//! sorts each row's departures. [`aggregated`] is that board.

use vstd::prelude::*;
use crate::display::{DisplayGroup, FormattedScheduleItem, GroupKey};
use crate::models::{Itinerary, Route, ScheduleItem};
use crate::sorting::{is_stable_sort_of, lemma_stable_sort_is_stable, stable_sort};

verus! {

/// What one itinerary with a closest stop adds to the board.
pub struct Contribution {
    /// The route that the itinerary belongs to.
    pub route_id: Seq<char>,
    /// The row that the itinerary would make alone, with its departures in
    /// the provider's order.
    pub row: DisplayGroup,
}

impl Contribution {
    /// The route, stop and direction that the contribution is for.
    pub open spec fn key(self) -> GroupKey {
        GroupKey {
            route_id: self.route_id,
            stop_id: self.row.stop_id,
            direction: self.row.direction_headsign,
        }
    }
}

/// A departure as the board shows it: the four values copied unchanged.
pub open spec fn formatted(item: ScheduleItem) -> FormattedScheduleItem {
    FormattedScheduleItem {
        departure_time: item.departure_time,
        scheduled_departure_time: item.scheduled_departure_time,
        is_cancelled: item.is_cancelled,
        is_real_time: item.is_real_time,
    }
}

/// The departures of an itinerary as the board shows them, in the same order.
pub open spec fn formatted_all(items: Seq<ScheduleItem>) -> Seq<FormattedScheduleItem> {
    items.map_values(|item: ScheduleItem| formatted(item))
}

/// What an itinerary of `route` adds to the board: nothing if it has no
/// closest stop, else a row for the route at that stop in its direction.
pub open spec fn contribution_of(route: Route, itinerary: Itinerary) -> Option<Contribution> {
    match itinerary.closest_stop {
        Some(stop) => Some(
            Contribution {
                route_id: route.global_route_id@,
                row: DisplayGroup {
                    mode_name: route.mode_name@,
                    route_color: Some(route.route_color@),
                    route_short_name: route.route_short_name@,
                    stop_name: stop.stop_name@,
                    stop_id: stop.global_stop_id@,
                    stop_lat: stop.stop_lat,
                    stop_lon: stop.stop_lon,
                    direction_headsign: itinerary.direction_headsign@,
                    upcoming_departures: formatted_all(itinerary.schedule_items@),
                },
            },
        ),
        None => None,
    }
}

/// The contributions of some itineraries of `route`, in their order.
pub open spec fn contributions_among(route: Route, itineraries: Seq<Itinerary>) -> Seq<
    Contribution,
> {
    itineraries.filter_map(|itinerary: Itinerary| contribution_of(route, itinerary))
}

/// The contributions of the itineraries of one route, in their order.
pub open spec fn route_contributions(route: Route) -> Seq<Contribution> {
    contributions_among(route, route.itineraries@)
}

/// The contributions of all itineraries of all routes, in the order of the
/// routes and, within a route, of its itineraries.
pub open spec fn contributions(routes: Seq<Route>) -> Seq<Contribution>
    decreases routes.len(),
{
    if routes.len() == 0 {
        Seq::empty()
    } else {
        contributions(routes.drop_last()) + route_contributions(routes.last())
    }
}

/// Some contribution has this key.
pub open spec fn has_key(contribs: Seq<Contribution>, key: GroupKey) -> bool {
    exists|i: int| 0 <= i < contribs.len() && #[trigger] contribs[i].key() == key
}

/// The keys that occur among the contributions.
pub open spec fn key_set(contribs: Seq<Contribution>) -> Set<GroupKey> {
    Set::new(|key: GroupKey| has_key(contribs, key))
}

/// The number of contributions before the first one with this key; the
/// number of all of them if none has it.
pub open spec fn first_index(contribs: Seq<Contribution>, key: GroupKey) -> int
    decreases contribs.len(),
{
    if contribs.len() == 0 || contribs.first().key() == key {
        0
    } else {
        1 + first_index(contribs.drop_first(), key)
    }
}

/// The keys of the contributions, each once, in the order in which they
/// first occur.
pub open spec fn distinct_keys(contribs: Seq<Contribution>) -> Seq<GroupKey>
    decreases contribs.len(),
{
    if contribs.len() == 0 {
        Seq::empty()
    } else {
        let before = distinct_keys(contribs.drop_last());
        if before.contains(contribs.last().key()) {
            before
        } else {
            before.push(contribs.last().key())
        }
    }
}

/// The departures of all contributions with this key, one contribution after
/// the other in their order, each contribution's departures in its own order.
pub open spec fn departures_for(contribs: Seq<Contribution>, key: GroupKey) -> Seq<
    FormattedScheduleItem,
>
    decreases contribs.len(),
{
    if contribs.len() == 0 {
        Seq::empty()
    } else if contribs.last().key() == key {
        departures_for(contribs.drop_last(), key) + contribs.last().row.upcoming_departures
    } else {
        departures_for(contribs.drop_last(), key)
    }
}

/// The row for `key` before its departures are sorted: the attributes of the
/// first contribution with that key, and the departures of all of them.
pub open spec fn merged_row(contribs: Seq<Contribution>, key: GroupKey) -> DisplayGroup {
    contribs[first_index(contribs, key)].row.with_departures(departures_for(contribs, key))
}

/// The row that the board shows for `key`.
pub open spec fn group_for(contribs: Seq<Contribution>, key: GroupKey) -> DisplayGroup {
    contribs[first_index(contribs, key)].row.with_departures(
        stable_sort(departures_for(contribs, key)),
    )
}

/// The board: one row for each key, in the order in which the keys first
/// occur.
pub open spec fn aggregated(contribs: Seq<Contribution>) -> Seq<DisplayGroup> {
    distinct_keys(contribs).map_values(|key: GroupKey| group_for(contribs, key))
}

/// A key occurs after one more contribution if it occurred before or is the
/// key of the new one.
pub proof fn lemma_has_key_push(contribs: Seq<Contribution>, last: Contribution, key: GroupKey)
    ensures
        has_key(contribs.push(last), key) <==> has_key(contribs, key) || last.key() == key,
{
    let longer = contribs.push(last);
    if has_key(contribs, key) {
        let i = choose|i: int| 0 <= i < contribs.len() && #[trigger] contribs[i].key() == key;
        assert(longer[i].key() == key);
    }
    if last.key() == key {
        assert(longer[contribs.len() as int].key() == key);
    }
    if has_key(longer, key) {
        let i = choose|i: int| 0 <= i < longer.len() && #[trigger] longer[i].key() == key;
        if i < contribs.len() {
            assert(contribs[i].key() == key);
        }
    }
}

/// `first_index` is the place of the first contribution with the key.
pub proof fn lemma_first_index_is_first(contribs: Seq<Contribution>, key: GroupKey)
    ensures
        0 <= first_index(contribs, key) <= contribs.len(),
        forall|j: int| 0 <= j < first_index(contribs, key) ==> #[trigger] contribs[j].key() != key,
        has_key(contribs, key) <==> first_index(contribs, key) < contribs.len(),
        has_key(contribs, key) ==> contribs[first_index(contribs, key)].key() == key,
    decreases contribs.len(),
{
    if contribs.len() == 0 {
    } else if contribs.first().key() == key {
        assert(contribs[0].key() == key);
    } else {
        let rest = contribs.drop_first();
        lemma_first_index_is_first(rest, key);
        assert forall|j: int| 0 <= j < first_index(contribs, key) implies #[trigger] contribs[j]
            .key() != key by {
            if j > 0 {
                assert(rest[j - 1].key() != key);
            }
        }
        if has_key(contribs, key) {
            let i = choose|i: int| 0 <= i < contribs.len() && #[trigger] contribs[i].key() == key;
            assert(rest[i - 1].key() == key);
        }
        if has_key(rest, key) {
            let i = choose|i: int| 0 <= i < rest.len() && #[trigger] rest[i].key() == key;
            assert(contribs[i + 1].key() == key);
            assert(contribs[first_index(contribs, key)] == rest[first_index(rest, key)]);
        }
    }
}

/// A later contribution does not change which one is the first with a key
/// that occurred already; a contribution with a new key is the first one
/// with it.
pub proof fn lemma_first_index_push(contribs: Seq<Contribution>, last: Contribution, key: GroupKey)
    ensures
        has_key(contribs, key) ==> first_index(contribs.push(last), key) == first_index(
            contribs,
            key,
        ),
        !has_key(contribs, key) && last.key() == key ==> first_index(contribs.push(last), key)
            == contribs.len(),
{
    let longer = contribs.push(last);
    lemma_first_index_is_first(contribs, key);
    lemma_first_index_is_first(longer, key);
    lemma_has_key_push(contribs, last, key);
    let i = first_index(contribs, key);
    let j = first_index(longer, key);
    if has_key(contribs, key) {
        assert(longer[i].key() == key);
        if j < i {
            assert(contribs[j].key() != key);
            assert(longer[j] == contribs[j]);
        }
    } else if last.key() == key {
        if j < contribs.len() {
            assert(contribs[j].key() == key);
        }
    }
}

/// `distinct_keys` lists each key that occurs, once.
pub proof fn lemma_distinct_keys_are_the_keys(contribs: Seq<Contribution>)
    ensures
        distinct_keys(contribs).no_duplicates(),
        forall|key: GroupKey| #[trigger]
            distinct_keys(contribs).contains(key) <==> has_key(contribs, key),
    decreases contribs.len(),
{
    if contribs.len() > 0 {
        let before = contribs.drop_last();
        let last = contribs.last();
        lemma_distinct_keys_are_the_keys(before);
        assert(before.push(last) =~= contribs);
        let keys = distinct_keys(contribs);
        assert forall|key: GroupKey| #[trigger] keys.contains(key) <==> has_key(contribs, key) by {
            lemma_has_key_push(before, last, key);
            assert(distinct_keys(before).contains(key) <==> has_key(before, key));
            if distinct_keys(before).contains(last.key()) {
            } else {
                if distinct_keys(before).contains(key) {
                    let i = choose|i: int|
                        0 <= i < distinct_keys(before).len() && distinct_keys(before)[i] == key;
                    assert(keys[i] == key);
                }
                if last.key() == key {
                    assert(keys[keys.len() - 1] == key);
                }
            }
        }
    }
}

/// How one more contribution changes the list of keys: a key that occurred
/// already changes nothing, a new key goes to the end.
pub proof fn lemma_distinct_keys_push(contribs: Seq<Contribution>, last: Contribution)
    ensures
        distinct_keys(contribs.push(last)) == (if has_key(contribs, last.key()) {
            distinct_keys(contribs)
        } else {
            distinct_keys(contribs).push(last.key())
        }),
{
    lemma_distinct_keys_are_the_keys(contribs);
    assert(contribs.push(last).drop_last() =~= contribs);
    assert(distinct_keys(contribs).contains(last.key()) <==> has_key(contribs, last.key()));
}

/// The keys are listed in the order in which each first occurs.
pub proof fn lemma_distinct_keys_in_order_of_first_occurrence(
    contribs: Seq<Contribution>,
    g: int,
    h: int,
)
    requires
        0 <= g < h < distinct_keys(contribs).len(),
    ensures
        first_index(contribs, distinct_keys(contribs)[g]) < first_index(
            contribs,
            distinct_keys(contribs)[h],
        ),
    decreases contribs.len(),
{
    let before = contribs.drop_last();
    let last = contribs.last();
    assert(before.push(last) =~= contribs);
    let keys = distinct_keys(contribs);
    lemma_distinct_keys_are_the_keys(before);
    lemma_distinct_keys_push(before, last);
    assert(distinct_keys(before).contains(keys[g]));
    assert(has_key(before, keys[g]));
    lemma_first_index_push(before, last, keys[g]);
    lemma_first_index_is_first(before, keys[g]);
    if h < distinct_keys(before).len() {
        assert(distinct_keys(before).contains(keys[h]));
        assert(has_key(before, keys[h]));
        lemma_first_index_push(before, last, keys[h]);
        lemma_distinct_keys_in_order_of_first_occurrence(before, g, h);
    } else {
        lemma_first_index_push(before, last, keys[h]);
    }
}

/// There are as many rows as there are keys among the contributions.
pub proof fn lemma_one_row_for_each_key(contribs: Seq<Contribution>)
    ensures
        key_set(contribs).finite(),
        distinct_keys(contribs).len() == key_set(contribs).len(),
        aggregated(contribs).len() == key_set(contribs).len(),
{
    let keys = distinct_keys(contribs);
    lemma_distinct_keys_are_the_keys(contribs);
    keys.unique_seq_to_set();
    assert(keys.to_set() =~= key_set(contribs)) by {
        assert forall|key: GroupKey| keys.to_set().contains(key) == key_set(contribs).contains(
            key,
        ) by {
            assert(keys.contains(key) <==> has_key(contribs, key));
        }
    }
}

/// How one more contribution changes the departures for a key: its own
/// departures go behind those that were there if it has the key, and nothing
/// changes if it has another.
pub proof fn lemma_departures_for_push(
    contribs: Seq<Contribution>,
    last: Contribution,
    key: GroupKey,
)
    ensures
        departures_for(contribs.push(last), key) == (if last.key() == key {
            departures_for(contribs, key) + last.row.upcoming_departures
        } else {
            departures_for(contribs, key)
        }),
{
    assert(contribs.push(last).drop_last() =~= contribs);
}

/// A key that no contribution has gets no departures.
pub proof fn lemma_departures_for_absent_key(contribs: Seq<Contribution>, key: GroupKey)
    requires
        !has_key(contribs, key),
    ensures
        departures_for(contribs, key) == Seq::<FormattedScheduleItem>::empty(),
    decreases contribs.len(),
{
    if contribs.len() > 0 {
        assert(contribs[contribs.len() - 1].key() != key);
        let before = contribs.drop_last();
        assert forall|i: int| 0 <= i < before.len() implies #[trigger] before[i].key() != key by {
            assert(contribs[i].key() != key);
        }
        lemma_departures_for_absent_key(contribs.drop_last(), key);
    }
}

/// The departures for a key among `a` followed by `b` are those among `a`
/// followed by those among `b`.
pub proof fn lemma_departures_for_concat(
    a: Seq<Contribution>,
    b: Seq<Contribution>,
    key: GroupKey,
)
    ensures
        departures_for(a + b, key) == departures_for(a, key) + departures_for(b, key),
    decreases b.len(),
{
    if b.len() == 0 {
        assert(a + b =~= a);
        assert(departures_for(a, key) + departures_for(b, key) =~= departures_for(a, key));
    } else {
        assert((a + b).drop_last() =~= a + b.drop_last());
        lemma_departures_for_concat(a, b.drop_last(), key);
        if b.last().key() == key {
            assert((departures_for(a, key) + departures_for(b.drop_last(), key))
                + b.last().row.upcoming_departures =~= departures_for(a, key) + (departures_for(
                b.drop_last(),
                key,
            ) + b.last().row.upcoming_departures));
        }
    }
}

/// The contributions of itineraries `a` followed by `b` are those of `a`
/// followed by those of `b`.
pub proof fn lemma_contributions_among_concat(route: Route, a: Seq<Itinerary>, b: Seq<Itinerary>)
    ensures
        contributions_among(route, a + b) == contributions_among(route, a) + contributions_among(
            route,
            b,
        ),
    decreases b.len(),
{
    if b.len() == 0 {
        assert(a + b =~= a);
        assert(contributions_among(route, a) + contributions_among(route, b)
            =~= contributions_among(route, a));
    } else {
        assert((a + b).drop_last() =~= a + b.drop_last());
        lemma_contributions_among_concat(route, a, b.drop_last());
        match contribution_of(route, b.last()) {
            Some(contribution) => {
                assert((contributions_among(route, a) + contributions_among(route, b.drop_last()))
                    + seq![contribution] =~= contributions_among(route, a) + (contributions_among(
                    route,
                    b.drop_last(),
                ) + seq![contribution]));
            },
            None => {},
        }
    }
}

/// An itinerary without a closest stop is left out: the contributions are
/// the same with it and without it, wherever among the itineraries it is.
pub proof fn lemma_itinerary_without_stop_is_left_out(
    route: Route,
    before: Seq<Itinerary>,
    itinerary: Itinerary,
    after: Seq<Itinerary>,
)
    requires
        itinerary.closest_stop is None,
    ensures
        contributions_among(route, before.push(itinerary) + after) == contributions_among(
            route,
            before + after,
        ),
{
    lemma_contributions_among_concat(route, before.push(itinerary), after);
    lemma_contributions_among_concat(route, before, after);
    assert(before.push(itinerary).drop_last() =~= before);
}

/// The contributions of routes `a` followed by `b` are those of `a` followed
/// by those of `b`.
pub proof fn lemma_contributions_concat(a: Seq<Route>, b: Seq<Route>)
    ensures
        contributions(a + b) == contributions(a) + contributions(b),
    decreases b.len(),
{
    if b.len() == 0 {
        assert(a + b =~= a);
        assert(contributions(a) + contributions(b) =~= contributions(a));
    } else {
        assert((a + b).drop_last() =~= a + b.drop_last());
        lemma_contributions_concat(a, b.drop_last());
        assert((contributions(a) + contributions(b.drop_last())) + route_contributions(b.last())
            =~= contributions(a) + (contributions(b.drop_last()) + route_contributions(b.last())));
    }
}

/// Where exactly two contributions have a key, the row for that key has the
/// departures of the earlier one followed by those of the later one, sorted.
pub proof fn lemma_two_contributions_share_a_row(contribs: Seq<Contribution>, i: int, j: int)
    requires
        0 <= i < j < contribs.len(),
        contribs[i].key() == contribs[j].key(),
        forall|k: int|
            0 <= k < contribs.len() && k != i && k != j ==> #[trigger] contribs[k].key()
                != contribs[i].key(),
    ensures
        departures_for(contribs, contribs[i].key()) == contribs[i].row.upcoming_departures
            + contribs[j].row.upcoming_departures,
        group_for(contribs, contribs[i].key()).upcoming_departures == stable_sort(
            contribs[i].row.upcoming_departures + contribs[j].row.upcoming_departures,
        ),
{
    let key = contribs[i].key();
    let a = contribs.subrange(0, i);
    let b = contribs.subrange(i + 1, j);
    let c = contribs.subrange(j + 1, contribs.len() as int);
    let upto_i = a.push(contribs[i]);
    let upto_j = (upto_i + b).push(contribs[j]);
    assert(contribs =~= upto_j + c);
    assert forall|k: int| 0 <= k < a.len() implies #[trigger] a[k].key() != key by {
        assert(contribs[k].key() != key);
    }
    assert forall|k: int| 0 <= k < b.len() implies #[trigger] b[k].key() != key by {
        assert(contribs[i + 1 + k].key() != key);
    }
    assert forall|k: int| 0 <= k < c.len() implies #[trigger] c[k].key() != key by {
        assert(contribs[j + 1 + k].key() != key);
    }
    lemma_departures_for_absent_key(a, key);
    lemma_departures_for_absent_key(b, key);
    lemma_departures_for_absent_key(c, key);
    lemma_departures_for_push(a, contribs[i], key);
    lemma_departures_for_concat(upto_i, b, key);
    lemma_departures_for_push(upto_i + b, contribs[j], key);
    lemma_departures_for_concat(upto_j, c, key);
    assert(departures_for(contribs, key) =~= contribs[i].row.upcoming_departures
        + contribs[j].row.upcoming_departures);
}

/// A row's departures are those of the contributions with its key, sorted by
/// departure time, those that leave at the same time in the order in which
/// the contributions list them.
pub proof fn lemma_rows_are_sorted_stably(contribs: Seq<Contribution>, key: GroupKey)
    ensures
        is_stable_sort_of(
            group_for(contribs, key).upcoming_departures,
            departures_for(contribs, key),
        ),
        group_for(contribs, key).upcoming_departures.len() == departures_for(contribs, key).len(),
{
    lemma_stable_sort_is_stable(departures_for(contribs, key));
}

/// Each row is the row of its key: it names the stop and the direction of
/// the key, and has the display attributes of the first contribution with
/// that key.
pub proof fn lemma_rows_belong_to_their_keys(contribs: Seq<Contribution>, g: int)
    requires
        0 <= g < distinct_keys(contribs).len(),
    ensures
        aggregated(contribs)[g] == group_for(contribs, distinct_keys(contribs)[g]),
        aggregated(contribs)[g].stop_id == distinct_keys(contribs)[g].stop_id,
        aggregated(contribs)[g].direction_headsign == distinct_keys(contribs)[g].direction,
        has_key(contribs, distinct_keys(contribs)[g]),
{
    let key = distinct_keys(contribs)[g];
    lemma_distinct_keys_are_the_keys(contribs);
    assert(distinct_keys(contribs).contains(key));
    lemma_first_index_is_first(contribs, key);
}

/// Without contributions the board is empty.
pub proof fn lemma_nothing_in_nothing_out()
    ensures
        contributions(Seq::<Route>::empty()) == Seq::<Contribution>::empty(),
        aggregated(Seq::<Contribution>::empty()) == Seq::<DisplayGroup>::empty(),
{
    assert(aggregated(Seq::<Contribution>::empty()) =~= Seq::<DisplayGroup>::empty());
}

/// A single contribution makes a single row: its own, with its departures
/// sorted. If it has no departures, neither has the row.
pub proof fn lemma_single_contribution(only: Contribution)
    ensures
        aggregated(seq![only]) == seq![
            only.row.with_departures(stable_sort(only.row.upcoming_departures)),
        ],
        only.row.upcoming_departures.len() == 0 ==> aggregated(seq![only]) == seq![only.row],
{
    let contribs = seq![only];
    let none = Seq::<Contribution>::empty();
    assert(contribs =~= none.push(only));
    lemma_distinct_keys_push(none, only);
    lemma_departures_for_push(none, only, only.key());
    assert(distinct_keys(contribs) =~= seq![only.key()]);
    assert(departures_for(contribs, only.key()) =~= only.row.upcoming_departures);
    assert(first_index(contribs, only.key()) == 0);
    assert(aggregated(contribs) =~= seq![
        only.row.with_departures(stable_sort(only.row.upcoming_departures)),
    ]);
    if only.row.upcoming_departures.len() == 0 {
        assert(only.row.with_departures(stable_sort(only.row.upcoming_departures)) == only.row);
    }
}

/// The key of an itinerary of `route`, if the itinerary has a closest stop:
/// the route, that stop and the direction of the itinerary.
pub open spec fn key_of_itinerary(route: Route, itinerary: Itinerary) -> Option<GroupKey> {
    match itinerary.closest_stop {
        Some(stop) => Some(
            GroupKey {
                route_id: route.global_route_id@,
                stop_id: stop.global_stop_id@,
                direction: itinerary.direction_headsign@,
            },
        ),
        None => None,
    }
}

/// Some itinerary of some route has a closest stop and this key.
pub open spec fn some_itinerary_has_key(routes: Seq<Route>, key: GroupKey) -> bool {
    exists|r: int, i: int|
        0 <= r < routes.len() && 0 <= i < routes[r].itineraries@.len() && key_of_itinerary(
            routes[r],
            #[trigger] routes[r].itineraries@[i],
        ) == Some(key)
}

/// A key occurs among `a` followed by `b` if it occurs among `a` or among
/// `b`.
pub proof fn lemma_has_key_concat(a: Seq<Contribution>, b: Seq<Contribution>, key: GroupKey)
    ensures
        has_key(a + b, key) <==> has_key(a, key) || has_key(b, key),
{
    let both = a + b;
    if has_key(a, key) {
        let i = choose|i: int| 0 <= i < a.len() && #[trigger] a[i].key() == key;
        assert(both[i].key() == key);
    }
    if has_key(b, key) {
        let i = choose|i: int| 0 <= i < b.len() && #[trigger] b[i].key() == key;
        assert(both[a.len() + i].key() == key);
    }
    if has_key(both, key) {
        let i = choose|i: int| 0 <= i < both.len() && #[trigger] both[i].key() == key;
        if i < a.len() {
            assert(a[i].key() == key);
        } else {
            assert(b[i - a.len()].key() == key);
        }
    }
}

/// The keys among the contributions of some itineraries of a route are the
/// keys of those of the itineraries that have a closest stop.
pub proof fn lemma_keys_among_itineraries(route: Route, itineraries: Seq<Itinerary>, key: GroupKey)
    ensures
        has_key(contributions_among(route, itineraries), key) <==> exists|i: int|
            0 <= i < itineraries.len() && key_of_itinerary(route, #[trigger] itineraries[i])
                == Some(key),
    decreases itineraries.len(),
{
    if itineraries.len() > 0 {
        let sooner = itineraries.drop_last();
        let last = itineraries.last();
        lemma_keys_among_itineraries(route, sooner, key);
        match contribution_of(route, last) {
            Some(contribution) => {
                assert(contributions_among(route, itineraries) =~= contributions_among(
                    route,
                    sooner,
                ).push(contribution));
                lemma_has_key_push(contributions_among(route, sooner), contribution, key);
                assert(key_of_itinerary(route, last) == Some(contribution.key()));
            },
            None => {},
        }
        if has_key(contributions_among(route, itineraries), key) {
            if has_key(contributions_among(route, sooner), key) {
                let i = choose|i: int|
                    0 <= i < sooner.len() && key_of_itinerary(route, #[trigger] sooner[i]) == Some(
                        key,
                    );
                assert(key_of_itinerary(route, itineraries[i]) == Some(key));
            } else {
                assert(key_of_itinerary(route, itineraries[itineraries.len() - 1]) == Some(key));
            }
        }
        if exists|i: int|
            0 <= i < itineraries.len() && key_of_itinerary(route, #[trigger] itineraries[i])
                == Some(key) {
            let i = choose|i: int|
                0 <= i < itineraries.len() && key_of_itinerary(route, #[trigger] itineraries[i])
                    == Some(key);
            if i < sooner.len() {
                assert(key_of_itinerary(route, sooner[i]) == Some(key));
            }
        }
    }
}

/// The keys among the contributions are the route, stop and direction of
/// the itineraries that have a closest stop, and no others.
pub proof fn lemma_keys_are_those_of_itineraries_with_a_stop(routes: Seq<Route>, key: GroupKey)
    ensures
        has_key(contributions(routes), key) <==> some_itinerary_has_key(routes, key),
    decreases routes.len(),
{
    if routes.len() > 0 {
        let sooner = routes.drop_last();
        let last = routes.last();
        lemma_keys_are_those_of_itineraries_with_a_stop(sooner, key);
        lemma_has_key_concat(contributions(sooner), route_contributions(last), key);
        lemma_keys_among_itineraries(last, last.itineraries@, key);
        if has_key(contributions(routes), key) {
            if has_key(contributions(sooner), key) {
                let (r, i) = choose|r: int, i: int|
                    0 <= r < sooner.len() && 0 <= i < sooner[r].itineraries@.len()
                        && key_of_itinerary(sooner[r], #[trigger] sooner[r].itineraries@[i])
                        == Some(key);
                assert(key_of_itinerary(routes[r], routes[r].itineraries@[i]) == Some(key));
            } else {
                let i = choose|i: int|
                    0 <= i < last.itineraries@.len() && key_of_itinerary(
                        last,
                        #[trigger] last.itineraries@[i],
                    ) == Some(key);
                let r = routes.len() - 1;
                assert(key_of_itinerary(routes[r], routes[r].itineraries@[i]) == Some(key));
            }
        }
        if some_itinerary_has_key(routes, key) {
            let (r, i) = choose|r: int, i: int|
                0 <= r < routes.len() && 0 <= i < routes[r].itineraries@.len() && key_of_itinerary(
                    routes[r],
                    #[trigger] routes[r].itineraries@[i],
                ) == Some(key);
            if r < sooner.len() {
                assert(key_of_itinerary(sooner[r], sooner[r].itineraries@[i]) == Some(key));
            } else {
                assert(key_of_itinerary(last, last.itineraries@[i]) == Some(key));
            }
        }
    }
}

} // verus!
