//! Sorting departures by departure time, keeping the provider's order among
//! departures that leave at the same time.

use vstd::prelude::*;
use crate::display::FormattedScheduleItem;

verus! {

/// The departures are in non-decreasing order of departure time.
pub open spec fn ordered_by_departure(s: Seq<FormattedScheduleItem>) -> bool {
    forall|i: int, j: int| 0 <= i <= j < s.len() ==> s[i].departure_time <= s[j].departure_time
}

/// The departures of `s` that leave at time `t`, in the order in which `s`
/// lists them.
pub open spec fn departing_at(s: Seq<FormattedScheduleItem>, t: u64) -> Seq<FormattedScheduleItem> {
    s.filter(|d: FormattedScheduleItem| d.departure_time == t)
}

/// `out` is `inp` sorted by departure time, and stably so: it is ordered, and
/// for every time it lists the departures that leave then exactly as `inp`
/// does, the same ones in the same order.
pub open spec fn is_stable_sort_of(
    out: Seq<FormattedScheduleItem>,
    inp: Seq<FormattedScheduleItem>,
) -> bool {
    &&& ordered_by_departure(out)
    &&& forall|t: u64|
        #![trigger departing_at(out, t)]
        #![trigger departing_at(inp, t)]
        departing_at(out, t) == departing_at(inp, t)
}

/// Where `x` goes in an ordered `s`: behind every departure that leaves no
/// later than `x` does.
pub open spec fn insertion_point(s: Seq<FormattedScheduleItem>, x: FormattedScheduleItem) -> int
    decreases s.len(),
{
    if s.len() == 0 || s.last().departure_time <= x.departure_time {
        s.len() as int
    } else {
        insertion_point(s.drop_last(), x)
    }
}

/// `s` sorted by departure time, departures with the same time staying in
/// the order of `s`.
///
/// [`lemma_stable_sort_is_stable`] and [`lemma_stable_sort_is_unique`] show
/// that this is the one sequence `out` with `is_stable_sort_of(out, s)`.
pub open spec fn stable_sort(s: Seq<FormattedScheduleItem>) -> Seq<FormattedScheduleItem>
    decreases s.len(),
{
    if s.len() == 0 {
        s
    } else {
        let head = stable_sort(s.drop_last());
        head.insert(insertion_point(head, s.last()), s.last())
    }
}

/// Adding a departure at the end adds it at the end of the departures of its
/// own time and changes nothing for any other time.
pub proof fn lemma_departing_at_push(
    s: Seq<FormattedScheduleItem>,
    x: FormattedScheduleItem,
    t: u64,
)
    ensures
        departing_at(s.push(x), t) == (if x.departure_time == t {
            departing_at(s, t).push(x)
        } else {
            departing_at(s, t)
        }),
{
    reveal(Seq::filter);
    assert(s.push(x).drop_last() =~= s);
}

/// Where no departure leaves at `t`, `departing_at` is empty.
pub proof fn lemma_departing_at_none(s: Seq<FormattedScheduleItem>, t: u64)
    requires
        forall|i: int| 0 <= i < s.len() ==> s[i].departure_time != t,
    ensures
        departing_at(s, t) == Seq::<FormattedScheduleItem>::empty(),
    decreases s.len(),
{
    reveal(Seq::filter);
    if s.len() > 0 {
        lemma_departing_at_none(s.drop_last(), t);
    }
}

/// A departure listed by `departing_at(s, t)` is a departure of `s` that
/// leaves at `t`.
pub proof fn lemma_departing_at_some(s: Seq<FormattedScheduleItem>, t: u64)
    requires
        departing_at(s, t).len() > 0,
    ensures
        exists|i: int| 0 <= i < s.len() && s[i].departure_time == t,
{
    if forall|i: int| 0 <= i < s.len() ==> s[i].departure_time != t {
        lemma_departing_at_none(s, t);
    }
}

/// `departing_at` of a concatenation is the concatenation of the parts.
pub proof fn lemma_departing_at_concat(
    a: Seq<FormattedScheduleItem>,
    b: Seq<FormattedScheduleItem>,
    t: u64,
)
    ensures
        departing_at(a + b, t) == departing_at(a, t) + departing_at(b, t),
{
    Seq::filter_distributes_over_add(a, b, |d: FormattedScheduleItem| d.departure_time == t);
}

/// The insertion point splits `s`: everything from it on leaves later than
/// `x`, and in an ordered `s` everything before it leaves no later.
pub proof fn lemma_insertion_point_splits(s: Seq<FormattedScheduleItem>, x: FormattedScheduleItem)
    ensures
        0 <= insertion_point(s, x) <= s.len(),
        forall|k: int|
            insertion_point(s, x) <= k < s.len() ==> s[k].departure_time > x.departure_time,
        ordered_by_departure(s) ==> forall|k: int|
            0 <= k < insertion_point(s, x) ==> s[k].departure_time <= x.departure_time,
    decreases s.len(),
{
    if s.len() == 0 {
    } else if s.last().departure_time <= x.departure_time {
        if ordered_by_departure(s) {
            assert forall|k: int| 0 <= k < s.len() implies s[k].departure_time
                <= x.departure_time by {
                assert(s[k].departure_time <= s[s.len() - 1].departure_time);
            }
        }
    } else {
        let front = s.drop_last();
        lemma_insertion_point_splits(front, x);
        assert forall|k: int| insertion_point(s, x) <= k < s.len() implies s[k].departure_time
            > x.departure_time by {
            if k < front.len() {
                assert(front[k] == s[k]);
            }
        }
        if ordered_by_departure(s) {
            assert forall|i: int, j: int| 0 <= i <= j < front.len() implies front[i].departure_time
                <= front[j].departure_time by {
                assert(s[i].departure_time <= s[j].departure_time);
            }
            assert forall|k: int| 0 <= k < insertion_point(s, x) implies s[k].departure_time
                <= x.departure_time by {
                assert(front[k] == s[k]);
            }
        }
    }
}

/// Inserting `x` at its insertion point keeps an ordered sequence ordered,
/// puts `x` behind the departures of its own time and leaves the departures
/// of every other time as they were.
pub proof fn lemma_insert_in_order(s: Seq<FormattedScheduleItem>, x: FormattedScheduleItem)
    requires
        ordered_by_departure(s),
    ensures
        ordered_by_departure(s.insert(insertion_point(s, x), x)),
        forall|t: u64| #[trigger]
            departing_at(s.insert(insertion_point(s, x), x), t) == (if x.departure_time == t {
                departing_at(s, t).push(x)
            } else {
                departing_at(s, t)
            }),
{
    let p = insertion_point(s, x);
    lemma_insertion_point_splits(s, x);
    let front = s.subrange(0, p);
    let back = s.subrange(p, s.len() as int);
    let r = s.insert(p, x);
    assert(r =~= front.push(x) + back);
    assert(s =~= front + back);
    assert forall|t: u64| #[trigger]
        departing_at(r, t) == if x.departure_time == t {
            departing_at(s, t).push(x)
        } else {
            departing_at(s, t)
        } by {
        lemma_departing_at_concat(front.push(x), back, t);
        lemma_departing_at_concat(front, back, t);
        lemma_departing_at_push(front, x, t);
        if x.departure_time == t {
            lemma_departing_at_none(back, t);
            assert(departing_at(front, t).push(x) + Seq::<FormattedScheduleItem>::empty()
                =~= departing_at(front, t).push(x));
            assert(departing_at(front, t) + Seq::<FormattedScheduleItem>::empty()
                =~= departing_at(front, t));
        }
    }
}

/// `stable_sort(s)` has the departures of `s`, ordered by departure time,
/// those with the same time in the order of `s`.
pub proof fn lemma_stable_sort_is_stable(s: Seq<FormattedScheduleItem>)
    ensures
        is_stable_sort_of(stable_sort(s), s),
        stable_sort(s).len() == s.len(),
    decreases s.len(),
{
    if s.len() > 0 {
        let head = stable_sort(s.drop_last());
        lemma_stable_sort_is_stable(s.drop_last());
        lemma_insertion_point_splits(head, s.last());
        lemma_insert_in_order(head, s.last());
        assert forall|t: u64| #[trigger]
            departing_at(stable_sort(s), t) == departing_at(s, t) by {
            lemma_departing_at_push(s.drop_last(), s.last(), t);
            assert(s.drop_last().push(s.last()) =~= s);
            assert(departing_at(head, t) == departing_at(s.drop_last(), t));
        }
    }
}

/// `stable_sort(s)` has the departures of `s`, each as often as `s` has it.
pub proof fn lemma_stable_sort_is_permutation(s: Seq<FormattedScheduleItem>)
    ensures
        stable_sort(s).to_multiset() == s.to_multiset(),
    decreases s.len(),
{
    broadcast use vstd::seq_lib::group_to_multiset_ensures;

    if s.len() > 0 {
        let head = stable_sort(s.drop_last());
        let p = insertion_point(head, s.last());
        lemma_stable_sort_is_permutation(s.drop_last());
        lemma_insertion_point_splits(head, s.last());
        assert(head.insert(p, s.last()).remove(p) =~= head);
        assert(s.drop_last().push(s.last()) =~= s);
        assert(stable_sort(s).to_multiset() =~= s.to_multiset());
    }
}

/// Two ordered sequences that list the same departures for every time, in
/// the same order, are the same sequence.
pub proof fn lemma_ordered_sequences_agree(
    a: Seq<FormattedScheduleItem>,
    b: Seq<FormattedScheduleItem>,
)
    requires
        ordered_by_departure(a),
        ordered_by_departure(b),
        forall|t: u64| #[trigger] departing_at(a, t) == departing_at(b, t),
    ensures
        a == b,
    decreases a.len(),
{
    if a.len() == 0 {
        if b.len() > 0 {
            let t = b.last().departure_time;
            lemma_departing_at_push(b.drop_last(), b.last(), t);
            assert(b.drop_last().push(b.last()) =~= b);
            lemma_departing_at_none(a, t);
            assert(departing_at(a, t) == departing_at(b, t));
        }
        assert(a =~= b);
    } else {
        let x = a.last();
        let a0 = a.drop_last();
        assert(a0.push(x) =~= a);
        lemma_departing_at_push(a0, x, x.departure_time);
        assert(departing_at(a, x.departure_time) == departing_at(b, x.departure_time));
        lemma_departing_at_some(b, x.departure_time);
        let y = b.last();
        let b0 = b.drop_last();
        assert(b0.push(y) =~= b);
        lemma_departing_at_push(b0, y, y.departure_time);
        assert(departing_at(a, y.departure_time) == departing_at(b, y.departure_time));
        lemma_departing_at_some(a, y.departure_time);
        assert(x.departure_time == y.departure_time);
        assert(x == y) by {
            assert(departing_at(a, x.departure_time).last() == x);
            assert(departing_at(b, x.departure_time).last() == y);
        }
        assert forall|t: u64| #[trigger] departing_at(a0, t) == departing_at(b0, t) by {
            lemma_departing_at_push(a0, x, t);
            lemma_departing_at_push(b0, y, t);
            assert(departing_at(a, t) == departing_at(b, t));
            if x.departure_time == t {
                assert(departing_at(a0, t) =~= departing_at(a, t).drop_last());
                assert(departing_at(b0, t) =~= departing_at(b, t).drop_last());
            }
        }
        lemma_ordered_sequences_agree(a0, b0);
    }
}

/// A stable sort of `inp` is `stable_sort(inp)`: the order by departure time
/// and the order among equal times leave no choice.
pub proof fn lemma_stable_sort_is_unique(
    out: Seq<FormattedScheduleItem>,
    inp: Seq<FormattedScheduleItem>,
)
    requires
        is_stable_sort_of(out, inp),
    ensures
        out == stable_sort(inp),
        out.len() == inp.len(),
        out.to_multiset() == inp.to_multiset(),
{
    lemma_stable_sort_is_stable(inp);
    lemma_stable_sort_is_permutation(inp);
    assert forall|t: u64| #[trigger] departing_at(out, t) == departing_at(stable_sort(inp), t) by {
        assert(departing_at(out, t) == departing_at(inp, t));
        assert(departing_at(stable_sort(inp), t) == departing_at(inp, t));
    }
    lemma_ordered_sequences_agree(out, stable_sort(inp));
}

/// The index at which `x` is inserted into the ordered `sorted`.
fn insertion_index(sorted: &Vec<FormattedScheduleItem>, x: &FormattedScheduleItem) -> (p: usize)
    ensures
        p == insertion_point(sorted@, *x),
{
    let mut p: usize = sorted.len();
    proof {
        assert(sorted@.take(p as int) =~= sorted@);
    }
    while p > 0 && sorted[p - 1].departure_time > x.departure_time
        invariant
            p <= sorted.len(),
            insertion_point(sorted@, *x) == insertion_point(sorted@.take(p as int), *x),
        decreases p,
    {
        proof {
            assert(sorted@.take(p as int).drop_last() =~= sorted@.take(p - 1));
        }
        p -= 1;
    }
    p
}

/// Sorts the departures by departure time, earliest first. Departures with
/// the same departure time keep the order they had.
///
/// The work grows with the square of the number of departures in the worst
/// case, and with their number when they already are in order.
pub fn sort_departures(departures: &mut Vec<FormattedScheduleItem>)
    ensures
        final(departures)@ == stable_sort(old(departures)@),
        is_stable_sort_of(final(departures)@, old(departures)@),
        final(departures).len() == old(departures).len(),
{
    let mut sorted: Vec<FormattedScheduleItem> = Vec::new();
    let mut i: usize = 0;
    while i < departures.len()
        invariant
            *departures == *old(departures),
            i <= departures.len(),
            sorted@ == stable_sort(departures@.take(i as int)),
        decreases departures.len() - i,
    {
        let x = departures[i];
        proof {
            lemma_stable_sort_is_stable(departures@.take(i as int));
            lemma_insertion_point_splits(sorted@, x);
            assert(departures@.take(i + 1).drop_last() =~= departures@.take(i as int));
        }
        let p = insertion_index(&sorted, &x);
        sorted.insert(p, x);
        i += 1;
    }
    proof {
        assert(departures@.take(i as int) =~= departures@);
        lemma_stable_sort_is_stable(departures@);
    }
    *departures = sorted;
}

} // verus!
