use vstd::prelude::*;
use crate::filter::{contains_day, day_pieces, lemma_day_pieces_start_ok, walk_days};
use crate::slot::Slot;
use crate::time::{time_ok, weekday, weekday_of};
use crate::timeline::{collect_slots, cut_out_all, sorted_of_set, strictly_sorted, Timeline};
use crate::timing::{day_of_index, Day};

verus! {

/// The pieces of `ps` that start on a day of the week that `days` holds.
pub open spec fn on_days(ps: Seq<Slot>, days: Seq<Day>) -> Seq<Slot>
    decreases ps.len(),
{
    if ps.len() == 0 {
        seq![]
    } else if days.contains(day_of_index(weekday_of(ps.last().start as int))) {
        on_days(ps.drop_last(), days).push(ps.last())
    } else {
        on_days(ps.drop_last(), days)
    }
}

/// Removes the days of the timeline that fall on one of `days_to_filter`: the timeline
/// is walked day by day and the day pieces starting on such a day of the week are
/// removed.
pub fn filter_on_days(timeline: Timeline, days_to_filter: &Vec<Day>) -> (result: Timeline)
    requires
        timeline.wf(),
    ensures
        (timeline.slots@.len() == 0 || days_to_filter@.len() == 0) ==> result == timeline,
        !(timeline.slots@.len() == 0 || days_to_filter@.len() == 0) ==> result.slots@
            == cut_out_all(
            sorted_of_set(
                day_pieces(timeline.slots@).to_set().difference(
                    on_days(day_pieces(timeline.slots@), days_to_filter@).to_set(),
                ),
            ),
            sorted_of_set(on_days(day_pieces(timeline.slots@), days_to_filter@).to_set()),
        ),
        strictly_sorted(result.slots@),
{
    if timeline.slots.len() == 0 || days_to_filter.len() == 0 {
        return timeline;
    }
    let ghost tl = timeline.slots@;
    proof {
        assert forall|k: int| 0 <= k < tl.len() implies (#[trigger] tl[k]).wf() by {}
    }
    let slots_from_iter = walk_days(timeline);
    let ghost ps = slots_from_iter@;
    let mut days_to_remove: Vec<Slot> = Vec::new();
    let mut i: usize = 0;
    while i < slots_from_iter.len()
        invariant
            slots_from_iter@ == ps,
            ps == day_pieces(tl),
            forall|k: int| 0 <= k < tl.len() ==> (#[trigger] tl[k]).wf(),
            i <= ps.len(),
            days_to_remove@ == on_days(ps.take(i as int), days_to_filter@),
        decreases ps.len() - i,
    {
        let slot = slots_from_iter[i];
        proof {
            assert(ps.take(i + 1).drop_last() =~= ps.take(i as int));
            assert(ps.take(i + 1).last() == slot);
            lemma_day_pieces_start_ok(tl);
            assert(time_ok(ps[i as int].start as int));
        }
        let day = Day::from_index(weekday(slot.start));
        if contains_day(days_to_filter, day) {
            days_to_remove.push(slot);
        }
        i += 1;
    }
    proof {
        assert(ps.take(ps.len() as int) =~= ps);
    }
    let mut expected_timeline = collect_slots(slots_from_iter);
    proof {
        assert(expected_timeline.slots@.to_set() =~= ps.to_set());
    }
    expected_timeline.remove_slots(days_to_remove);
    expected_timeline
}

} // verus!
