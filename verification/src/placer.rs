use vstd::prelude::*;
use crate::slot::{overlap_hours, slot_hours, slot_ok, Slot};
use crate::sorting::{items_of, sort_by_key, sort_keyed, strip_keys, Rev};
use crate::budget::{is_allowed_spec, BudgetsModel, StepBudgets};
use crate::step::{
    all_calculated, calculated, flex_sum, insert_step, removed_conflicts, sort_steps_spec, step_cmp,
    steps_ok, Step, StepModel, StepStatus, StepsToPlace,
};
use crate::time::{time_ok, SECS_PER_HOUR};

verus! {

/// A candidate slot with the number of hours that other steps want of it.
#[derive(Debug, Clone, Copy, PartialEq, Eq, Structural)]
pub struct SlotConflict {
    pub slot: Slot,
    pub num_conflicts: usize,
}

/// Hours that the slots of `slots` share with `x`.
pub open spec fn conflicts_in_slots(x: Slot, slots: Seq<Slot>) -> int
    decreases slots.len(),
{
    if slots.len() == 0 {
        0
    } else {
        conflicts_in_slots(x, slots.drop_last()) + overlap_hours(x, slots.last())
    }
}

/// Does the step count in conflicts: it is ready to schedule and is not the one
/// that `skip` names.
pub open spec fn counts_in(m: StepModel, skip: Option<usize>) -> bool {
    m.status == StepStatus::ReadyToSchedule && !(skip matches Some(id) && m.id == id)
}

/// Hours that the counted steps of `steps` want of `x`.
pub open spec fn conflict_sum(x: Slot, steps: Seq<StepModel>, skip: Option<usize>) -> int
    decreases steps.len(),
{
    if steps.len() == 0 {
        0
    } else {
        conflict_sum(x, steps.drop_last(), skip) + if counts_in(steps.last(), skip) {
            conflicts_in_slots(x, steps.last().slots)
        } else {
            0
        }
    }
}

/// The models of a sequence of steps.
pub open spec fn step_models(s: Seq<Step>) -> Seq<StepModel> {
    s.map_values(|t: Step| t@)
}

proof fn lemma_overlap_nonneg(x: Slot, y: Slot)
    ensures
        overlap_hours(x, y) >= 0,
{
}

proof fn lemma_slots_prefix(x: Slot, slots: Seq<Slot>, k: int)
    requires
        0 <= k <= slots.len(),
    ensures
        0 <= conflicts_in_slots(x, slots.take(k)) <= conflicts_in_slots(x, slots),
    decreases slots.len(),
{
    if slots.len() > 0 {
        lemma_overlap_nonneg(x, slots.last());
        if k == slots.len() {
            assert(slots.take(k) =~= slots);
            lemma_slots_prefix(x, slots.drop_last(), k - 1);
            assert(slots.drop_last().take(k - 1) =~= slots.drop_last());
        } else {
            lemma_slots_prefix(x, slots.drop_last(), k);
            assert(slots.drop_last().take(k) =~= slots.take(k));
        }
    } else {
        assert(slots.take(k) =~= slots);
    }
}

proof fn lemma_sum_prefix(x: Slot, steps: Seq<StepModel>, skip: Option<usize>, k: int)
    requires
        0 <= k <= steps.len(),
    ensures
        0 <= conflict_sum(x, steps.take(k), skip) <= conflict_sum(x, steps, skip),
    decreases steps.len(),
{
    if steps.len() > 0 {
        lemma_slots_prefix(x, steps.last().slots, steps.last().slots.len() as int);
        if k == steps.len() {
            assert(steps.take(k) =~= steps);
            lemma_sum_prefix(x, steps.drop_last(), skip, k - 1);
            assert(steps.drop_last().take(k - 1) =~= steps.drop_last());
        } else {
            lemma_sum_prefix(x, steps.drop_last(), skip, k);
            assert(steps.drop_last().take(k) =~= steps.take(k));
        }
    } else {
        assert(steps.take(k) =~= steps);
    }
}

impl Slot {
    /// The hours that the slots of `slots_list` share with this slot.
    pub fn get_conflicts_in_slots(&self, slots_list: &[Slot]) -> (r: SlotConflict)
        requires
            slot_ok(*self),
            forall|i: int| 0 <= i < slots_list.len() ==> (#[trigger] slots_list@[i]).wf(),
            conflicts_in_slots(*self, slots_list@) <= usize::MAX,
        ensures
            r.slot == *self,
            r.num_conflicts == conflicts_in_slots(*self, slots_list@),
    {
        let mut count: usize = 0;
        let mut i: usize = 0;
        while i < slots_list.len()
            invariant
                slot_ok(*self),
                forall|k: int| 0 <= k < slots_list.len() ==> (#[trigger] slots_list@[k]).wf(),
                conflicts_in_slots(*self, slots_list@) <= usize::MAX,
                i <= slots_list.len(),
                count == conflicts_in_slots(*self, slots_list@.take(i as int)),
            decreases slots_list.len() - i,
        {
            proof {
                assert(slots_list@.take(i + 1).drop_last() =~= slots_list@.take(i as int));
                lemma_slots_prefix(*self, slots_list@, i + 1);
            }
            let h = self.intersection(&slots_list[i]);
            count = count + h;
            i = i + 1;
        }
        proof {
            assert(slots_list@.take(slots_list.len() as int) =~= slots_list@);
        }
        SlotConflict { slot: *self, num_conflicts: count }
    }

    /// The hours that the steps ready to schedule want of this slot.
    pub fn get_conflicts_in_steps(&self, slots_list: &[Step]) -> (r: SlotConflict)
        requires
            slot_ok(*self),
            all_slots_wf(step_models(slots_list@)),
            conflict_sum(*self, step_models(slots_list@), None) <= usize::MAX,
        ensures
            r.slot == *self,
            r.num_conflicts == conflict_sum(*self, step_models(slots_list@), None),
    {
        self.conflicts_skipping(slots_list, None)
    }

    fn conflicts_skipping(&self, steps: &[Step], skip: Option<usize>) -> (r: SlotConflict)
        requires
            slot_ok(*self),
            all_slots_wf(step_models(steps@)),
            conflict_sum(*self, step_models(steps@), skip) <= usize::MAX,
        ensures
            r.slot == *self,
            r.num_conflicts == conflict_sum(*self, step_models(steps@), skip),
    {
        let ghost models = step_models(steps@);
        let mut count: usize = 0;
        let mut i: usize = 0;
        while i < steps.len()
            invariant
                slot_ok(*self),
                models == step_models(steps@),
                all_slots_wf(models),
                conflict_sum(*self, models, skip) <= usize::MAX,
                i <= steps.len(),
                count == conflict_sum(*self, models.take(i as int), skip),
            decreases steps.len() - i,
        {
            proof {
                assert(models.take(i + 1).drop_last() =~= models.take(i as int));
                assert(models.take(i + 1).last() == steps@[i as int]@);
                lemma_sum_prefix(*self, models, skip, i + 1);
            }
            let step = &steps[i];
            let counted = step.status == StepStatus::ReadyToSchedule && match skip {
                Some(id) => step.id != id,
                None => true,
            };
            if counted {
                proof {
                    assert(models[i as int] == step@);
                }
                let c = self.get_conflicts_in_slots(step.slots.as_slice());
                count = count + c.num_conflicts;
            }
            i = i + 1;
        }
        proof {
            assert(models.take(steps.len() as int) =~= models);
        }
        SlotConflict { slot: *self, num_conflicts: count }
    }
}

/// Every slot of every step lies in the supported range.
pub open spec fn all_slots_wf(steps: Seq<StepModel>) -> bool {
    forall|k: int, i: int|
        0 <= k < steps.len() && 0 <= i < steps[k].slots.len() ==> (#[trigger] steps[k].slots[i]).wf()
}

/// The slots of `d` hours within `s` that start on its hours: none when `s` is
/// shorter, `s` itself when it is just as long.
pub open spec fn schedulable(s: Slot, d: int) -> Seq<Slot> {
    let sd = slot_hours(s);
    if sd < d {
        Seq::empty()
    } else if sd == d {
        seq![s]
    } else {
        Seq::new(
            (sd - d + 1) as nat,
            |k: int|
                Slot {
                    start: (s.start + k * SECS_PER_HOUR) as i64,
                    end: (s.start + (k + d) * SECS_PER_HOUR) as i64,
                },
        )
    }
}

/// A slot whose schedulable slots of `d` hours can be counted in a `usize`.
pub open spec fn schedulable_fits(s: Slot, d: int) -> bool {
    slot_ok(s) && (slot_hours(s) > d ==> slot_hours(s) - d + 1 <= usize::MAX)
}

impl Slot {
    /// The slots of `duration` hours within this slot that start on its hours.
    pub fn generate_schedulable_slots(&self, duration: usize) -> (r: Vec<Slot>)
        requires
            schedulable_fits(*self, duration as int),
        ensures
            r@ == schedulable(*self, duration as int),
            forall|i: int| 0 <= i < r.len() ==> slot_ok(#[trigger] r@[i]),
    {
        let slot_duration = self.span();
        let mut schedulable_slots: Vec<Slot> = Vec::new();
        if slot_duration < duration {
            return schedulable_slots;
        } else if slot_duration == duration {
            return vec![*self];
        }
        let flexibility = slot_duration - duration + 1;
        let mut k: usize = 0;
        while k < flexibility
            invariant
                schedulable_fits(*self, duration as int),
                slot_duration == slot_hours(*self),
                slot_duration > duration,
                flexibility == slot_duration - duration + 1,
                k <= flexibility,
                schedulable_slots@ =~= schedulable(*self, duration as int).take(k as int),
                forall|i: int| 0 <= i < k ==> slot_ok(#[trigger] schedulable_slots@[i]),
            decreases flexibility - k,
        {
            proof {
                let sd = slot_hours(*self);
                assert(self.start + (k + duration) * 3600 <= self.end) by (nonlinear_arith)
                    requires
                        sd == (self.end - self.start) / 3600,
                        k + duration <= sd,
                        self.start <= self.end,
                ;
            }
            let start = self.start + (k as i64) * SECS_PER_HOUR;
            let end = self.start + ((k + duration) as i64) * SECS_PER_HOUR;
            let new_slot = Slot { start, end };
            proof {
                assert((end - start) / 3600 == duration) by (nonlinear_arith)
                    requires
                        end - start == duration * 3600,
                ;
            }
            schedulable_slots.push(new_slot);
            k = k + 1;
        }
        schedulable_slots
    }
}

/// The candidate slots of a step within each of its slots, in order, each with the
/// hours that the counted steps want of it.
pub open spec fn candidates(slots: Seq<Slot>, d: int, steps: Seq<StepModel>, skip: Option<usize>) -> Seq<
    SlotConflict,
>
    decreases slots.len(),
{
    if slots.len() == 0 {
        Seq::empty()
    } else {
        candidates(slots.drop_last(), d, steps, skip) + schedulable(slots.last(), d).map_values(
            |x: Slot| SlotConflict { slot: x, num_conflicts: conflict_sum(x, steps, skip) as usize },
        )
    }
}

/// The candidate slots of step `m` among `steps`, most wanted first and, among
/// equally wanted ones, latest first; none when `m` is not ready to schedule.
pub open spec fn conflicts_list(m: StepModel, steps: Seq<StepModel>) -> Seq<SlotConflict> {
    if m.status != StepStatus::ReadyToSchedule {
        Seq::empty()
    } else {
        let raw = candidates(m.slots, m.duration as int, steps, Some(m.id));
        let by_start = items_of(
            sort_keyed(raw.map_values(|c: SlotConflict| (Rev(c.slot.start), c))),
        );
        items_of(sort_keyed(by_start.map_values(|c: SlotConflict| (Rev(c.num_conflicts), c))))
    }
}

/// The slots of a step can be enumerated and their conflicts counted in a `usize`.
pub open spec fn conflicts_fit(m: StepModel, steps: Seq<StepModel>) -> bool {
    &&& all_slots_wf(steps)
    &&& forall|i: int|
        0 <= i < m.slots.len() ==> schedulable_fits(#[trigger] m.slots[i], m.duration as int)
    &&& forall|i: int, j: int|
        0 <= i < m.slots.len() && 0 <= j < schedulable(m.slots[i], m.duration as int).len()
            ==> conflict_sum(
            #[trigger] schedulable(m.slots[i], m.duration as int)[j],
            steps,
            Some(m.id),
        ) <= usize::MAX
}

impl Step {
    /// The candidate slots of this step among `steps_list` (itself left out), most
    /// wanted first and, among equally wanted ones, latest first; none when the step
    /// is not ready to schedule.
    pub fn get_conflicts_in_steps(&self, steps_list: &[Step]) -> (r: Vec<SlotConflict>)
        requires
            self.status == StepStatus::ReadyToSchedule ==> conflicts_fit(self@, step_models(steps_list@)),
        ensures
            r@ == conflicts_list(self@, step_models(steps_list@)),
    {
        let mut conflicts: Vec<SlotConflict> = Vec::new();
        if self.status != StepStatus::ReadyToSchedule {
            return conflicts;
        }
        let ghost models = step_models(steps_list@);
        let ghost d = self.duration as int;
        let mut i: usize = 0;
        while i < self.slots.len()
            invariant
                self.status == StepStatus::ReadyToSchedule,
                conflicts_fit(self@, models),
                models == step_models(steps_list@),
                d == self.duration,
                i <= self.slots.len(),
                conflicts@ =~= candidates(self.slots@.take(i as int), d, models, Some(self.id)),
            decreases self.slots.len() - i,
        {
            let slot = self.slots[i];
            assert(self@.slots[i as int] == slot);
            let schedulable_slots = slot.generate_schedulable_slots(self.duration);
            let ghost before = conflicts@;
            let mut j: usize = 0;
            while j < schedulable_slots.len()
                invariant
                    conflicts_fit(self@, models),
                    models == step_models(steps_list@),
                    d == self.duration,
                    i < self.slots.len(),
                    self@.slots[i as int] == slot,
                    schedulable_slots@ == schedulable(slot, d),
                    forall|k: int| 0 <= k < schedulable_slots.len() ==> slot_ok(#[trigger] schedulable_slots@[k]),
                    j <= schedulable_slots.len(),
                    conflicts@ =~= before + schedulable(slot, d).take(j as int).map_values(
                        |x: Slot| SlotConflict { slot: x, num_conflicts: conflict_sum(x, models, Some(self.id)) as usize },
                    ),
                decreases schedulable_slots.len() - j,
            {
                let x = schedulable_slots[j];
                proof {
                    assert(conflict_sum(schedulable(self@.slots[i as int], d)[j as int], models, Some(self.id)) <= usize::MAX);
                }
                let c = x.conflicts_skipping(steps_list, Some(self.id));
                conflicts.push(c);
                proof {
                    assert(schedulable(slot, d).take(j + 1) =~= schedulable(slot, d).take(j as int).push(x));
                }
                j = j + 1;
            }
            proof {
                assert(schedulable(slot, d).take(schedulable_slots.len() as int) =~= schedulable(slot, d));
                assert(self.slots@.take(i + 1).drop_last() =~= self.slots@.take(i as int));
                assert(self.slots@.take(i + 1).last() == slot);
            }
            i = i + 1;
        }
        proof {
            assert(self.slots@.take(self.slots.len() as int) =~= self.slots@);
        }
        let ghost raw = conflicts@;
        let mut keyed: Vec<(Rev<i64>, SlotConflict)> = Vec::new();
        let mut k: usize = 0;
        while k < conflicts.len()
            invariant
                k <= conflicts.len(),
                keyed@ =~= conflicts@.take(k as int).map_values(|c: SlotConflict| (Rev(c.slot.start), c)),
            decreases conflicts.len() - k,
        {
            let c = conflicts[k];
            keyed.push((Rev(c.slot.start), c));
            k = k + 1;
        }
        proof {
            assert(conflicts@.take(conflicts.len() as int) =~= conflicts@);
        }
        sort_by_key(&mut keyed);
        let by_start = strip_keys(keyed);
        let mut keyed2: Vec<(Rev<usize>, SlotConflict)> = Vec::new();
        let mut k: usize = 0;
        while k < by_start.len()
            invariant
                k <= by_start.len(),
                keyed2@ =~= by_start@.take(k as int).map_values(|c: SlotConflict| (Rev(c.num_conflicts), c)),
            decreases by_start.len() - k,
        {
            let c = by_start[k];
            keyed2.push((Rev(c.num_conflicts), c));
            k = k + 1;
        }
        proof {
            assert(by_start@.take(by_start.len() as int) =~= by_start@);
        }
        sort_by_key(&mut keyed2);
        strip_keys(keyed2)
    }
}

/// The slots to try for the first step of `steps`, best first: the reverse of its
/// candidate list; none when there is no step.
pub open spec fn best_slots_spec(steps: Seq<StepModel>) -> Option<Seq<Slot>> {
    if steps.len() == 0 {
        None
    } else {
        Some(conflicts_list(steps[0], steps).map_values(|c: SlotConflict| c.slot).reverse())
    }
}

/// The slots to try for the first step, best first; none when there is no step.
pub fn find_best_slots_for_first_step(steps: &[Step]) -> (r: Option<Vec<Slot>>)
    requires
        steps.len() > 0 && steps@[0].status == StepStatus::ReadyToSchedule ==> conflicts_fit(
            steps@[0]@,
            step_models(steps@),
        ),
    ensures
        r.is_some() == (steps.len() > 0),
        r matches Some(v) ==> Some(v@) == best_slots_spec(step_models(steps@)),
{
    if steps.len() == 0 {
        return None;
    }
    let step = &steps[0];
    let slot_conflicts = step.get_conflicts_in_steps(steps);
    let ghost models = step_models(steps@);
    let mut out: Vec<Slot> = Vec::new();
    let mut k: usize = slot_conflicts.len();
    while k > 0
        invariant
            k <= slot_conflicts.len(),
            out@ =~= slot_conflicts@.skip(k as int).map_values(|c: SlotConflict| c.slot).reverse(),
        decreases k,
    {
        k = k - 1;
        out.push(slot_conflicts[k].slot);
        proof {
            let tail = slot_conflicts@.skip(k as int);
            assert(tail =~= seq![slot_conflicts@[k as int]] + slot_conflicts@.skip(k + 1));
            assert(tail.map_values(|c: SlotConflict| c.slot) =~= seq![slot_conflicts@[k as int].slot]
                + slot_conflicts@.skip(k + 1).map_values(|c: SlotConflict| c.slot));
        }
    }
    proof {
        assert(slot_conflicts@.skip(0) =~= slot_conflicts@);
        assert(models[0] == steps@[0]@);
    }
    Some(out)
}

/// A step placed in `slot` as a copy of `first` with the identifier `id`.
pub open spec fn scheduled_copy(first: StepModel, id: int, slot: Slot) -> StepModel {
    StepModel {
        id: id as usize,
        status: StepStatus::Scheduled,
        slots: Seq::empty(),
        start: Some(slot.start),
        deadline: Some(slot.end),
        ..first
    }
}

/// After trying the first `n` chosen slots for step `first`: the hours still to
/// place, the last identifier given, the placed copies, and the budgets; nothing
/// where the placing would fail.
pub open spec fn take_slots(
    first: StepModel,
    chosen: Seq<Slot>,
    b: BudgetsModel,
    base_id: int,
    n: nat,
) -> Option<(int, int, Seq<StepModel>, BudgetsModel)>
    decreases n,
{
    if n == 0 {
        Some((first.duration as int, base_id, Seq::empty(), b))
    } else {
        match take_slots(first, chosen, b, base_id, (n - 1) as nat) {
            None => None,
            Some(st) => {
                let slot = chosen[n - 1];
                if st.0 == 0 {
                    Some(st)
                } else if !slot_ok(slot) {
                    None
                } else {
                    match is_allowed_spec(st.3, slot, first.goal_id@) {
                        None => None,
                        Some(r) => {
                            if !r.0 {
                                Some((st.0, st.1, st.2, r.1))
                            } else if slot_hours(slot) > st.0 || st.1 + 1 > usize::MAX {
                                None
                            } else {
                                Some(
                                    (
                                        st.0 - slot_hours(slot),
                                        st.1 + 1,
                                        st.2.push(scheduled_copy(first, st.1 + 1, slot)),
                                        r.1,
                                    ),
                                )
                            }
                        },
                    }
                }
            },
        }
    }
}

/// One placement of the first step in the chosen slots: copies placed in the
/// allowed slots, the first chosen slot taken out of every step's slots, and the
/// first step dropped when fully placed or marked impossible with the hours left.
pub open spec fn do_sched_spec(steps: Seq<StepModel>, b: BudgetsModel, chosen: Seq<Slot>) -> Option<
    (Seq<StepModel>, BudgetsModel),
> {
    if steps.len() == 0 || chosen.len() == 0 {
        None
    } else {
        match take_slots(steps[0], chosen, b, steps.len() as int, chosen.len()) {
            None => None,
            Some(st) => {
                let all = (steps + st.2).map_values(|m: StepModel| removed_conflicts(m, chosen[0]));
                if st.0 > 0 {
                    Some(
                        (
                            all.update(
                                0,
                                StepModel {
                                    duration: st.0 as usize,
                                    status: StepStatus::Impossible,
                                    ..all[0]
                                },
                            ),
                            st.3,
                        ),
                    )
                } else if all.len() <= 1 {
                    None
                } else {
                    Some((all.drop_first(), st.3))
                }
            },
        }
    }
}

/// `x` placed into `s` after every step that does not come after it.
pub open spec fn insert_model(s: Seq<StepModel>, x: StepModel) -> Seq<StepModel>
    decreases s.len(),
{
    if s.len() == 0 {
        seq![x]
    } else if step_cmp(s.last(), x) != 1 {
        s.push(x)
    } else {
        insert_model(s.drop_last(), x).push(s.last())
    }
}

/// The steps in placing order, steps that compare equal keeping their order.
pub open spec fn sort_models(s: Seq<StepModel>) -> Seq<StepModel>
    decreases s.len(),
{
    if s.len() == 0 {
        seq![]
    } else {
        insert_model(sort_models(s.drop_last()), s.last())
    }
}

proof fn lemma_insert_models(s: Seq<Step>, x: Step)
    ensures
        step_models(insert_step(s, x)) == insert_model(step_models(s), x@),
    decreases s.len(),
{
    if s.len() == 0 {
        assert(step_models(seq![x]) =~= seq![x@]);
    } else {
        assert(step_models(s).last() == s.last()@);
        assert(step_models(s).drop_last() =~= step_models(s.drop_last()));
        if step_cmp(s.last()@, x@) != 1 {
            assert(step_models(s.push(x)) =~= step_models(s).push(x@));
        } else {
            lemma_insert_models(s.drop_last(), x);
            assert(step_models(insert_step(s.drop_last(), x).push(s.last())) =~= step_models(
                insert_step(s.drop_last(), x),
            ).push(s.last()@));
        }
    }
}

proof fn lemma_sort_models(s: Seq<Step>)
    ensures
        step_models(sort_steps_spec(s)) == sort_models(step_models(s)),
    decreases s.len(),
{
    if s.len() == 0 {
        assert(step_models(Seq::<Step>::empty()) =~= Seq::<StepModel>::empty());
    } else {
        lemma_sort_models(s.drop_last());
        lemma_insert_models(sort_steps_spec(s.drop_last()), s.last());
        assert(step_models(s).drop_last() =~= step_models(s.drop_last()));
        assert(step_models(s).last() == s.last()@);
    }
}

/// Every slot of every step is in range and every step's flexibility fits in a `usize`.
pub open spec fn models_ok(s: Seq<StepModel>) -> bool {
    forall|k: int|
        0 <= k < s.len() ==> {
            &&& forall|i: int| 0 <= i < (#[trigger] s[k]).slots.len() ==> (#[trigger] s[k].slots[i]).wf()
            &&& flex_sum(s[k].slots, s[k].duration as int) <= usize::MAX
        }
}

/// The number of steps ready to schedule.
pub open spec fn ready_count(s: Seq<StepModel>) -> nat
    decreases s.len(),
{
    if s.len() == 0 {
        0
    } else {
        ready_count(s.drop_last()) + if s.last().status == StepStatus::ReadyToSchedule {
            1nat
        } else {
            0nat
        }
    }
}

/// The placing loop, for at most `fuel` placements: compute flexibilities and sort;
/// stop when the first step is not ready to schedule; otherwise place it in its best
/// slots and go on. Nothing where the placing would fail.
pub open spec fn run_spec(steps: Seq<StepModel>, b: BudgetsModel, fuel: nat) -> Option<
    (Seq<StepModel>, BudgetsModel),
>
    decreases fuel,
{
    if !models_ok(steps) {
        None
    } else {
        let t = sort_models(steps.map_values(|m: StepModel| calculated(m)));
        if t.len() == 0 {
            None
        } else if t[0].status != StepStatus::ReadyToSchedule {
            Some((t, b))
        } else if !conflicts_fit(t[0], t) {
            None
        } else {
            match do_sched_spec(t, b, best_slots_spec(t)->0) {
                None => None,
                Some(next) => if fuel == 0 {
                    None
                } else {
                    run_spec(next.0, next.1, (fuel - 1) as nat)
                },
            }
        }
    }
}

/// Steps after placing, with the calendar they were placed on.
#[derive(Debug, Clone)]
pub struct PlacedSteps {
    pub calendar_start: i64,
    pub calendar_end: i64,
    pub steps: Vec<Step>,
}

/// The placing of `steps` with `budgets`, as the step placer runs it.
pub open spec fn placed_spec(steps: Seq<StepModel>, b: BudgetsModel) -> Option<(Seq<StepModel>, BudgetsModel)> {
    run_spec(steps, b, ready_count(steps))
}

fn do_the_scheduling(steps_to_place: &mut StepsToPlace, chosen_slots: Vec<Slot>)
    requires
        old(steps_to_place).steps.len() > 0,
        do_sched_spec(step_models(old(steps_to_place).steps@), old(steps_to_place).step_budgets@, chosen_slots@) is Some,
    ensures
        (step_models(final(steps_to_place).steps@), final(steps_to_place).step_budgets@) == do_sched_spec(
            step_models(old(steps_to_place).steps@),
            old(steps_to_place).step_budgets@,
            chosen_slots@,
        )->0,
        final(steps_to_place).calendar_start == old(steps_to_place).calendar_start,
        final(steps_to_place).calendar_end == old(steps_to_place).calendar_end,
{
    let ghost models0 = step_models(steps_to_place.steps@);
    let ghost b0 = steps_to_place.step_budgets@;
    let ghost first = models0[0];
    let ghost n0 = steps_to_place.steps.len();
    let mut remaining_hours = steps_to_place.steps[0].duration;
    let mut template_step = steps_to_place.steps[0].duplicate();
    template_step.status = StepStatus::Scheduled;
    template_step.id = steps_to_place.steps.len();
    template_step.slots = Vec::new();
    proof {
        assert(models0[0] == steps_to_place.steps@[0]@);
        assert(step_models(steps_to_place.steps@).take(n0 as int) =~= models0);
        assert(step_models(steps_to_place.steps@).skip(n0 as int) =~= Seq::<StepModel>::empty());
    }
    let mut k: usize = 0;
    while k < chosen_slots.len()
        invariant
            k <= chosen_slots.len(),
            n0 == models0.len(),
            n0 > 0,
            first == models0[0],
            take_slots(first, chosen_slots@, b0, n0 as int, chosen_slots.len() as nat) is Some,
            take_slots(first, chosen_slots@, b0, n0 as int, k as nat) == Some(
                (
                    remaining_hours as int,
                    template_step.id as int,
                    step_models(steps_to_place.steps@).skip(n0 as int),
                    steps_to_place.step_budgets@,
                ),
            ),
            step_models(steps_to_place.steps@).take(n0 as int) == models0,
            steps_to_place.steps.len() >= n0,
            template_step.goal_id == first.goal_id,
            template_step@ == (StepModel {
                id: template_step.id,
                status: StepStatus::Scheduled,
                slots: Seq::empty(),
                start: template_step.start,
                deadline: template_step.deadline,
                ..first
            }),
            steps_to_place.calendar_start == old(steps_to_place).calendar_start,
            steps_to_place.calendar_end == old(steps_to_place).calendar_end,
        decreases chosen_slots.len() - k,
    {
        proof {
            lemma_take_slots_prefix(first, chosen_slots@, b0, n0 as int, chosen_slots.len() as nat, (k + 1) as nat);
        }
        let slot = chosen_slots[k];
        if remaining_hours != 0 {
            let allowed = steps_to_place.step_budgets.is_allowed_by_budget(&slot, &template_step.goal_id);
            if allowed {
                let ghost before = steps_to_place.steps@;
                remaining_hours = remaining_hours - slot.span();
                template_step.id = template_step.id + 1;
                template_step.start = Some(slot.start);
                template_step.deadline = Some(slot.end);
                let copy = template_step.duplicate();
                steps_to_place.steps.push(copy);
                proof {
                    assert(copy@ == scheduled_copy(first, template_step.id as int, slot));
                    assert(step_models(steps_to_place.steps@) =~= step_models(before).push(copy@));
                    assert(step_models(steps_to_place.steps@).take(n0 as int) =~= step_models(before).take(n0 as int));
                    assert(step_models(steps_to_place.steps@).skip(n0 as int) =~= step_models(before).skip(n0 as int).push(copy@));
                }
            }
        }
        k = k + 1;
    }
    let ghost st = take_slots(first, chosen_slots@, b0, n0 as int, chosen_slots.len() as nat)->0;
    let ghost all = (models0 + st.2).map_values(|m: StepModel| removed_conflicts(m, chosen_slots@[0]));
    proof {
        assert(step_models(steps_to_place.steps@) =~= models0 + st.2);
    }
    let chosen_slot = chosen_slots[0];
    let mut new_steps: Vec<Step> = Vec::new();
    let mut i: usize = 0;
    while i < steps_to_place.steps.len()
        invariant
            i <= steps_to_place.steps.len(),
            step_models(steps_to_place.steps@) == models0 + st.2,
            all == (models0 + st.2).map_values(|m: StepModel| removed_conflicts(m, chosen_slot)),
            step_models(new_steps@) =~= all.take(i as int),
        decreases steps_to_place.steps.len() - i,
    {
        let mut s = steps_to_place.steps[i].duplicate();
        s.remove_conflicted_slots(chosen_slot);
        proof {
            assert(step_models(steps_to_place.steps@)[i as int] == steps_to_place.steps@[i as int]@);
        }
        let ghost before = new_steps@;
        new_steps.push(s);
        assert(step_models(new_steps@) =~= step_models(before).push(s@));
        i = i + 1;
    }
    proof {
        assert(all.take(all.len() as int) =~= all);
    }
    steps_to_place.steps = new_steps;
    if remaining_hours > 0 {
        let mut s0 = steps_to_place.steps[0].duplicate();
        s0.duration = remaining_hours;
        s0.status = StepStatus::Impossible;
        let ghost before = steps_to_place.steps@;
        steps_to_place.steps.set(0, s0);
        proof {
            assert(step_models(steps_to_place.steps@) =~= step_models(before).update(0, s0@));
        }
    } else {
        let ghost before = steps_to_place.steps@;
        steps_to_place.steps.remove(0);
        proof {
            assert(step_models(steps_to_place.steps@) =~= step_models(before).drop_first());
        }
        let _step_scheduled_goal_id = steps_to_place.steps[0].goal_id.clone();
    }
}

proof fn lemma_take_slots_prefix(first: StepModel, chosen: Seq<Slot>, b: BudgetsModel, base: int, n: nat, k: nat)
    requires
        k <= n,
        take_slots(first, chosen, b, base, n) is Some,
    ensures
        take_slots(first, chosen, b, base, k) is Some,
    decreases n,
{
    if k < n {
        lemma_take_slots_prefix(first, chosen, b, base, (n - 1) as nat, k);
    }
}

proof fn lemma_models_ok(v: Seq<Step>)
    requires
        models_ok(step_models(v)),
    ensures
        steps_ok(v),
{
    assert forall|k: int| 0 <= k < v.len() implies {
        &&& forall|i: int| 0 <= i < (#[trigger] v[k]).slots@.len() ==> (#[trigger] v[k].slots@[i]).wf()
        &&& flex_sum(v[k].slots@, v[k].duration as int) <= usize::MAX
    } by {
        assert(step_models(v)[k] == v[k]@);
        assert forall|i: int| 0 <= i < v[k].slots@.len() implies (#[trigger] v[k].slots@[i]).wf() by {
            assert(step_models(v)[k].slots[i] == v[k].slots@[i]);
        }
    }
}

fn schedule(steps_to_place: &mut StepsToPlace, Ghost(fuel0): Ghost<nat>)
    requires
        run_spec(step_models(old(steps_to_place).steps@), old(steps_to_place).step_budgets@, fuel0) is Some,
    ensures
        (step_models(final(steps_to_place).steps@), final(steps_to_place).step_budgets@) == run_spec(
            step_models(old(steps_to_place).steps@),
            old(steps_to_place).step_budgets@,
            fuel0,
        )->0,
        final(steps_to_place).calendar_start == old(steps_to_place).calendar_start,
        final(steps_to_place).calendar_end == old(steps_to_place).calendar_end,
{
    let ghost target = run_spec(step_models(steps_to_place.steps@), steps_to_place.step_budgets@, fuel0);
    let ghost mut fuel: nat = fuel0;
    loop
        invariant_except_break
            run_spec(step_models(steps_to_place.steps@), steps_to_place.step_budgets@, fuel) == target,
        invariant
            target is Some,
            steps_to_place.calendar_start == old(steps_to_place).calendar_start,
            steps_to_place.calendar_end == old(steps_to_place).calendar_end,
        ensures
            (step_models(steps_to_place.steps@), steps_to_place.step_budgets@) == target->0,
            steps_to_place.calendar_start == old(steps_to_place).calendar_start,
            steps_to_place.calendar_end == old(steps_to_place).calendar_end,
        decreases fuel,
    {
        let ghost m0 = step_models(steps_to_place.steps@);
        proof {
            lemma_models_ok(steps_to_place.steps@);
        }
        let ghost before = steps_to_place.steps@;
        steps_to_place.sort_on_flexibility();
        proof {
            let t = choose|t: Seq<Step>| all_calculated(before, t) && steps_to_place.steps@ == sort_steps_spec(t);
            lemma_sort_models(t);
            assert(step_models(t) =~= m0.map_values(|m: StepModel| calculated(m)));
        }
        let ghost sorted = step_models(steps_to_place.steps@);
        assert(sorted.len() > 0);
        let first_ready = steps_to_place.steps[0].status == StepStatus::ReadyToSchedule;
        assert(sorted[0] == steps_to_place.steps@[0]@);
        if !first_ready {
            break;
        }
        let found = find_best_slots_for_first_step(steps_to_place.steps.as_slice());
        assert(found.is_some());
        match found {
            Some(chosen_slots) => {
                do_the_scheduling(steps_to_place, chosen_slots);
            },
            None => {
                break;
            },
        }
        proof {
            fuel = (fuel - 1) as nat;
        }
    }
}

/// Places the steps: again and again, the flexibilities are computed and the steps
/// sorted, and the first step, while it is ready to schedule, is placed in its best
/// slots. The steps must be placeable without failing.
pub fn step_placer(steps_to_place: StepsToPlace) -> (r: PlacedSteps)
    requires
        placed_spec(step_models(steps_to_place.steps@), steps_to_place.step_budgets@) is Some,
    ensures
        step_models(r.steps@) == (placed_spec(
            step_models(steps_to_place.steps@),
            steps_to_place.step_budgets@,
        )->0).0,
        r.calendar_start == steps_to_place.calendar_start,
        r.calendar_end == steps_to_place.calendar_end,
{
    let mut steps_to_place = steps_to_place;
    let ghost fuel = ready_count(step_models(steps_to_place.steps@));
    schedule(&mut steps_to_place, Ghost(fuel));
    PlacedSteps {
        calendar_start: steps_to_place.calendar_start,
        calendar_end: steps_to_place.calendar_end,
        steps: steps_to_place.steps,
    }
}

/// Steps ready to schedule come before all others.
pub open spec fn ready_first(t: Seq<StepModel>) -> bool {
    forall|i: int, j: int|
        0 <= i < j < t.len() && (#[trigger] t[j]).status == StepStatus::ReadyToSchedule
            ==> (#[trigger] t[i]).status == StepStatus::ReadyToSchedule
}

proof fn lemma_insert_ready_first(s: Seq<StepModel>, x: StepModel)
    requires
        ready_first(s),
    ensures
        ready_first(insert_model(s, x)),
        insert_model(s, x).len() == s.len() + 1,
        forall|i: int| 0 <= i < insert_model(s, x).len() ==> (#[trigger] insert_model(s, x)[i] == x || s.contains(insert_model(s, x)[i])),
    decreases s.len(),
{
    if s.len() == 0 {
    } else if step_cmp(s.last(), x) != 1 {
        let r = s.push(x);
        assert forall|i: int| 0 <= i < r.len() implies (#[trigger] r[i] == x || s.contains(r[i])) by {
            if i < s.len() {
                assert(r[i] == s[i]);
            }
        }
        assert forall|i: int, j: int|
            0 <= i < j < r.len() && (#[trigger] r[j]).status == StepStatus::ReadyToSchedule
                implies (#[trigger] r[i]).status == StepStatus::ReadyToSchedule by {
            if j == s.len() {
                assert(r[j] == x);
                if s.last().status != StepStatus::ReadyToSchedule {
                    assert(step_cmp(s.last(), x) == 1);
                }
                assert(s[s.len() - 1].status == StepStatus::ReadyToSchedule);
                assert(r[i] == s[i]);
            } else {
                assert(r[i] == s[i]);
                assert(r[j] == s[j]);
            }
        }
    } else {
        let p = s.drop_last();
        assert forall|i: int, j: int|
            0 <= i < j < p.len() && (#[trigger] p[j]).status == StepStatus::ReadyToSchedule
                implies (#[trigger] p[i]).status == StepStatus::ReadyToSchedule by {
            assert(p[i] == s[i]);
            assert(p[j] == s[j]);
        }
        lemma_insert_ready_first(p, x);
        let q = insert_model(p, x);
        let r = q.push(s.last());
        assert forall|i: int| 0 <= i < r.len() implies (#[trigger] r[i] == x || s.contains(r[i])) by {
            if i < q.len() {
                assert(r[i] == q[i]);
                if q[i] != x {
                    assert(p.contains(q[i]));
                    let w = choose|w: int| 0 <= w < p.len() && p[w] == q[i];
                    assert(s[w] == q[i]);
                }
            } else {
                assert(r[i] == s[s.len() - 1]);
            }
        }
        assert forall|i: int, j: int|
            0 <= i < j < r.len() && (#[trigger] r[j]).status == StepStatus::ReadyToSchedule
                implies (#[trigger] r[i]).status == StepStatus::ReadyToSchedule by {
            if j == q.len() {
                assert(r[j] == s.last());
                assert(r[i] == q[i]);
                if q[i] == x {
                    if x.status != StepStatus::ReadyToSchedule {
                        assert(step_cmp(s.last(), x) == -1);
                    }
                } else {
                    assert(p.contains(q[i]));
                    let w = choose|w: int| 0 <= w < p.len() && p[w] == q[i];
                    assert(s[w] == q[i]);
                    assert(s[s.len() - 1] == s.last());
                }
            } else {
                assert(r[i] == q[i]);
                assert(r[j] == q[j]);
            }
        }
    }
}

proof fn lemma_sort_ready_first(s: Seq<StepModel>)
    ensures
        ready_first(sort_models(s)),
        sort_models(s).len() == s.len(),
    decreases s.len(),
{
    if s.len() > 0 {
        lemma_sort_ready_first(s.drop_last());
        lemma_insert_ready_first(sort_models(s.drop_last()), s.last());
    }
}

/// When the step placer finishes, no step is left ready to schedule: every step is
/// placed, impossible, or was never ready.
pub proof fn lemma_placed_none_ready(steps: Seq<StepModel>, b: BudgetsModel, fuel: nat)
    requires
        run_spec(steps, b, fuel) is Some,
    ensures
        forall|k: int|
            0 <= k < (run_spec(steps, b, fuel)->0).0.len() ==> (#[trigger] (run_spec(
                steps,
                b,
                fuel,
            )->0).0[k]).status != StepStatus::ReadyToSchedule,
    decreases fuel,
{
    let t = sort_models(steps.map_values(|m: StepModel| calculated(m)));
    lemma_sort_ready_first(steps.map_values(|m: StepModel| calculated(m)));
    if t[0].status != StepStatus::ReadyToSchedule {
        assert forall|k: int| 0 <= k < t.len() implies (#[trigger] t[k]).status != StepStatus::ReadyToSchedule by {
            if k > 0 && t[k].status == StepStatus::ReadyToSchedule {
                assert(t[0].status == StepStatus::ReadyToSchedule);
            }
        }
    } else {
        let next = do_sched_spec(t, b, best_slots_spec(t)->0)->0;
        lemma_placed_none_ready(next.0, next.1, (fuel - 1) as nat);
    }
}

proof fn lemma_rc_concat(a: Seq<StepModel>, b: Seq<StepModel>)
    ensures
        ready_count(a + b) == ready_count(a) + ready_count(b),
    decreases b.len(),
{
    if b.len() == 0 {
        assert(a + b =~= a);
    } else {
        lemma_rc_concat(a, b.drop_last());
        assert((a + b).drop_last() =~= a + b.drop_last());
        assert((a + b).last() == b.last());
    }
}

proof fn lemma_rc_map_removed(s: Seq<StepModel>, c: Slot)
    ensures
        ready_count(s.map_values(|m: StepModel| removed_conflicts(m, c))) == ready_count(s),
    decreases s.len(),
{
    if s.len() > 0 {
        lemma_rc_map_removed(s.drop_last(), c);
        assert(s.map_values(|m: StepModel| removed_conflicts(m, c)).drop_last() =~= s.drop_last().map_values(
            |m: StepModel| removed_conflicts(m, c),
        ));
    }
}

proof fn lemma_rc_first(s: Seq<StepModel>)
    requires
        s.len() > 0,
    ensures
        ready_count(s) == ready_count(s.drop_first()) + if s[0].status == StepStatus::ReadyToSchedule {
            1int
        } else {
            0int
        },
    decreases s.len(),
{
    if s.len() > 1 {
        lemma_rc_first(s.drop_last());
        assert(s.drop_last().drop_first() =~= s.drop_first().drop_last());
        assert(s.drop_first().last() == s.last());
        assert(s.drop_last()[0] == s[0]);
        assert(ready_count(s.drop_first()) == ready_count(s.drop_first().drop_last()) + if s.drop_first().last().status == StepStatus::ReadyToSchedule {
            1nat
        } else {
            0nat
        });
    } else {
        assert(s.drop_first().len() == 0);
        assert(s.drop_last().len() == 0);
        assert(ready_count(s.drop_last()) == 0);
        assert(ready_count(s.drop_first()) == 0);
        assert(s.last() == s[0]);
    }
}

proof fn lemma_take_slots_scheduled(first: StepModel, chosen: Seq<Slot>, b: BudgetsModel, base: int, n: nat)
    requires
        take_slots(first, chosen, b, base, n) is Some,
    ensures
        ready_count((take_slots(first, chosen, b, base, n)->0).2) == 0,
    decreases n,
{
    if n > 0 {
        lemma_take_slots_scheduled(first, chosen, b, base, (n - 1) as nat);
        let st = take_slots(first, chosen, b, base, (n - 1) as nat)->0;
        let slot = chosen[n - 1];
        let x = scheduled_copy(first, st.1 + 1, slot);
        assert(st.2.push(x).drop_last() =~= st.2);
    }
}

/// Each pass of the step placer leaves fewer steps ready to schedule: the step it
/// places is dropped or marked impossible, and the copies it adds are scheduled.
pub proof fn lemma_pass_progress(t: Seq<StepModel>, b: BudgetsModel, chosen: Seq<Slot>)
    requires
        t.len() > 0,
        t[0].status == StepStatus::ReadyToSchedule,
        do_sched_spec(t, b, chosen) is Some,
    ensures
        ready_count((do_sched_spec(t, b, chosen)->0).0) < ready_count(t),
{
    let st = take_slots(t[0], chosen, b, t.len() as int, chosen.len())->0;
    lemma_take_slots_scheduled(t[0], chosen, b, t.len() as int, chosen.len());
    lemma_rc_concat(t, st.2);
    let all = (t + st.2).map_values(|m: StepModel| removed_conflicts(m, chosen[0]));
    lemma_rc_map_removed(t + st.2, chosen[0]);
    lemma_rc_first(all);
    assert(all[0].status == StepStatus::ReadyToSchedule);
    if st.0 > 0 {
        let u = all.update(0, StepModel { duration: st.0 as usize, status: StepStatus::Impossible, ..all[0] });
        lemma_rc_first(u);
        assert(u.drop_first() =~= all.drop_first());
    }
}

proof fn lemma_rc_calculated(s: Seq<StepModel>)
    ensures
        ready_count(s.map_values(|m: StepModel| calculated(m))) <= ready_count(s),
    decreases s.len(),
{
    if s.len() > 0 {
        lemma_rc_calculated(s.drop_last());
        assert(s.map_values(|m: StepModel| calculated(m)).drop_last() =~= s.drop_last().map_values(
            |m: StepModel| calculated(m),
        ));
    }
}

proof fn lemma_rc_insert(s: Seq<StepModel>, x: StepModel)
    ensures
        ready_count(insert_model(s, x)) == ready_count(s) + if x.status == StepStatus::ReadyToSchedule {
            1int
        } else {
            0int
        },
    decreases s.len(),
{
    if s.len() == 0 {
        assert(seq![x].drop_last() =~= Seq::<StepModel>::empty());
        assert(ready_count(Seq::<StepModel>::empty()) == 0);
        assert(seq![x].last() == x);
    } else if step_cmp(s.last(), x) != 1 {
        assert(s.push(x).drop_last() =~= s);
        assert(s.push(x).last() == x);
    } else {
        lemma_rc_insert(s.drop_last(), x);
        let q = insert_model(s.drop_last(), x);
        assert(q.push(s.last()).drop_last() =~= q);
        assert(q.push(s.last()).last() == s.last());
        assert(ready_count(q.push(s.last())) == ready_count(q) + if s.last().status == StepStatus::ReadyToSchedule {
            1nat
        } else {
            0nat
        });
    }
}

proof fn lemma_rc_sort(s: Seq<StepModel>)
    ensures
        ready_count(sort_models(s)) == ready_count(s),
    decreases s.len(),
{
    if s.len() > 0 {
        lemma_rc_sort(s.drop_last());
        lemma_rc_insert(sort_models(s.drop_last()), s.last());
    }
}

/// The step placer allows as many passes as there are steps ready to schedule, and
/// that is enough: allowing one pass more never changes the placing.
pub proof fn lemma_fuel_suffices(steps: Seq<StepModel>, b: BudgetsModel, fuel: nat)
    requires
        fuel >= ready_count(steps),
    ensures
        run_spec(steps, b, fuel) == run_spec(steps, b, fuel + 1),
    decreases fuel,
{
    if models_ok(steps) {
        let c = steps.map_values(|m: StepModel| calculated(m));
        let t = sort_models(c);
        lemma_rc_calculated(steps);
        lemma_rc_sort(c);
        if t.len() > 0 && t[0].status == StepStatus::ReadyToSchedule && conflicts_fit(t[0], t) {
            let chosen = best_slots_spec(t)->0;
            if do_sched_spec(t, b, chosen) is Some {
                lemma_pass_progress(t, b, chosen);
                let next = do_sched_spec(t, b, chosen)->0;
                lemma_rc_first(t);
                assert(fuel >= 1);
                lemma_fuel_suffices(next.0, next.1, (fuel - 1) as nat);
            }
        }
    }
}

} // verus!
