use vstd::prelude::*;
use crate::goal::{repeatance_spec, BudgetType, Goal};
use crate::slot::{slot_hours, slot_ok, Slot};

verus! {

/// Hours used, and the bounds on them, within one budget period.
#[derive(Debug, Clone, Copy, PartialEq, Eq, Structural)]
pub struct SlotBudget {
    pub slot: Slot,
    pub min: Option<usize>,
    pub max: Option<usize>,
    pub used: usize,
}

/// A budget of a goal: its period type and the per-period slot budgets.
#[derive(Debug, Clone)]
pub struct StepBudget {
    pub step_budget_type: BudgetType,
    pub slot_budgets: Vec<SlotBudget>,
    pub min: Option<usize>,
    pub max: Option<usize>,
}

/// All budgets: for each budgeted goal its budgets, and for each goal the ids of the
/// budgeted goals whose budgets it counts against.
#[derive(Debug, Clone)]
pub struct StepBudgets {
    pub calendar_start: i64,
    pub calendar_end: i64,
    pub budget_ids_map: Vec<(String, Vec<String>)>,
    pub budget_map: Vec<(String, Vec<StepBudget>)>,
}

impl StepBudgets {
    /// Creates empty budgets for the calendar `[calendar_start, calendar_end)`.
    pub fn new(calendar_start: &i64, calendar_end: &i64) -> (b: StepBudgets)
        ensures
            b.calendar_start == *calendar_start,
            b.calendar_end == *calendar_end,
            b.budget_ids_map@.len() == 0,
            b.budget_map@.len() == 0,
    {
        StepBudgets {
            calendar_start: *calendar_start,
            calendar_end: *calendar_end,
            budget_ids_map: Vec::new(),
            budget_map: Vec::new(),
        }
    }
}

/// What a budget says, its slot budgets as a sequence.
pub struct StepBudgetModel {
    pub step_budget_type: BudgetType,
    pub slot_budgets: Seq<SlotBudget>,
    pub min: Option<usize>,
    pub max: Option<usize>,
}

impl View for StepBudget {
    type V = StepBudgetModel;

    open spec fn view(&self) -> StepBudgetModel {
        StepBudgetModel {
            step_budget_type: self.step_budget_type,
            slot_budgets: self.slot_budgets@,
            min: self.min,
            max: self.max,
        }
    }
}

/// The budgets of a goal, as models.
pub open spec fn budget_models(v: Seq<StepBudget>) -> Seq<StepBudgetModel> {
    v.map_values(|b: StepBudget| b@)
}

/// What all budgets say: identifiers as texts, budgets as models.
pub struct BudgetsModel {
    pub calendar_start: i64,
    pub calendar_end: i64,
    pub ids: Seq<(Seq<char>, Seq<Seq<char>>)>,
    pub map: Seq<(Seq<char>, Seq<StepBudgetModel>)>,
}

/// The texts of a sequence of strings.
pub open spec fn texts(v: Seq<String>) -> Seq<Seq<char>> {
    v.map_values(|s: String| s@)
}

impl View for StepBudgets {
    type V = BudgetsModel;

    open spec fn view(&self) -> BudgetsModel {
        BudgetsModel {
            calendar_start: self.calendar_start,
            calendar_end: self.calendar_end,
            ids: self.budget_ids_map@.map_values(|e: (String, Vec<String>)| (e.0@, texts(e.1@))),
            map: self.budget_map@.map_values(|e: (String, Vec<StepBudget>)| (e.0@, budget_models(e.1@))),
        }
    }
}

/// Does the slot lie within the period of the slot budget?
pub open spec fn within_budget(slot: Slot, sb: SlotBudget) -> bool {
    slot.start >= sb.slot.start && slot.end <= sb.slot.end
}

/// Would taking `slot` keep every period of the budget that holds it within its maximum?
pub open spec fn test_decrement_spec(b: StepBudgetModel, slot: Slot) -> bool {
    forall|i: int|
        0 <= i < b.slot_budgets.len() ==> !(within_budget(slot, #[trigger] b.slot_budgets[i])
            && b.slot_budgets[i].max is Some && b.slot_budgets[i].used + slot_hours(slot)
            > b.slot_budgets[i].max->0)
}

/// The budget after taking `slot`: every period that holds it has its hours added;
/// nothing when one of them would pass its maximum or overflow.
pub open spec fn decrement_spec(b: StepBudgetModel, slot: Slot) -> Option<StepBudgetModel> {
    let h = slot_hours(slot);
    if exists|i: int|
        0 <= i < b.slot_budgets.len() && within_budget(slot, #[trigger] b.slot_budgets[i]) && (
        b.slot_budgets[i].used + h > usize::MAX || (b.slot_budgets[i].max is Some
            && b.slot_budgets[i].used + h > b.slot_budgets[i].max->0)) {
        None
    } else {
        Some(
            StepBudgetModel {
                slot_budgets: b.slot_budgets.map_values(
                    |sb: SlotBudget|
                        if within_budget(slot, sb) {
                            SlotBudget { used: (sb.used + h) as usize, ..sb }
                        } else {
                            sb
                        },
                ),
                ..b
            },
        )
    }
}

/// A budget whose test passes for a slot can take that slot: taking it succeeds, each
/// period that holds the slot gets the slot's hours and stays within its maximum, and
/// every other period stays as it was. A period without a maximum must have room for
/// the hours in a `usize`.
pub proof fn lemma_passing_test_allows_decrement(b: StepBudgetModel, slot: Slot)
    requires
        slot_ok(slot),
        test_decrement_spec(b, slot),
        forall|i: int|
            0 <= i < b.slot_budgets.len() && within_budget(slot, #[trigger] b.slot_budgets[i])
                && b.slot_budgets[i].max is None ==> b.slot_budgets[i].used + slot_hours(slot)
                <= usize::MAX,
    ensures
        decrement_spec(b, slot) is Some,
        (decrement_spec(b, slot)->0).slot_budgets.len() == b.slot_budgets.len(),
        forall|i: int|
            0 <= i < b.slot_budgets.len() ==> {
                let sb = b.slot_budgets[i];
                let nb = #[trigger] (decrement_spec(b, slot)->0).slot_budgets[i];
                if within_budget(slot, sb) {
                    &&& nb.used == sb.used + slot_hours(slot)
                    &&& (sb.max matches Some(m) ==> nb.used <= m)
                    &&& nb.slot == sb.slot && nb.min == sb.min && nb.max == sb.max
                } else {
                    nb == sb
                }
            },
{
    let h = slot_hours(slot);
    assert(h >= 0) by (nonlinear_arith)
        requires
            h == (slot.end - slot.start) / 3600,
            slot.end - slot.start >= 0,
    ;
    assert forall|i: int|
        0 <= i < b.slot_budgets.len() && within_budget(slot, #[trigger] b.slot_budgets[i]) implies !(
        b.slot_budgets[i].used + h > usize::MAX || (b.slot_budgets[i].max is Some
            && b.slot_budgets[i].used + h > b.slot_budgets[i].max->0)) by {
        if b.slot_budgets[i].max is Some {
            assert(!(b.slot_budgets[i].used + h > b.slot_budgets[i].max->0));
        }
    }
}

impl StepBudget {
    /// Would taking `slot` keep every period that holds it within its maximum?
    pub fn test_decrement(&self, slot: &Slot) -> (r: bool)
        requires
            slot_ok(*slot),
        ensures
            r == test_decrement_spec(self@, *slot),
    {
        let h = slot.span();
        let mut result = true;
        let mut i: usize = 0;
        while i < self.slot_budgets.len()
            invariant
                slot_ok(*slot),
                h == slot_hours(*slot),
                i <= self.slot_budgets.len(),
                result == (forall|k: int|
                    0 <= k < i ==> !(within_budget(*slot, #[trigger] self.slot_budgets@[k])
                        && self.slot_budgets@[k].max is Some && self.slot_budgets@[k].used + h
                        > self.slot_budgets@[k].max->0)),
            decreases self.slot_budgets.len() - i,
        {
            let sb = self.slot_budgets[i];
            let exceeds = match sb.max {
                Some(m) => sb.used as u128 + h as u128 > m as u128,
                None => false,
            };
            if slot.start >= sb.slot.start && slot.end <= sb.slot.end && exceeds {
                result = false;
            }
            i = i + 1;
        }
        result
    }

    /// Adds the hours of `slot` to every period of the budget that holds it.
    pub fn decrement(&mut self, slot: &Slot)
        requires
            slot_ok(*slot),
            decrement_spec(old(self)@, *slot) is Some,
        ensures
            final(self)@ == decrement_spec(old(self)@, *slot)->0,
    {
        let h = slot.span();
        let ghost b0 = self@;
        let mut i: usize = 0;
        while i < self.slot_budgets.len()
            invariant
                slot_ok(*slot),
                h == slot_hours(*slot),
                decrement_spec(b0, *slot) is Some,
                self.step_budget_type == b0.step_budget_type,
                self.min == b0.min,
                self.max == b0.max,
                i <= self.slot_budgets.len(),
                self.slot_budgets@.len() == b0.slot_budgets.len(),
                forall|k: int| i <= k < self.slot_budgets@.len() ==> #[trigger] self.slot_budgets@[k] == b0.slot_budgets[k],
                forall|k: int| 0 <= k < i ==> #[trigger] self.slot_budgets@[k] == (decrement_spec(b0, *slot)->0).slot_budgets[k],
            decreases self.slot_budgets.len() - i,
        {
            let sb = self.slot_budgets[i];
            if slot.start >= sb.slot.start && slot.end <= sb.slot.end {
                proof {
                    assert(within_budget(*slot, b0.slot_budgets[i as int]));
                }
                let new_sb = SlotBudget { used: sb.used + h, ..sb };
                self.slot_budgets.set(i, new_sb);
            }
            i = i + 1;
        }
        assert(self.slot_budgets@ =~= (decrement_spec(b0, *slot)->0).slot_budgets);
    }

    /// A copy of the budget.
    pub fn duplicate(&self) -> (r: StepBudget)
        ensures
            r@ == self@,
    {
        let mut v: Vec<SlotBudget> = Vec::new();
        let mut i: usize = 0;
        while i < self.slot_budgets.len()
            invariant
                i <= self.slot_budgets.len(),
                v@ == self.slot_budgets@.take(i as int),
            decreases self.slot_budgets.len() - i,
        {
            v.push(self.slot_budgets[i]);
            i = i + 1;
            assert(v@ =~= self.slot_budgets@.take(i as int));
        }
        assert(self.slot_budgets@.take(self.slot_budgets.len() as int) =~= self.slot_budgets@);
        StepBudget {
            step_budget_type: self.step_budget_type,
            slot_budgets: v,
            min: self.min,
            max: self.max,
        }
    }
}

/// The position of the first entry keyed `key`, when there is one.
pub open spec fn first_index<V>(s: Seq<(Seq<char>, V)>, key: Seq<char>) -> Option<int>
    decreases s.len(),
{
    if s.len() == 0 {
        None
    } else if s[0].0 == key {
        Some(0)
    } else {
        match first_index(s.drop_first(), key) {
            Some(i) => Some(i + 1),
            None => None,
        }
    }
}

/// The first entry keyed `key` is keyed `key`, and no earlier one is.
pub proof fn lemma_first_index<V>(s: Seq<(Seq<char>, V)>, key: Seq<char>)
    ensures
        match first_index(s, key) {
            Some(i) => 0 <= i < s.len() && s[i].0 == key && forall|j: int|
                0 <= j < i ==> (#[trigger] s[j]).0 != key,
            None => forall|j: int| 0 <= j < s.len() ==> (#[trigger] s[j]).0 != key,
        },
    decreases s.len(),
{
    if s.len() > 0 && s[0].0 != key {
        lemma_first_index(s.drop_first(), key);
        assert forall|j: int| 1 <= j < s.len() implies #[trigger] s[j] == s.drop_first()[j - 1] by {}
    }
}

/// The budgets of each goal after taking `slot` in each of the `ids`' budgets, in
/// order; nothing when an id has no budgets or a budget would pass its maximum.
pub open spec fn apply_decrements(
    map: Seq<(Seq<char>, Seq<StepBudgetModel>)>,
    ids: Seq<Seq<char>>,
    slot: Slot,
) -> Option<Seq<(Seq<char>, Seq<StepBudgetModel>)>>
    decreases ids.len(),
{
    if ids.len() == 0 {
        Some(map)
    } else {
        match apply_decrements(map, ids.drop_last(), slot) {
            None => None,
            Some(m) => match first_index(m, ids.last()) {
                None => None,
                Some(idx) => match decrement_all_spec(m[idx].1, slot) {
                    None => None,
                    Some(v) => Some(m.update(idx, (m[idx].0, v))),
                },
            },
        }
    }
}

/// Each budget of a list after taking `slot`; nothing when one would pass its maximum.
pub open spec fn decrement_all_spec(v: Seq<StepBudgetModel>, slot: Slot) -> Option<Seq<StepBudgetModel>>
    decreases v.len(),
{
    if v.len() == 0 {
        Some(v)
    } else {
        match (decrement_all_spec(v.drop_last(), slot), decrement_spec(v.last(), slot)) {
            (Some(a), Some(b)) => Some(a.push(b)),
            _ => None,
        }
    }
}

/// Does every id have budgets, and would every one of them allow `slot`?
pub open spec fn all_present(map: Seq<(Seq<char>, Seq<StepBudgetModel>)>, ids: Seq<Seq<char>>) -> bool {
    forall|k: int| 0 <= k < ids.len() ==> first_index(map, #[trigger] ids[k]) is Some
}

/// Would every budget of goal `id` allow `slot`?
pub open spec fn list_passes(map: Seq<(Seq<char>, Seq<StepBudgetModel>)>, id: Seq<char>, slot: Slot) -> bool {
    let v = map[first_index(map, id)->0].1;
    forall|j: int| 0 <= j < v.len() ==> test_decrement_spec(#[trigger] v[j], slot)
}

/// Would every budget of every id allow `slot`?
pub open spec fn all_pass(map: Seq<(Seq<char>, Seq<StepBudgetModel>)>, ids: Seq<Seq<char>>, slot: Slot) -> bool {
    forall|k: int| 0 <= k < ids.len() ==> #[trigger] list_passes(map, ids[k], slot)
}

/// Whether the budgets that goal `goal_id` counts against allow `slot`, with the
/// budgets after taking it when they do (a goal without budgets is always allowed);
/// nothing when an id has no budgets or taking it would pass a maximum.
pub open spec fn is_allowed_spec(b: BudgetsModel, slot: Slot, goal_id: Seq<char>) -> Option<(bool, BudgetsModel)> {
    match first_index(b.ids, goal_id) {
        None => Some((true, b)),
        Some(i) => {
            let ids = b.ids[i].1;
            if !all_present(b.map, ids) {
                None
            } else if all_pass(b.map, ids, slot) {
                match apply_decrements(b.map, ids, slot) {
                    None => None,
                    Some(m) => Some((true, BudgetsModel { map: m, ..b })),
                }
            } else {
                Some((false, b))
            }
        },
    }
}

proof fn lemma_apply_prefix(
    map: Seq<(Seq<char>, Seq<StepBudgetModel>)>,
    ids: Seq<Seq<char>>,
    slot: Slot,
    k: int,
)
    requires
        0 <= k <= ids.len(),
        apply_decrements(map, ids, slot) is Some,
    ensures
        apply_decrements(map, ids.take(k), slot) is Some,
    decreases ids.len(),
{
    if k == ids.len() {
        assert(ids.take(k) =~= ids);
    } else {
        lemma_apply_prefix(map, ids.drop_last(), slot, k);
        assert(ids.drop_last().take(k) =~= ids.take(k));
    }
}

/// The index of the first budget entry keyed `key`.
fn find_budget_index(map: &Vec<(String, Vec<StepBudget>)>, key: &String) -> (r: Option<usize>)
    ensures
        match r {
            Some(i) => i < map.len() && first_index(
                map@.map_values(|e: (String, Vec<StepBudget>)| (e.0@, budget_models(e.1@))),
                key@,
            ) == Some(i as int),
            None => first_index(
                map@.map_values(|e: (String, Vec<StepBudget>)| (e.0@, budget_models(e.1@))),
                key@,
            ) is None,
        },
{
    let ghost m = map@.map_values(|e: (String, Vec<StepBudget>)| (e.0@, budget_models(e.1@)));
    proof {
        lemma_first_index(m, key@);
    }
    let mut i: usize = 0;
    while i < map.len()
        invariant
            i <= map.len(),
            m == map@.map_values(|e: (String, Vec<StepBudget>)| (e.0@, budget_models(e.1@))),
            forall|j: int| 0 <= j < i ==> (#[trigger] m[j]).0 != key@,
            match first_index(m, key@) {
                Some(x) => 0 <= x < m.len() && m[x].0 == key@ && forall|j: int|
                    0 <= j < x ==> (#[trigger] m[j]).0 != key@,
                None => forall|j: int| 0 <= j < m.len() ==> (#[trigger] m[j]).0 != key@,
            },
        decreases map.len() - i,
    {
        if map[i].0 == *key {
            assert(m[i as int].0 == key@);
            return Some(i);
        }
        i = i + 1;
    }
    None
}

/// The index of the first budget-ids entry keyed `key`.
fn find_ids_index(ids: &Vec<(String, Vec<String>)>, key: &String) -> (r: Option<usize>)
    ensures
        match r {
            Some(i) => i < ids.len() && first_index(
                ids@.map_values(|e: (String, Vec<String>)| (e.0@, texts(e.1@))),
                key@,
            ) == Some(i as int),
            None => first_index(ids@.map_values(|e: (String, Vec<String>)| (e.0@, texts(e.1@))), key@)
                is None,
        },
{
    let ghost m = ids@.map_values(|e: (String, Vec<String>)| (e.0@, texts(e.1@)));
    proof {
        lemma_first_index(m, key@);
    }
    let mut i: usize = 0;
    while i < ids.len()
        invariant
            i <= ids.len(),
            m == ids@.map_values(|e: (String, Vec<String>)| (e.0@, texts(e.1@))),
            forall|j: int| 0 <= j < i ==> (#[trigger] m[j]).0 != key@,
            match first_index(m, key@) {
                Some(x) => 0 <= x < m.len() && m[x].0 == key@ && forall|j: int|
                    0 <= j < x ==> (#[trigger] m[j]).0 != key@,
                None => forall|j: int| 0 <= j < m.len() ==> (#[trigger] m[j]).0 != key@,
            },
        decreases ids.len() - i,
    {
        if ids[i].0 == *key {
            assert(m[i as int].0 == key@);
            return Some(i);
        }
        i = i + 1;
    }
    None
}

/// Each budget of the list after taking `slot`.
fn decrement_all(v: &Vec<StepBudget>, slot: &Slot) -> (r: Vec<StepBudget>)
    requires
        slot_ok(*slot),
        decrement_all_spec(budget_models(v@), *slot) is Some,
    ensures
        budget_models(r@) == decrement_all_spec(budget_models(v@), *slot)->0,
{
    let mut out: Vec<StepBudget> = Vec::new();
    let mut i: usize = 0;
    proof {
        lemma_decrement_all_prefix(budget_models(v@), *slot, v.len() as int);
    }
    while i < v.len()
        invariant
            slot_ok(*slot),
            i <= v.len(),
            decrement_all_spec(budget_models(v@), *slot) is Some,
            forall|k: int| 0 <= k <= v.len() ==> #[trigger] decrement_all_spec(budget_models(v@).take(k), *slot) is Some,
            budget_models(out@) == decrement_all_spec(budget_models(v@).take(i as int), *slot)->0,
        decreases v.len() - i,
    {
        let ghost prefix = budget_models(v@).take(i + 1);
        proof {
            assert(prefix.drop_last() =~= budget_models(v@).take(i as int));
            assert(prefix.last() == v@[i as int]@);
            assert(decrement_all_spec(prefix, *slot) is Some);
        }
        let mut b = v[i].duplicate();
        b.decrement(slot);
        let ghost before = out@;
        out.push(b);
        assert(budget_models(out@) =~= budget_models(before).push(b@));
        i = i + 1;
    }
    assert(budget_models(v@).take(v.len() as int) =~= budget_models(v@));
    out
}

proof fn lemma_decrement_all_prefix(v: Seq<StepBudgetModel>, slot: Slot, n: int)
    requires
        n == v.len(),
        decrement_all_spec(v, slot) is Some,
    ensures
        forall|k: int| 0 <= k <= n ==> #[trigger] decrement_all_spec(v.take(k), slot) is Some,
    decreases v.len(),
{
    assert(v.take(n) =~= v);
    if n > 0 {
        lemma_decrement_all_prefix(v.drop_last(), slot, n - 1);
        assert forall|k: int| 0 <= k <= n implies #[trigger] decrement_all_spec(v.take(k), slot) is Some by {
            if k < n {
                assert(v.drop_last().take(k) =~= v.take(k));
            }
        }
    }
}

impl StepBudgets {
    /// Whether the budgets that goal `goal_id` counts against allow `slot`; when they
    /// do, the slot's hours are taken from each of them. A goal without budgets is
    /// always allowed.
    pub fn is_allowed_by_budget(&mut self, slot: &Slot, goal_id: &String) -> (r: bool)
        requires
            slot_ok(*slot),
            is_allowed_spec(old(self)@, *slot, goal_id@) is Some,
        ensures
            (r, final(self)@) == is_allowed_spec(old(self)@, *slot, goal_id@)->0,
    {
        let found = find_ids_index(&self.budget_ids_map, goal_id);
        let i = match found {
            None => {
                return true;
            },
            Some(i) => i,
        };
        let ids = crate::step::clone_strings(&self.budget_ids_map[i].1);
        let allowed = self.budgets_allow(&ids, slot);
        if !allowed {
            return false;
        }
        self.take_from_budgets(&ids, slot);
        true
    }

    fn budgets_allow(&self, ids: &Vec<String>, slot: &Slot) -> (r: bool)
        requires
            slot_ok(*slot),
            all_present(self@.map, texts(ids@)),
        ensures
            r == all_pass(self@.map, texts(ids@), *slot),
    {
        let ghost tids = texts(ids@);
        let ghost map = self@.map;
        let mut decrement_all_ok = true;
        let mut k: usize = 0;
        while k < ids.len()
            invariant
                slot_ok(*slot),
                map == self@.map,
                tids == texts(ids@),
                all_present(map, tids),
                k <= ids.len(),
                decrement_all_ok == (forall|a: int| 0 <= a < k ==> #[trigger] list_passes(map, tids[a], *slot)),
            decreases ids.len() - k,
        {
            proof {
                assert(first_index(map, tids[k as int]) is Some);
            }
            let idx = match find_budget_index(&self.budget_map, &ids[k]) {
                Some(idx) => idx,
                None => 0,
            };
            assert(tids[k as int] == ids@[k as int]@);
            let list = &self.budget_map[idx].1;
            let mut list_ok = true;
            let mut j: usize = 0;
            while j < list.len()
                invariant
                    slot_ok(*slot),
                    map == self@.map,
                    idx < self.budget_map.len(),
                    *list == self.budget_map@[idx as int].1,
                    j <= list.len(),
                    list_ok == (forall|jj: int| 0 <= jj < j ==> test_decrement_spec(#[trigger] map[idx as int].1[jj], *slot)),
                decreases list.len() - j,
            {
                assert(map[idx as int].1[j as int] == list@[j as int]@);
                if !list[j].test_decrement(slot) {
                    list_ok = false;
                }
                j = j + 1;
            }
            proof {
                assert(list_ok == list_passes(map, tids[k as int], *slot));
            }
            if !list_ok {
                decrement_all_ok = false;
            }
            k = k + 1;
        }
        decrement_all_ok
    }

    fn take_from_budgets(&mut self, ids: &Vec<String>, slot: &Slot)
        requires
            slot_ok(*slot),
            apply_decrements(old(self)@.map, texts(ids@), *slot) is Some,
        ensures
            final(self)@ == (BudgetsModel { map: apply_decrements(old(self)@.map, texts(ids@), *slot)->0, ..old(self)@ }),
    {
        let ghost b0 = self@;
        let ghost tids = texts(ids@);
        proof {
            lemma_apply_prefix(b0.map, tids, *slot, tids.len() as int);
            assert(tids.take(0) =~= Seq::<Seq<char>>::empty());
        }
        let mut k: usize = 0;
        while k < ids.len()
            invariant
                slot_ok(*slot),
                tids == texts(ids@),
                apply_decrements(b0.map, tids, *slot) is Some,
                k <= ids.len(),
                apply_decrements(b0.map, tids.take(k as int), *slot) is Some,
                self@ == (BudgetsModel { map: apply_decrements(b0.map, tids.take(k as int), *slot)->0, ..b0 }),
            decreases ids.len() - k,
        {
            proof {
                lemma_apply_prefix(b0.map, tids, *slot, k + 1);
                assert(tids.take(k + 1).drop_last() =~= tids.take(k as int));
                assert(tids.take(k + 1).last() == ids@[k as int]@);
            }
            let ghost m = self@.map;
            let idx = match find_budget_index(&self.budget_map, &ids[k]) {
                Some(idx) => idx,
                None => 0,
            };
            let new_list = decrement_all(&self.budget_map[idx].1, slot);
            let key = self.budget_map[idx].0.clone();
            self.budget_map.set(idx, (key, new_list));
            proof {
                assert(self@.map =~= m.update(idx as int, (m[idx as int].0, budget_models(new_list@))));
            }
            k = k + 1;
        }
        proof {
            assert(tids.take(ids.len() as int) =~= tids);
        }
    }
}

/// The repetition a goal takes from all budgets: from the first budget listed for it,
/// when there is one; with no budgets at all, from its own budgets.
pub open spec fn goal_repeatance(g: Goal, step_budgets: Option<StepBudgets>) -> Option<crate::goal::Repetition> {
    match step_budgets {
        Some(sb) => match first_index(sb@.map, g.id@) {
            Some(i) => if sb.budget_map@[i].1@.len() > 0 {
                repeatance_spec(g, Some(sb.budget_map@[i].1@[0]))
            } else {
                g.repeat
            },
            None => g.repeat,
        },
        None => repeatance_spec(g, None),
    }
}

/// Gives each budgeted goal without a repetition the one its budgets imply.
pub fn configure_goals_repeatance(goals: &mut Vec<Goal>, step_budgets: Option<&StepBudgets>)
    ensures
        final(goals)@.len() == old(goals)@.len(),
        forall|i: int|
            0 <= i < old(goals)@.len() ==> #[trigger] final(goals)@[i] == (Goal {
                repeat: goal_repeatance(
                    old(goals)@[i],
                    match step_budgets {
                        Some(b) => Some(*b),
                        None => None,
                    },
                ),
                ..old(goals)@[i]
            }),
{
    let ghost g0 = goals@;
    let ghost sbo = match step_budgets {
        Some(b) => Some(*b),
        None => None,
    };
    let mut i: usize = 0;
    while i < goals.len()
        invariant
            i <= goals.len(),
            goals@.len() == g0.len(),
            sbo == match step_budgets {
                Some(b) => Some(*b),
                None => None::<StepBudgets>,
            },
            forall|k: int| 0 <= k < i ==> #[trigger] goals@[k] == (Goal { repeat: goal_repeatance(g0[k], sbo), ..g0[k] }),
            forall|k: int| i <= k < goals.len() ==> #[trigger] goals@[k] == g0[k],
        decreases goals.len() - i,
    {
        let mut g = goals.remove(i);
        assert(g == g0[i as int]);
        match step_budgets {
            Some(sb) => {
                match find_budget_index(&sb.budget_map, &g.id) {
                    Some(idx) => {
                        let list = &sb.budget_map[idx].1;
                        let mut j: usize = 0;
                        while j < list.len()
                            invariant
                                j <= list.len(),
                                *list == sb.budget_map@[idx as int].1,
                                g.id == g0[i as int].id,
                                j == 0 ==> g == g0[i as int],
                                j > 0 ==> g == (Goal { repeat: repeatance_spec(g0[i as int], Some(list@[0])), ..g0[i as int] }),
                            decreases list.len() - j,
                        {
                            g.configure_repeatance(Some(&list[j]));
                            j = j + 1;
                        }
                    },
                    None => {},
                }
            },
            None => {
                g.configure_repeatance(None);
            },
        }
        goals.insert(i, g);
        i = i + 1;
    }
}

} // verus!
