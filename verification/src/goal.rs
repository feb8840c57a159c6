use vstd::prelude::*;
use crate::timing::TimeFilter;
use crate::budget::StepBudget;

verus! {

/// Tags that steer how the steps of a goal are generated and ordered.
#[derive(PartialEq, Eq, Structural, Debug, Clone, Copy)]
pub enum Tag {
    IgnoreStepGeneration,
    Optional,
    Filler,
    FlexDur,
    FlexNum,
    Budget,
    Remove,
    Weekly,
}

/// How often a goal repeats.
#[derive(PartialEq, Eq, Structural, Debug, Clone, Copy)]
pub enum Repetition {
    DAILY(usize),
    HOURLY,
    Weekly(usize),
    WEEKDAYS,
    WEEKENDS,
    FlexDaily(usize, usize),
    FlexWeekly(usize, usize),
}

/// The period a budget applies to.
#[derive(PartialEq, Eq, Structural, Debug, Clone, Copy)]
pub enum BudgetType {
    Weekly,
    Daily,
}

/// Minimum and maximum hours to spend on a goal per period.
#[derive(PartialEq, Eq, Structural, Debug, Clone, Copy)]
pub struct Budget {
    pub budget_type: BudgetType,
    pub min: Option<usize>,
    pub max: Option<usize>,
}

/// A goal as given by the user; times are timestamps.
#[derive(Debug, Clone)]
pub struct Goal {
    pub id: String,
    pub title: String,
    pub min_duration: Option<usize>,
    pub start: Option<i64>,
    pub deadline: Option<i64>,
    pub repeat: Option<Repetition>,
    pub filters: Option<TimeFilter>,
    pub children: Option<Vec<String>>,
    pub budgets: Option<Vec<Budget>>,
    pub tags: Vec<Tag>,
    pub after_goals: Option<Vec<String>>,
}

/// Does `tags` hold `t`?
pub fn has_tag(tags: &Vec<Tag>, t: Tag) -> (r: bool)
    ensures
        r == tags@.contains(t),
{
    let mut j: usize = 0;
    while j < tags.len()
        invariant
            j <= tags@.len(),
            forall|k: int| 0 <= k < j ==> tags@[k] != t,
        decreases tags@.len() - j,
    {
        if tags[j] == t {
            assert(tags@[j as int] == t);
            return true;
        }
        j += 1;
    }
    false
}

/// Does some budget of the list have the given period type?
pub open spec fn has_budget_type(budgets: Seq<Budget>, t: BudgetType) -> bool {
    exists|i: int| 0 <= i < budgets.len() && (#[trigger] budgets[i]).budget_type == t
}

/// The repetition a budgeted goal without one takes: daily or weekly as the budget
/// (or, without one, any daily budget of the goal) says, as many times as the budget
/// has periods (once without one). Other goals keep theirs.
pub open spec fn repeatance_spec(g: Goal, step_budget: Option<StepBudget>) -> Option<Repetition> {
    if g.budgets is None || g.repeat is Some {
        g.repeat
    } else {
        match step_budget {
            Some(b) => if b.step_budget_type == BudgetType::Daily {
                Some(Repetition::DAILY(b.slot_budgets@.len() as usize))
            } else {
                Some(Repetition::Weekly(b.slot_budgets@.len() as usize))
            },
            None => if has_budget_type(g.budgets->0@, BudgetType::Daily) {
                Some(Repetition::DAILY(1))
            } else {
                Some(Repetition::Weekly(1))
            },
        }
    }
}

impl Goal {
    /// Gives a budgeted goal without a repetition the one its budget implies (see
    /// `repeatance_spec`); any other goal stays as it is.
    pub fn configure_repeatance(&mut self, step_budget: Option<&StepBudget>)
        ensures
            *final(self) == (Goal {
                repeat: repeatance_spec(
                    *old(self),
                    match step_budget {
                        Some(b) => Some(*b),
                        None => None,
                    },
                ),
                ..*old(self)
            }),
    {
        if self.budgets.is_none() || self.repeat.is_some() {
            return;
        }
        match step_budget {
            Some(budget) => {
                let repeatance = budget.slot_budgets.len();
                if budget.step_budget_type == BudgetType::Daily {
                    self.repeat = Some(Repetition::DAILY(repeatance));
                } else {
                    self.repeat = Some(Repetition::Weekly(repeatance));
                }
            },
            None => {
                let mut found_daily_budget = false;
                match &self.budgets {
                    Some(budgets) => {
                        let mut i: usize = 0;
                        while i < budgets.len()
                            invariant
                                i <= budgets.len(),
                                found_daily_budget == exists|k: int| 0 <= k < i && (#[trigger] budgets@[k]).budget_type == BudgetType::Daily,
                            decreases budgets.len() - i,
                        {
                            if budgets[i].budget_type == BudgetType::Daily {
                                found_daily_budget = true;
                            }
                            i = i + 1;
                        }
                    },
                    None => {},
                }
                if found_daily_budget {
                    self.repeat = Some(Repetition::DAILY(1));
                } else {
                    self.repeat = Some(Repetition::Weekly(1));
                }
            },
        }
    }
}

/// The goal tagged `Budget` when it has budgets.
pub open spec fn tagged_spec(g: Goal) -> Seq<Tag> {
    if g.budgets is Some {
        g.tags@.push(Tag::Budget)
    } else {
        g.tags@
    }
}

/// Tags every goal that has budgets with `Budget`.
pub fn tag_budgeted_goals(goals: &mut Vec<Goal>)
    ensures
        final(goals)@.len() == old(goals)@.len(),
        forall|i: int|
            0 <= i < old(goals)@.len() ==> (#[trigger] final(goals)@[i]).tags@ == tagged_spec(old(goals)@[i])
                && final(goals)@[i].id == old(goals)@[i].id && final(goals)@[i].budgets == old(goals)@[i].budgets
                && final(goals)@[i].repeat == old(goals)@[i].repeat && final(goals)@[i].children == old(goals)@[i].children,
{
    let ghost g0 = goals@;
    let mut i: usize = 0;
    while i < goals.len()
        invariant
            i <= goals.len(),
            goals@.len() == g0.len(),
            forall|k: int|
                0 <= k < i ==> (#[trigger] goals@[k]).tags@ == tagged_spec(g0[k]) && goals@[k].id == g0[k].id
                    && goals@[k].budgets == g0[k].budgets && goals@[k].repeat == g0[k].repeat
                    && goals@[k].children == g0[k].children,
            forall|k: int| i <= k < goals.len() ==> #[trigger] goals@[k] == g0[k],
        decreases goals.len() - i,
    {
        if goals[i].budgets.is_some() {
            let mut g = goals.remove(i);
            g.tags.push(Tag::Budget);
            goals.insert(i, g);
        }
        i = i + 1;
    }
}

} // verus!
