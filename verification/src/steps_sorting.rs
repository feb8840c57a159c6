use vstd::prelude::*;
use std::cmp::Ordering;
use crate::budget::texts;
use crate::goal::{has_tag, Goal, Tag};
use crate::step::{step_cmp, Step, StepStatus};

verus! {

/// The position of the first goal of `goals` with identifier `id`, if any.
pub open spec fn first_goal(goals: Seq<Goal>, id: Seq<char>) -> Option<int>
    decreases goals.len(),
{
    if goals.len() == 0 {
        None
    } else if goals[0].id@ == id {
        Some(0)
    } else {
        match first_goal(goals.drop_first(), id) {
            Some(i) => Some(i + 1),
            None => None,
        }
    }
}

/// Does the first goal with identifier `parent` list `child` among its children?
pub open spec fn lists_child(goals: Seq<Goal>, parent: Seq<char>, child: Seq<char>) -> bool {
    match first_goal(goals, parent) {
        Some(i) => goals[i].children matches Some(c) && texts(c@).contains(child),
        None => false,
    }
}

proof fn lemma_first_goal(goals: Seq<Goal>, id: Seq<char>, i: int)
    requires
        0 <= i <= goals.len(),
        forall|k: int| 0 <= k < i ==> (#[trigger] goals[k]).id@ != id,
    ensures
        i < goals.len() && goals[i].id@ == id ==> first_goal(goals, id) == Some(i),
        i == goals.len() ==> first_goal(goals, id) is None,
    decreases i,
{
    if i > 0 {
        assert(goals[0].id@ != id);
        let rest = goals.drop_first();
        assert forall|k: int| 0 <= k < i - 1 implies (#[trigger] rest[k]).id@ != id by {
            assert(rest[k] == goals[k + 1]);
        }
        lemma_first_goal(rest, id, i - 1);
        if i < goals.len() {
            assert(rest[i - 1] == goals[i]);
        }
    }
}

/// The position of the first goal with identifier `id`.
pub(crate) fn find_goal(goals: &Vec<Goal>, id: &String) -> (r: Option<usize>)
    ensures
        match r {
            Some(i) => i < goals.len() && first_goal(goals@, id@) == Some(i as int),
            None => first_goal(goals@, id@) is None,
        },
{
    let mut i: usize = 0;
    while i < goals.len()
        invariant
            i <= goals.len(),
            forall|k: int| 0 <= k < i ==> (#[trigger] goals@[k]).id@ != id@,
        decreases goals.len() - i,
    {
        if goals[i].id == *id {
            proof {
                lemma_first_goal(goals@, id@, i as int);
            }
            return Some(i);
        }
        i = i + 1;
    }
    proof {
        lemma_first_goal(goals@, id@, i as int);
    }
    None
}

/// Does the list hold the text?
fn holds_text(list: &Vec<String>, s: &String) -> (r: bool)
    ensures
        r == texts(list@).contains(s@),
{
    let mut j: usize = 0;
    while j < list.len()
        invariant
            j <= list.len(),
            forall|k: int| 0 <= k < j ==> (#[trigger] list@[k])@ != s@,
        decreases list.len() - j,
    {
        if list[j] == *s {
            assert(texts(list@)[j as int] == s@);
            return true;
        }
        j = j + 1;
    }
    proof {
        if texts(list@).contains(s@) {
            let k = choose|k: int| 0 <= k < texts(list@).len() && texts(list@)[k] == s@;
            assert(list@[k]@ == s@);
        }
    }
    false
}

/// Does the first goal with identifier `parent` list `child` among its children?
fn goal_lists_child(goals: &Vec<Goal>, parent: &String, child: &String) -> (r: bool)
    ensures
        r == lists_child(goals@, parent@, child@),
{
    match find_goal(goals, parent) {
        Some(i) => match &goals[i].children {
            Some(children) => holds_text(children, child),
            None => false,
        },
        None => false,
    }
}

/// The ordering that a step comparison stands for.
pub open spec fn ordering_of(c: int) -> Ordering {
    if c < 0 {
        Ordering::Less
    } else if c > 0 {
        Ordering::Greater
    } else {
        Ordering::Equal
    }
}

impl Step {
    /// Is the goal of this step the parent of the goal of `other`: does the first goal
    /// with this step's goal identifier list the other step's goal among its children?
    pub fn is_parent_of_other(&self, other: &Step, goals: &Vec<Goal>) -> (r: bool)
        ensures
            r == lists_child(goals@, self.goal_id@, other.goal_id@),
    {
        goal_lists_child(goals, &self.goal_id, &other.goal_id)
    }

    /// Is the goal of this step a child of the goal of `other`?
    pub fn is_child_of_other(&self, other: &Step, goals: &Vec<Goal>) -> (r: bool)
        ensures
            r == lists_child(goals@, other.goal_id@, self.goal_id@),
    {
        goal_lists_child(goals, &other.goal_id, &self.goal_id)
    }

    /// The placing order of this step against `other`, as `step_cmp` gives it; the
    /// parent and child checks that follow come into play only where that order
    /// leaves two steps of different flexibility undecided, which it never does.
    pub fn custom_compare(&self, other: &Step, goals: &Vec<Goal>) -> (r: Ordering)
        ensures
            r == ordering_of(step_cmp(self@, other@)),
    {
        let self_ready = self.status == StepStatus::ReadyToSchedule;
        let other_ready = other.status == StepStatus::ReadyToSchedule;
        let self_optional = has_tag(&self.tags, Tag::Optional);
        let other_optional = has_tag(&other.tags, Tag::Optional);
        let self_filler = has_tag(&self.tags, Tag::Filler);
        let other_filler = has_tag(&other.tags, Tag::Filler);
        if self_ready && !other_ready {
            Ordering::Less
        } else if other_ready && !self_ready {
            Ordering::Greater
        } else if !self_optional && other_optional {
            Ordering::Less
        } else if self_optional && !other_optional {
            Ordering::Greater
        } else if !self_filler && other_filler {
            Ordering::Less
        } else if self_filler && !other_filler {
            Ordering::Greater
        } else if self.flexibility == other.flexibility {
            Ordering::Equal
        } else if self.flexibility == 1 {
            Ordering::Less
        } else if other.flexibility == 1 {
            Ordering::Greater
        } else if self.flexibility > other.flexibility {
            Ordering::Less
        } else if other.flexibility > self.flexibility {
            Ordering::Greater
        } else if self.is_parent_of_other(other, goals) {
            Ordering::Less
        } else if self.is_child_of_other(other, goals) {
            Ordering::Greater
        } else {
            Ordering::Equal
        }
    }
}

} // verus!
