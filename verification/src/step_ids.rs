use vstd::prelude::*;
use rand::Rng;
use crate::step::{Step, StepModel};

verus! {

/// A random step identifier, drawn through `rand::thread_rng().gen::<usize>()`.
/// Nothing is claimed of the value: it is whatever the thread's generator gives.
#[verifier::external_body]
pub fn generate_step_id() -> usize {
    rand::thread_rng().gen::<usize>()
}

/// Does `v` hold `x`?
fn holds_id(v: &Vec<usize>, x: usize) -> (r: bool)
    ensures
        r == v@.contains(x),
{
    let mut i: usize = 0;
    while i < v.len()
        invariant
            i <= v.len(),
            forall|k: int| 0 <= k < i ==> v@[k] != x,
        decreases v.len() - i,
    {
        if v[i] == x {
            return true;
        }
        i = i + 1;
    }
    false
}

/// No value occurs twice in the sequence.
pub open spec fn all_distinct(s: Seq<usize>) -> bool {
    forall|i: int, j: int| 0 <= i < j < s.len() ==> s[i] != s[j]
}

/// The values of `draws`, each once, in the order in which they first occur.
pub fn distinct_ids(draws: &Vec<usize>) -> (r: Vec<usize>)
    ensures
        all_distinct(r@),
        r@.to_set() == draws@.to_set(),
        r@.len() <= draws@.len(),
{
    let mut r: Vec<usize> = Vec::new();
    let mut i: usize = 0;
    while i < draws.len()
        invariant
            i <= draws.len(),
            all_distinct(r@),
            r@.to_set() == draws@.take(i as int).to_set(),
            r@.len() <= i,
        decreases draws.len() - i,
    {
        let x = draws[i];
        let ghost before = r@;
        if !holds_id(&r, x) {
            r.push(x);
        }
        proof {
            assert(draws@.take(i + 1) =~= draws@.take(i as int).push(x));
            draws@.take(i as int).lemma_push_to_set_commute(x);
            if before.contains(x) {
                assert(before.to_set().insert(x) =~= before.to_set());
            } else {
                assert(r@ =~= before.push(x));
                before.lemma_push_to_set_commute(x);
            }
        }
        i = i + 1;
    }
    proof {
        assert(draws@.take(draws.len() as int) =~= draws@);
    }
    r
}

/// The step with identifier `id` and all else as it was.
pub open spec fn with_id(m: StepModel, id: usize) -> StepModel {
    StepModel { id, ..m }
}

/// Gives the steps, in order, the identifiers of `ids`.
pub fn assign_ids(steps_list: &mut Vec<Step>, ids: &Vec<usize>)
    requires
        ids@.len() >= old(steps_list)@.len(),
    ensures
        final(steps_list)@.len() == old(steps_list)@.len(),
        forall|i: int|
            0 <= i < old(steps_list)@.len() ==> (#[trigger] final(steps_list)@[i])@ == with_id(
                old(steps_list)@[i]@,
                ids@[i],
            ),
{
    let ghost s0 = steps_list@;
    let mut i: usize = 0;
    while i < steps_list.len()
        invariant
            i <= steps_list.len(),
            steps_list@.len() == s0.len(),
            ids@.len() >= s0.len(),
            forall|k: int| 0 <= k < i ==> (#[trigger] steps_list@[k])@ == with_id(s0[k]@, ids@[k]),
            forall|k: int| i <= k < s0.len() ==> #[trigger] steps_list@[k] == s0[k],
        decreases steps_list.len() - i,
    {
        let mut step = steps_list.remove(i);
        step.id = ids[i];
        steps_list.insert(i, step);
        i = i + 1;
    }
}

/// Distinct numbers that hold every number below `c` are at least `c` many.
proof fn lemma_held_below(s: Seq<usize>, c: int)
    requires
        all_distinct(s),
        0 <= c <= usize::MAX,
        forall|x: usize| x < c ==> s.contains(x),
    ensures
        c <= s.len(),
{
    let t = s.map_values(|x: usize| x as int);
    assert(t.no_duplicates()) by {
        assert forall|i: int, j: int| 0 <= i < t.len() && 0 <= j < t.len() && i != j implies t[i] != t[j] by {
            if i < j {
                assert(s[i] != s[j]);
            } else {
                assert(s[j] != s[i]);
            }
        }
    }
    t.unique_seq_to_set();
    vstd::seq_lib::seq_to_set_is_finite(t);
    vstd::set_lib::lemma_int_range(0, c);
    assert(vstd::set_lib::set_int_range(0, c).subset_of(t.to_set())) by {
        assert forall|i: int| vstd::set_lib::set_int_range(0, c).contains(i) implies t.to_set().contains(i) by {
            let x = i as usize;
            assert(x as int == i);
            assert(s.contains(x));
            let k = choose|k: int| 0 <= k < s.len() && s[k] == x;
            assert(t[k] == i);
            assert(t.contains(i));
        }
    }
    vstd::set_lib::lemma_len_subset(vstd::set_lib::set_int_range(0, c), t.to_set());
}

/// The identifier a step gets from a draw, given the identifiers already handed out:
/// the draw itself when it is new, otherwise the smallest number not yet handed out.
pub fn next_id(pool: &Vec<usize>, draw: usize) -> (r: usize)
    requires
        all_distinct(pool@),
        pool@.len() < usize::MAX,
    ensures
        !pool@.contains(r),
        !pool@.contains(draw) ==> r == draw,
        pool@.contains(draw) ==> forall|x: usize| x < r ==> pool@.contains(x),
{
    if !holds_id(pool, draw) {
        return draw;
    }
    let mut c: usize = 0;
    while holds_id(pool, c)
        invariant
            all_distinct(pool@),
            pool@.len() < usize::MAX,
            c <= pool@.len(),
            forall|x: usize| x < c ==> pool@.contains(x),
        decreases pool@.len() - c,
    {
        proof {
            assert forall|x: usize| x < c + 1 implies pool@.contains(x) by {
                if x == c {
                } else {
                    assert(x < c);
                }
            }
            lemma_held_below(pool@, c + 1);
        }
        c = c + 1;
    }
    c
}

/// The identifiers of the steps, in order.
pub open spec fn step_ids(s: Seq<Step>) -> Seq<usize> {
    s.map_values(|st: Step| st.id)
}

/// Gives every step a unique identifier drawn at random: one draw per step, the
/// distinct draws given out in order, then, for each step left over when draws
/// coincided, a fresh draw, or the smallest unused number when that draw was taken
/// already. Every step keeps all but its identifier.
pub fn unify_steps_ids(steps_list: &mut Vec<Step>)
    ensures
        final(steps_list)@.len() == old(steps_list)@.len(),
        forall|i: int|
            0 <= i < old(steps_list)@.len() ==> (#[trigger] final(steps_list)@[i])@ == with_id(
                old(steps_list)@[i]@,
                final(steps_list)@[i].id,
            ),
        all_distinct(step_ids(final(steps_list)@)),
{
    let n = steps_list.len();
    let mut draws: Vec<usize> = Vec::new();
    let mut k: usize = 0;
    while k < n
        invariant
            k <= n,
        decreases n - k,
    {
        draws.push(generate_step_id());
        k = k + 1;
    }
    let mut pool = distinct_ids(&draws);
    while pool.len() < n
        invariant
            all_distinct(pool@),
        decreases n - pool.len(),
    {
        let d = generate_step_id();
        let id = next_id(&pool, d);
        let ghost before = pool@;
        pool.push(id);
        proof {
            assert forall|i: int, j: int| 0 <= i < j < pool@.len() implies pool@[i] != pool@[j] by {
                if j == before.len() {
                    assert(before[i] == pool@[i]);
                    assert(before.contains(pool@[i]));
                }
            }
        }
    }
    let ghost ids = pool@;
    assign_ids(steps_list, &pool);
    proof {
        assert forall|i: int, j: int| 0 <= i < j < step_ids(steps_list@).len() implies step_ids(steps_list@)[i]
            != step_ids(steps_list@)[j] by {
            assert(steps_list@[i]@ == with_id(old(steps_list)@[i]@, ids[i]));
            assert(steps_list@[j]@ == with_id(old(steps_list)@[j]@, ids[j]));
            assert(ids[i] != ids[j]);
        }
    }
}

} // verus!
