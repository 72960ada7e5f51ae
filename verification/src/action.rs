//! Reading actions out of a policy and rolling a policy forward.
use crate::policy::Policy;
use vstd::prelude::*;

verus! {

/// The action at step `t` of a policy, if the policy is that long.
pub open spec fn spec_action_at(policy: Policy, t: int) -> Option<usize> {
    if 0 <= t < policy.actions@.len() {
        Some(policy.actions@[t])
    } else {
        None
    }
}

/// The first action of a policy, if it has any.
pub open spec fn spec_first_action(policy: Policy) -> Option<usize> {
    if policy.actions@.len() == 0 {
        None
    } else {
        Some(policy.actions@.first())
    }
}

/// The first action of a policy is its action at step zero.
pub proof fn lemma_first_action_is_action_at_zero(policy: Policy)
    ensures
        spec_first_action(policy) == spec_action_at(policy, 0),
{
}

/// A policy with actions has its first action, whatever its value, as
/// first action; a policy without actions has none.
pub proof fn lemma_first_action_reads_first(policy: Policy)
    ensures
        policy.actions@.len() > 0 ==> spec_first_action(policy) == Some(policy.actions@[0]),
        policy.actions@.len() == 0 <==> spec_first_action(policy) is None,
{
}

/// Each step within a policy's length reads the action stored at that step,
/// and exactly the steps past its end have no action.
pub proof fn lemma_action_at_reads_step(policy: Policy, t: int)
    ensures
        0 <= t < policy.actions@.len() ==> spec_action_at(policy, t) == Some(policy.actions@[t]),
        spec_action_at(policy, t) is None <==> !(0 <= t < policy.actions@.len()),
{
}

/// Reading every step of a policy in turn gives back its actions.
pub proof fn lemma_action_at_recovers_actions(policy: Policy)
    ensures
        Seq::new(policy.actions@.len(), |t: int| spec_action_at(policy, t)->0) == policy.actions@,
{
    assert(Seq::new(policy.actions@.len(), |t: int| spec_action_at(policy, t)->0)
        =~= policy.actions@);
}

/// The first action of the policy, if it has one.
pub fn first_action(policy: &Policy) -> (a: Option<usize>)
    ensures
        a == spec_first_action(*policy),
        policy.actions@.len() > 0 ==> a == Some(policy.actions@[0]),
        policy.actions@.len() == 0 ==> a is None,
{
    match policy.actions.first() {
        Some(a) => Some(*a),
        None => None,
    }
}

/// The action at step `t` of the policy, if the policy is that long.
pub fn action_at(policy: &Policy, t: usize) -> (a: Option<usize>)
    ensures
        a == spec_action_at(*policy, t as int),
        t < policy.actions@.len() ==> a == Some(policy.actions@[t as int]),
        t >= policy.actions@.len() ==> a is None,
{
    if t < policy.actions.len() {
        Some(policy.actions[t])
    } else {
        None
    }
}

/// `states` is a run of `actions` from `initial`: it starts at `initial` and
/// each next state is a result that `transition` may give for the state
/// before it and that step's action.
pub open spec fn is_run<F: Fn(usize, usize) -> usize>(
    transition: F,
    actions: Seq<usize>,
    initial: usize,
    states: Seq<usize>,
) -> bool {
    &&& states.len() == actions.len() + 1
    &&& states[0] == initial
    &&& forall|t: int|
        0 <= t < actions.len() ==> call_ensures(
            transition,
            (#[trigger] states[t], actions[t]),
            states[t + 1],
        )
}

/// `s` is a state that applying the first `t` of `actions` in turn from
/// `initial` can reach: the last state of some run of those `t` actions.
pub open spec fn reachable<F: Fn(usize, usize) -> usize>(
    transition: F,
    actions: Seq<usize>,
    initial: usize,
    t: int,
    s: usize,
) -> bool {
    exists|states: Seq<usize>|
        #[trigger] is_run(transition, actions.take(t), initial, states) && states.last() == s
}

/// `transition` gives one result at most for each state and action.
pub open spec fn deterministic<F: Fn(usize, usize) -> usize>(transition: F) -> bool {
    forall|s: usize, a: usize, r1: usize, r2: usize|
        #[trigger] call_ensures(transition, (s, a), r1) && #[trigger] call_ensures(
            transition,
            (s, a),
            r2,
        ) ==> r1 == r2
}

/// The states visited when the policy's actions are applied in turn from
/// `initial`: `states[0] == initial` and `states[t + 1]` is what `transition`
/// gives for `states[t]` and the `t`-th action. `transition` is called only on
/// the states that the run reaches.
pub fn execute_policy<F: Fn(usize, usize) -> usize>(
    policy: &Policy,
    initial: usize,
    transition: F,
) -> (states: Vec<usize>)
    requires
        policy.actions@.len() < usize::MAX,
        forall|s: usize, t: int|
            0 <= t < policy.actions@.len() && #[trigger] reachable(
                transition,
                policy.actions@,
                initial,
                t,
                s,
            ) ==> call_requires(transition, (s, policy.actions@[t])),
    ensures
        is_run(transition, policy.actions@, initial, states@),
{
    let ghost actions = policy.actions@;
    let mut states: Vec<usize> = Vec::new();
    states.push(initial);
    let mut current = initial;
    let mut i: usize = 0;
    while i < policy.actions.len()
        invariant
            actions == policy.actions@,
            i <= actions.len(),
            actions.len() < usize::MAX,
            forall|s: usize, t: int|
                0 <= t < actions.len() && #[trigger] reachable(
                    transition,
                    actions,
                    initial,
                    t,
                    s,
                ) ==> call_requires(transition, (s, actions[t])),
            states@.len() == i + 1,
            states@[0] == initial,
            states@[i as int] == current,
            forall|t: int|
                0 <= t < i ==> call_ensures(
                    transition,
                    (#[trigger] states@[t], actions[t]),
                    states@[t + 1],
                ),
        decreases actions.len() - i,
    {
        proof {
            let run = states@;
            let done = actions.take(i as int);
            assert forall|t: int| 0 <= t < done.len() implies call_ensures(
                transition,
                (#[trigger] run[t], done[t]),
                run[t + 1],
            ) by {
                assert(done[t] == actions[t]);
            }
            assert(is_run(transition, done, initial, run));
            assert(reachable(transition, actions, initial, i as int, current));
        }
        let a = policy.actions[i];
        let ghost before = states@;
        current = transition(current, a);
        states.push(current);
        assert forall|t: int| 0 <= t < i + 1 implies call_ensures(
            transition,
            (#[trigger] states@[t], actions[t]),
            states@[t + 1],
        ) by {
            if t < i {
                assert(states@[t] == before[t] && states@[t + 1] == before[t + 1]);
            }
        }
        i = i + 1;
    }
    states
}

/// Running no actions visits the initial state alone.
pub proof fn lemma_run_of_nothing<F: Fn(usize, usize) -> usize>(
    transition: F,
    initial: usize,
    states: Seq<usize>,
)
    requires
        is_run(transition, Seq::<usize>::empty(), initial, states),
    ensures
        states == seq![initial],
{
    assert(states =~= seq![initial]);
}

/// With a deterministic transition, the run of a sequence of actions from a
/// given state is unique.
pub proof fn lemma_run_unique<F: Fn(usize, usize) -> usize>(
    transition: F,
    actions: Seq<usize>,
    initial: usize,
    r1: Seq<usize>,
    r2: Seq<usize>,
)
    requires
        deterministic(transition),
        is_run(transition, actions, initial, r1),
        is_run(transition, actions, initial, r2),
    ensures
        r1 == r2,
{
    assert forall|t: int| 0 <= t <= actions.len() implies r1[t] == r2[t] by {
        lemma_run_unique_prefix(transition, actions, initial, r1, r2, t as nat);
    }
    assert(r1 =~= r2);
}

proof fn lemma_run_unique_prefix<F: Fn(usize, usize) -> usize>(
    transition: F,
    actions: Seq<usize>,
    initial: usize,
    r1: Seq<usize>,
    r2: Seq<usize>,
    t: nat,
)
    requires
        deterministic(transition),
        is_run(transition, actions, initial, r1),
        is_run(transition, actions, initial, r2),
        t <= actions.len(),
    ensures
        r1[t as int] == r2[t as int],
    decreases t,
{
    if t > 0 {
        let u = (t - 1) as int;
        lemma_run_unique_prefix(transition, actions, initial, r1, r2, (t - 1) as nat);
        assert(call_ensures(transition, (r1[u], actions[u]), r1[u + 1]));
        assert(call_ensures(transition, (r2[u], actions[u]), r2[u + 1]));
    }
}

/// Running `a` and then `b` from where `a` ended is a run of `a + b`.
pub proof fn lemma_run_concat<F: Fn(usize, usize) -> usize>(
    transition: F,
    a: Seq<usize>,
    b: Seq<usize>,
    initial: usize,
    ra: Seq<usize>,
    rb: Seq<usize>,
)
    requires
        is_run(transition, a, initial, ra),
        is_run(transition, b, ra.last(), rb),
    ensures
        is_run(transition, a + b, initial, ra + rb.drop_first()),
{
    let ab = a + b;
    let r = ra + rb.drop_first();
    assert forall|t: int| 0 <= t < ab.len() implies call_ensures(
        transition,
        (#[trigger] r[t], ab[t]),
        r[t + 1],
    ) by {
        if t < a.len() {
            assert(r[t] == ra[t] && ab[t] == a[t] && r[t + 1] == ra[t + 1]);
            assert(call_ensures(transition, (ra[t], a[t]), ra[t + 1]));
        } else {
            let u = t - a.len();
            assert(ab[t] == b[u]);
            assert(r[t] == rb[u]) by {
                if u == 0 {
                    assert(r[t] == ra.last());
                }
            }
            assert(r[t + 1] == rb[u + 1]);
            assert(call_ensures(transition, (rb[u], b[u]), rb[u + 1]));
        }
    }
}

/// With a deterministic transition, running `a + b` from `initial` gives the
/// run of `a` followed by the run of `b` from the state where `a` ended,
/// less that shared state.
pub proof fn lemma_execute_concat<F: Fn(usize, usize) -> usize>(
    transition: F,
    a: Seq<usize>,
    b: Seq<usize>,
    initial: usize,
    ra: Seq<usize>,
    rb: Seq<usize>,
    rab: Seq<usize>,
)
    requires
        deterministic(transition),
        is_run(transition, a, initial, ra),
        is_run(transition, b, ra.last(), rb),
        is_run(transition, a + b, initial, rab),
    ensures
        rab == ra + rb.drop_first(),
{
    lemma_run_concat(transition, a, b, initial, ra, rb);
    lemma_run_unique(transition, a + b, initial, rab, ra + rb.drop_first());
}

/// Whether two actions are the same.
pub fn actions_equal(a: usize, b: usize) -> (eq: bool)
    ensures
        eq == (a == b),
{
    a == b
}

/// The label of `action`, if `labels` has one for it.
pub fn action_label(action: usize, labels: &[&str]) -> (label: Option<String>)
    ensures
        action < labels@.len() ==> label is Some && label->0@ == labels@[action as int]@,
        action >= labels@.len() ==> label is None,
{
    if action < labels.len() {
        Some(labels[action].to_string())
    } else {
        None
    }
}

} // verus!
