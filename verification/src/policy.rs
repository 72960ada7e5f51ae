//! Policies: action sequences over a planning horizon.
use crate::digits::{
    count,
    digits,
    lemma_carry_step,
    lemma_digits_of_multiple,
    lemma_digits_injective,
    lemma_digits_of_value,
    lemma_digits_ordered,
    lemma_digits_shape,
    lemma_value_bound,
    lex_less,
    numeral_value,
    is_action_sequence,
    lemma_pow_step,
    zeros,
};
use vstd::arithmetic::div_mod::{
    lemma_add_mod_noop,
    lemma_fundamental_div_mod,
    lemma_fundamental_div_mod_converse,
    lemma_small_mod,
};
use vstd::arithmetic::power::lemma_pow_positive;
use vstd::prelude::*;

verus! {

/// A sequence of actions together with its planning horizon.
#[derive(Clone, Debug)]
pub struct Policy {
    pub actions: Vec<usize>,
    pub horizon: usize,
}

/// What a policy is, as a value: its actions and its recorded horizon.
pub struct PolicyView {
    pub actions: Seq<usize>,
    pub horizon: usize,
}

impl View for Policy {
    type V = PolicyView;

    open spec fn view(&self) -> PolicyView {
        PolicyView { actions: self.actions@, horizon: self.horizon }
    }
}

impl Policy {
    /// A policy whose horizon is the number of its actions.
    pub fn new(actions: Vec<usize>) -> (p: Self)
        ensures
            p.actions@ == actions@,
            p.horizon == actions@.len(),
    {
        let horizon = actions.len();
        Policy { actions, horizon }
    }

    /// The policy with no actions and horizon zero.
    pub fn empty() -> (p: Self)
        ensures
            p.actions@ == Seq::<usize>::empty(),
            p.horizon == 0,
    {
        Policy { actions: Vec::new(), horizon: 0 }
    }

    /// Whether the policy has no actions.
    pub fn is_empty(&self) -> (b: bool)
        ensures
            b == (self.actions@.len() == 0),
    {
        self.actions.len() == 0
    }

    /// The number of actions in the policy.
    pub fn len(&self) -> (n: usize)
        ensures
            n == self.actions@.len(),
    {
        self.actions.len()
    }
}

fn copy_policy(p: &Policy) -> (r: Policy)
    ensures
        r@ == p@,
{
    Policy { actions: copy_actions(&p.actions), horizon: p.horizon }
}

/// Every sequence of `horizon` actions below `n_actions` is listed by
/// `enumerate_policies(n_actions, horizon)`, at the position given by its value
/// as a numeral in base `n_actions`.
pub proof fn lemma_enumeration_lists_every_sequence(n_actions: nat, horizon: nat, s: Seq<usize>)
    requires
        n_actions <= usize::MAX,
        is_action_sequence(n_actions, horizon, s),
    ensures
        numeral_value(n_actions, s) < policy_count(n_actions, horizon),
        enumerated_actions(n_actions, horizon, numeral_value(n_actions, s)) == s,
{
    if horizon == 0 {
        assert(s =~= seq![]);
    } else if n_actions == 0 {
        assert(s[0] < n_actions);
    } else {
        lemma_value_bound(n_actions, horizon, s);
        lemma_digits_of_value(n_actions, horizon, s);
    }
}

/// `enumerate_policies` lists no action sequence twice.
pub proof fn lemma_enumeration_distinct(n_actions: nat, horizon: nat, j: nat, k: nat)
    requires
        n_actions <= usize::MAX,
        j < policy_count(n_actions, horizon),
        k < policy_count(n_actions, horizon),
        j != k,
    ensures
        enumerated_actions(n_actions, horizon, j) != enumerated_actions(n_actions, horizon, k),
{
    lemma_digits_injective(n_actions, horizon, j, k);
}

/// Each policy listed by `enumerate_policies` with at least one action has
/// `horizon` actions, each below `n_actions`.
pub proof fn lemma_enumerated_are_action_sequences(n_actions: nat, horizon: nat, k: nat)
    requires
        0 < n_actions <= usize::MAX,
    ensures
        is_action_sequence(n_actions, horizon, enumerated_actions(n_actions, horizon, k)),
{
    if horizon > 0 {
        lemma_digits_shape(n_actions, horizon, k);
    }
}

/// `enumerate_policies` lists its policies in strictly increasing
/// lexicographic order of their actions.
pub proof fn lemma_enumeration_ordered(n_actions: nat, horizon: nat, j: nat, k: nat)
    requires
        n_actions <= usize::MAX,
        j < k < policy_count(n_actions, horizon),
    ensures
        lex_less(
            enumerated_actions(n_actions, horizon, j),
            enumerated_actions(n_actions, horizon, k),
        ),
{
    lemma_digits_ordered(n_actions, horizon, j, k);
}

/// The elements of `s` whose flag in `keep` is set, in their order in `s`.
pub open spec fn kept<T>(s: Seq<T>, keep: Seq<bool>) -> Seq<T>
    decreases s.len(),
{
    if s.len() == 0 {
        seq![]
    } else {
        let rest = kept(s.drop_last(), keep);
        if keep[s.len() - 1] {
            rest.push(s.last())
        } else {
            rest
        }
    }
}

/// The views of a sequence of policies.
pub open spec fn views(s: Seq<Policy>) -> Seq<PolicyView> {
    s.map_values(|p: Policy| p@)
}

/// Copies of the policies that `f` accepts, in their original order.
pub fn filter_policies(policies: &[Policy], f: impl Fn(&Policy) -> bool) -> (out: Vec<Policy>)
    requires
        forall|i: int| 0 <= i < policies@.len() ==> call_requires(f, (&#[trigger] policies@[i],)),
    ensures
        exists|keep: Seq<bool>|
            {
                &&& keep.len() == policies@.len()
                &&& forall|i: int|
                    0 <= i < policies@.len() ==> call_ensures(
                        f,
                        (&#[trigger] policies@[i],),
                        keep[i],
                    )
                &&& views(out@) == kept(views(policies@), keep)
                &&& exists|idx: Seq<int>| selects(views(policies@), keep, views(out@), idx)
            },
{
    let mut out: Vec<Policy> = Vec::new();
    let ghost mut keep: Seq<bool> = seq![];
    let mut i: usize = 0;
    while i < policies.len()
        invariant
            i <= policies@.len(),
            keep.len() == i,
            forall|j: int| 0 <= j < policies@.len() ==> call_requires(f, (&#[trigger] policies@[j],)),
            forall|j: int| 0 <= j < i ==> call_ensures(f, (&#[trigger] policies@[j],), keep[j]),
            views(out@) == kept(views(policies@).take(i as int), keep),
        decreases policies@.len() - i,
    {
        let b = f(&policies[i]);
        let ghost prev = views(policies@).take(i as int);
        let ghost next = views(policies@).take(i + 1);
        let ghost old_keep = keep;
        let ghost old_out = views(out@);
        proof {
            keep = old_keep.push(b);
            assert(next.drop_last() =~= prev);
            assert(next.last() == policies@[i as int]@);
            lemma_kept_ignores_later_flags(prev, old_keep, keep);
        }
        if b {
            let copy = copy_policy(&policies[i]);
            out.push(copy);
            assert(views(out@) =~= old_out.push(copy@));
        }
        i = i + 1;
    }
    assert(views(policies@).take(i as int) =~= views(policies@));
    proof {
        let idx = lemma_kept_is_ordered_selection(views(policies@), keep);
        assert(selects(views(policies@), keep, views(out@), idx));
    }
    out
}

/// `idx` lists, in increasing order, exactly the positions of `s` whose flag
/// in `keep` is set, and `out` holds the elements of `s` at those positions.
pub open spec fn selects<T>(s: Seq<T>, keep: Seq<bool>, out: Seq<T>, idx: Seq<int>) -> bool {
    &&& idx.len() == out.len()
    &&& forall|j: int|
        0 <= j < idx.len() ==> {
            &&& 0 <= #[trigger] idx[j] < s.len()
            &&& keep[idx[j]]
            &&& out[j] == s[idx[j]]
        }
    &&& forall|j1: int, j2: int| 0 <= j1 < j2 < idx.len() ==> #[trigger] idx[j1] < #[trigger] idx[j2]
    &&& forall|i: int| 0 <= i < s.len() && keep[i] ==> exists|j: int| 0 <= j < idx.len() && #[trigger] idx[j] == i
}

/// What `filter_policies` keeps is the subsequence of the input made of every
/// element whose flag is set, in input order: the returned positions are
/// increasing, all flagged, and include every flagged position.
pub proof fn lemma_kept_is_ordered_selection<T>(s: Seq<T>, keep: Seq<bool>) -> (idx: Seq<int>)
    ensures
        selects(s, keep, kept(s, keep), idx),
    decreases s.len(),
{
    if s.len() == 0 {
        Seq::empty()
    } else {
        let n = s.len() - 1;
        let s1 = s.drop_last();
        let rest = kept(s1, keep);
        let idx1 = lemma_kept_is_ordered_selection(s1, keep);
        let out = kept(s, keep);
        if keep[n] {
            let idx = idx1.push(n);
            assert forall|j: int| 0 <= j < idx.len() implies {
                &&& 0 <= #[trigger] idx[j] < s.len()
                &&& keep[idx[j]]
                &&& out[j] == s[idx[j]]
            } by {
                if j < idx1.len() {
                    assert(idx[j] == idx1[j]);
                    assert(s1[idx1[j]] == s[idx1[j]]);
                }
            }
            assert forall|j1: int, j2: int| 0 <= j1 < j2 < idx.len() implies #[trigger] idx[j1]
                < #[trigger] idx[j2] by {
                assert(idx[j1] == idx1[j1]);
                if j2 < idx1.len() {
                    assert(idx[j2] == idx1[j2]);
                }
            }
            assert forall|i: int| 0 <= i < s.len() && keep[i] implies exists|j: int|
                0 <= j < idx.len() && #[trigger] idx[j] == i by {
                if i < n {
                    let j = choose|j: int| 0 <= j < idx1.len() && #[trigger] idx1[j] == i;
                    assert(idx[j] == idx1[j]);
                } else {
                    assert(idx[idx.len() - 1] == i);
                }
            }
            idx
        } else {
            assert forall|j: int| 0 <= j < idx1.len() implies {
                &&& 0 <= #[trigger] idx1[j] < s.len()
                &&& keep[idx1[j]]
                &&& out[j] == s[idx1[j]]
            } by {
                assert(s1[idx1[j]] == s[idx1[j]]);
            }
            assert forall|i: int| 0 <= i < s.len() && keep[i] implies exists|j: int|
                0 <= j < idx1.len() && #[trigger] idx1[j] == i by {
                if i < n {
                    let j = choose|j: int| 0 <= j < idx1.len() && #[trigger] idx1[j] == i;
                }
            }
            idx1
        }
    }
}

/// When every flag is set, everything is kept, in order.
pub proof fn lemma_kept_all<T>(s: Seq<T>, keep: Seq<bool>)
    requires
        forall|i: int| 0 <= i < s.len() ==> #[trigger] keep[i],
    ensures
        kept(s, keep) == s,
    decreases s.len(),
{
    if s.len() > 0 {
        lemma_kept_all(s.drop_last(), keep);
        assert(s.drop_last().push(s.last()) =~= s);
    }
}

/// When no flag is set, nothing is kept.
pub proof fn lemma_kept_none<T>(s: Seq<T>, keep: Seq<bool>)
    requires
        forall|i: int| 0 <= i < s.len() ==> !#[trigger] keep[i],
    ensures
        kept(s, keep) == Seq::<T>::empty(),
    decreases s.len(),
{
    if s.len() > 0 {
        lemma_kept_none(s.drop_last(), keep);
    }
}

/// Only the flags at positions of `s` matter to `kept`.
pub proof fn lemma_kept_ignores_later_flags<T>(s: Seq<T>, keep1: Seq<bool>, keep2: Seq<bool>)
    requires
        forall|i: int| 0 <= i < s.len() ==> keep1[i] == keep2[i],
    ensures
        kept(s, keep1) == kept(s, keep2),
    decreases s.len(),
{
    if s.len() > 0 {
        lemma_kept_ignores_later_flags(s.drop_last(), keep1, keep2);
    }
}

/// The fingerprint of an action sequence: the actions read as the digits of a
/// number in base 31, wrapped to 64 bits at every step.
pub open spec fn hash_of(actions: Seq<usize>) -> u64
    decreases actions.len(),
{
    if actions.len() == 0 {
        0
    } else {
        ((hash_of(actions.drop_last()) * 31 + actions.last()) % 0x1_0000_0000_0000_0000) as u64
    }
}

/// The fingerprint of a policy depends on its actions alone: policies with
/// the same actions hash alike, whatever their recorded horizons.
pub proof fn lemma_hash_determined_by_actions(p: Policy, q: Policy)
    requires
        p.actions@ == q.actions@,
    ensures
        hash_of(p.actions@) == hash_of(q.actions@),
{
}

/// The fingerprint of no actions is 0, and appending an action `a` to a
/// sequence multiplies its fingerprint by 31 and adds `a`, modulo 2^64.
pub proof fn lemma_hash_push(s: Seq<usize>, a: usize)
    ensures
        hash_of(Seq::<usize>::empty()) == 0,
        hash_of(s.push(a)) as int == (31 * hash_of(s) + a) % 0x1_0000_0000_0000_0000,
{
    assert(s.push(a).drop_last() =~= s);
}

/// Sequences that differ only in their last action have different fingerprints.
pub proof fn lemma_hash_distinguishes_last_action(s: Seq<usize>, a: usize, b: usize)
    requires
        a != b,
    ensures
        hash_of(s.push(a)) != hash_of(s.push(b)),
{
    let m: int = 0x1_0000_0000_0000_0000;
    let x = 31 * hash_of(s);
    lemma_hash_push(s, a);
    lemma_hash_push(s, b);
    lemma_fundamental_div_mod(x + a, m);
    lemma_fundamental_div_mod(x + b, m);
    assert(a < m && b < m);
    if (x + a) % m == (x + b) % m {
        // (x + a) - (x + b) would be a non-zero multiple of 2^64 smaller than 2^64
        assert(a - b == m * ((x + a) / m - (x + b) / m)) by (nonlinear_arith)
            requires
                x + a == m * ((x + a) / m) + (x + a) % m,
                x + b == m * ((x + b) / m) + (x + b) % m,
                (x + a) % m == (x + b) % m,
        ;
        let d = (x + a) / m - (x + b) / m;
        assert(false) by (nonlinear_arith)
            requires
                a - b == m * d,
                a != b,
                -m < a - b < m,
                m > 0,
        ;
    }
}

/// A deterministic fingerprint of the policy's actions.
pub fn policy_hash(policy: &Policy) -> (h: u64)
    ensures
        h == hash_of(policy.actions@),
{
    let mut h: u64 = 0;
    let mut i: usize = 0;
    while i < policy.actions.len()
        invariant
            i <= policy.actions@.len(),
            h == hash_of(policy.actions@.take(i as int)),
        decreases policy.actions@.len() - i,
    {
        let a = policy.actions[i];
        let ghost m: int = 0x1_0000_0000_0000_0000;
        let next = h.wrapping_mul(31).wrapping_add(a as u64);
        proof {
            assert(policy.actions@.take(i + 1).drop_last() =~= policy.actions@.take(i as int));
            let x = (h * 31) % m;
            lemma_add_mod_noop(h * 31, a as int, m);
            lemma_small_mod(a as nat, m as nat);
            lemma_small_mod(x as nat, m as nat);
            if x + a >= m {
                lemma_fundamental_div_mod_converse(x + a, m, 1, x + a - m);
            } else {
                lemma_small_mod((x + a) as nat, m as nat);
            }
        }
        h = next;
        i = i + 1;
    }
    assert(policy.actions@.take(i as int) =~= policy.actions@);
    h
}

/// How many policies `enumerate_policies(n_actions, horizon)` lists.
pub open spec fn policy_count(n_actions: nat, horizon: nat) -> nat {
    if horizon == 0 || n_actions == 0 {
        1
    } else {
        count(n_actions, horizon)
    }
}

/// The actions of the `k`-th policy listed by `enumerate_policies(n_actions, horizon)`:
/// `k` written with `horizon` digits in base `n_actions`.
pub open spec fn enumerated_actions(n_actions: nat, horizon: nat, k: nat) -> Seq<usize> {
    if horizon == 0 || n_actions == 0 {
        seq![]
    } else {
        digits(n_actions, horizon, k)
    }
}

fn copy_actions(actions: &Vec<usize>) -> (r: Vec<usize>)
    ensures
        r@ == actions@,
{
    let r = actions.clone();
    assert(r@ =~= actions@);
    r
}

/// Every sequence of `horizon` actions drawn from `0..n_actions`, in
/// lexicographic order (the last action varies fastest). With no actions or
/// a zero horizon the one policy listed is the empty one.
pub fn enumerate_policies(n_actions: usize, horizon: usize) -> (policies: Vec<Policy>)
    requires
        policy_count(n_actions as nat, horizon as nat) <= usize::MAX,
    ensures
        policies@.len() == policy_count(n_actions as nat, horizon as nat),
        forall|k: int|
            0 <= k < policies@.len() ==> {
                &&& #[trigger] policies@[k].actions@ == enumerated_actions(
                    n_actions as nat,
                    horizon as nat,
                    k as nat,
                )
                &&& policies@[k].horizon == policies@[k].actions@.len()
            },
{
    if horizon == 0 || n_actions == 0 {
        let mut single: Vec<Policy> = Vec::new();
        single.push(Policy::empty());
        return single;
    }
    let ghost n = n_actions as nat;
    let ghost h = horizon as nat;
    let mut policies: Vec<Policy> = Vec::new();
    let mut current: Vec<usize> = vec![0usize; horizon];
    proof {
        lemma_pow_positive(n as int, h);
        lemma_digits_of_multiple(n, h, 0);
        assert(current@ =~= zeros(h));
    }
    loop
        invariant_except_break
            policies@.len() < count(n, h),
            current@ == digits(n, h, policies@.len() as nat),
            forall|q: int|
                0 <= q < policies@.len() ==> {
                    &&& #[trigger] policies@[q].actions@ == digits(n, h, q as nat)
                    &&& policies@[q].horizon == h
                },
        invariant
            0 < n <= usize::MAX,
            0 < h,
            n == n_actions,
            h == horizon,
            0 < count(n, h) <= usize::MAX,
        ensures
            policies@.len() == count(n, h),
            forall|q: int|
                0 <= q < policies@.len() ==> {
                    &&& #[trigger] policies@[q].actions@ == digits(n, h, q as nat)
                    &&& policies@[q].horizon == h
                },
        decreases count(n, h) - policies@.len(),
    {
        let ghost k = policies@.len() as nat;
        let ghost before = policies@;
        proof {
            lemma_digits_shape(n, h, k);
        }
        policies.push(Policy::new(copy_actions(&current)));
        assert forall|q: int| 0 <= q < policies@.len() implies {
            &&& #[trigger] policies@[q].actions@ == digits(n, h, q as nat)
            &&& policies@[q].horizon == h
        } by {
            if q < k {
                assert(policies@[q] == before[q]);
            }
        }
        let mut carry = true;
        let mut i = horizon;
        proof {
            lemma_pow_step(n, 0);
            lemma_fundamental_div_mod_converse(k as int, 1, k as int, 0);
            assert(current@ =~= digits(n, h, k / count(n, 0)) + zeros(0));
        }
        while i > 0
            invariant
                0 < n <= usize::MAX,
                n == n_actions,
                h == horizon,
                i <= h,
                current@.len() == h,
                k < count(n, h),
                policies@.len() == k + 1,
                forall|q: int|
                    0 <= q < policies@.len() ==> {
                        &&& #[trigger] policies@[q].actions@ == digits(n, h, q as nat)
                        &&& policies@[q].horizon == h
                    },
                carry ==> {
                    &&& current@ == digits(n, i as nat, k / count(n, (h - i) as nat)) + zeros(
                        (h - i) as nat,
                    )
                    &&& k % count(n, (h - i) as nat) == count(n, (h - i) as nat) - 1
                },
                !carry ==> {
                    &&& current@ == digits(n, h, k + 1)
                    &&& current@ != zeros(h)
                },
            decreases i,
        {
            i = i - 1;
            if carry {
                let ghost j = (h - i - 1) as nat;
                let ghost q = k / count(n, j);
                let ghost hi = digits(n, i as nat, q / n);
                proof {
                    lemma_carry_step(n, (i + 1) as nat, j, k);
                    assert(current@[i as int] == (q % n) as usize);
                }
                let next = current[i] + 1;
                if next >= n_actions {
                    current.set(i, 0);
                    proof {
                        assert(current@ =~= hi + zeros(j + 1));
                        assert((h - i) as nat == j + 1);
                    }
                } else {
                    current.set(i, next);
                    carry = false;
                    proof {
                        assert((i + 1 + j) as nat == h);
                        assert(current@ =~= hi.push(next) + zeros(j));
                        assert(current@[i as int] != zeros(h)[i as int]);
                    }
                }
            }
        }
        if carry {
            proof {
                lemma_small_mod(k, count(n, h));
            }
            break ;
        }
        proof {
            if k + 1 == count(n, h) {
                lemma_digits_of_multiple(n, h, k + 1);
            }
        }
    }
    assert forall|k: int| 0 <= k < policies@.len() implies #[trigger] policies@[k].horizon
        == policies@[k].actions@.len() by {
        lemma_digits_shape(n, h, k as nat);
    }
    policies
}

} // verus!
