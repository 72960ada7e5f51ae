use active_inference::policy::{enumerate_policies, filter_policies, policy_hash, Policy};

#[test]
fn test_policy_creation() {
    let p = Policy::new(vec![0, 1, 2]);
    assert_eq!(p.len(), 3);
    assert_eq!(p.horizon, 3);
}

#[test]
fn test_policy_empty() {
    let p = Policy::empty();
    assert!(p.is_empty());
}

#[test]
fn test_enumerate_policies() {
    assert_eq!(enumerate_policies(2, 2).len(), 4);
}

#[test]
fn test_enumerate_policies_single() {
    assert_eq!(enumerate_policies(3, 1).len(), 3);
}

#[test]
fn test_filter_policies() {
    let ps = enumerate_policies(2, 2);
    assert_eq!(filter_policies(&ps, |p| p.actions[0] == 0).len(), 2);
}

#[test]
fn test_policy_hash_same() {
    let p1 = Policy::new(vec![0, 1]);
    let p2 = Policy::new(vec![0, 1]);
    assert_eq!(policy_hash(&p1), policy_hash(&p2));
}

#[test]
fn test_policy_hash_diff() {
    let p1 = Policy::new(vec![0, 1]);
    let p2 = Policy::new(vec![1, 0]);
    assert_ne!(policy_hash(&p1), policy_hash(&p2));
}

#[test]
fn test_policy_len() {
    let p = Policy::new(vec![0, 1, 2, 3]);
    assert_eq!(p.len(), 4);
}

#[test]
fn test_policy_not_empty() {
    let p = Policy::new(vec![0]);
    assert!(!p.is_empty());
}

#[test]
fn test_enumerate_3x3() {
    assert_eq!(enumerate_policies(3, 3).len(), 27);
}

// ── Further cases ────────────────────────────────────────────────────────────

#[test]
fn enumerate_lists_sequences_in_lexicographic_order() {
    let ps = enumerate_policies(2, 2);
    let got: Vec<Vec<usize>> = ps.iter().map(|p| p.actions.clone()).collect();
    assert_eq!(got, vec![vec![0, 0], vec![0, 1], vec![1, 0], vec![1, 1]]);
    for p in &ps {
        assert_eq!(p.horizon, 2);
    }
}

#[test]
fn enumerate_three_actions_two_steps() {
    let ps = enumerate_policies(3, 2);
    let got: Vec<Vec<usize>> = ps.iter().map(|p| p.actions.clone()).collect();
    assert_eq!(
        got,
        vec![
            vec![0, 0],
            vec![0, 1],
            vec![0, 2],
            vec![1, 0],
            vec![1, 1],
            vec![1, 2],
            vec![2, 0],
            vec![2, 1],
            vec![2, 2],
        ]
    );
}

#[test]
fn enumerate_two_actions_three_steps_gives_eight() {
    let ps = enumerate_policies(2, 3);
    assert_eq!(ps.len(), 8);
    assert_eq!(ps[5].actions, vec![1, 0, 1]);
}

#[test]
fn enumerate_lists_every_sequence_once() {
    let ps = enumerate_policies(3, 3);
    for a in 0..3usize {
        for b in 0..3usize {
            for c in 0..3usize {
                let hits = ps.iter().filter(|p| p.actions == vec![a, b, c]).count();
                assert_eq!(hits, 1);
                // the position of a sequence is its value in base 3
                assert_eq!(ps[a * 9 + b * 3 + c].actions, vec![a, b, c]);
            }
        }
    }
}

#[test]
fn enumerate_single_action() {
    let ps = enumerate_policies(1, 4);
    assert_eq!(ps.len(), 1);
    assert_eq!(ps[0].actions, vec![0, 0, 0, 0]);
    assert_eq!(ps[0].horizon, 4);
}

#[test]
fn enumerate_zero_horizon_is_one_empty_policy() {
    let ps = enumerate_policies(5, 0);
    assert_eq!(ps.len(), 1);
    assert!(ps[0].is_empty());
    assert_eq!(ps[0].horizon, 0);
}

#[test]
fn enumerate_no_actions_is_one_empty_policy() {
    let ps = enumerate_policies(0, 3);
    assert_eq!(ps.len(), 1);
    assert!(ps[0].is_empty());
    assert_eq!(ps[0].horizon, 0);
}

#[test]
fn filter_keeps_order_and_copies() {
    let ps = enumerate_policies(2, 2);
    let kept = filter_policies(&ps, |p| p.actions[1] == 1);
    let got: Vec<Vec<usize>> = kept.iter().map(|p| p.actions.clone()).collect();
    assert_eq!(got, vec![vec![0, 1], vec![1, 1]]);
    assert_eq!(kept[0].horizon, 2);
}

#[test]
fn filter_nothing_and_everything() {
    let ps = enumerate_policies(2, 2);
    assert!(filter_policies(&ps, |_| false).is_empty());
    assert_eq!(filter_policies(&ps, |_| true).len(), 4);
    assert!(filter_policies(&[], |_| true).is_empty());
}

#[test]
fn filter_keeps_recorded_horizon() {
    let odd = Policy { actions: vec![3], horizon: 7 };
    let kept = filter_policies(&[odd], |_| true);
    assert_eq!(kept[0].horizon, 7);
    assert_eq!(kept[0].actions, vec![3]);
}

#[test]
fn hash_exact_values() {
    assert_eq!(policy_hash(&Policy::empty()), 0);
    assert_eq!(policy_hash(&Policy::new(vec![0, 1])), 1);
    assert_eq!(policy_hash(&Policy::new(vec![1, 0])), 31);
    assert_eq!(policy_hash(&Policy::new(vec![1, 2, 3])), 31 * 31 + 2 * 31 + 3);
}

#[test]
fn hash_wraps_at_64_bits() {
    let p = Policy::new(vec![u64::MAX as usize, 5]);
    assert_eq!(policy_hash(&p), u64::MAX - 25);
}

#[test]
fn hash_ignores_horizon() {
    let p = Policy { actions: vec![4, 2], horizon: 9 };
    assert_eq!(policy_hash(&p), policy_hash(&Policy::new(vec![4, 2])));
}

#[test]
fn new_and_empty() {
    let p = Policy::new(vec![]);
    assert!(p.is_empty());
    assert_eq!(p.len(), 0);
    assert_eq!(p.horizon, 0);
    assert_eq!(Policy::empty().len(), 0);
}
