use active_inference::action::{action_at, action_label, actions_equal, execute_policy, first_action};
use active_inference::policy::Policy;

#[test]
fn test_first_action() {
    assert_eq!(first_action(&Policy::new(vec![2, 1, 0])), Some(2));
}

#[test]
fn test_action_at() {
    let p = Policy::new(vec![0, 1, 2]);
    assert_eq!(action_at(&p, 1), Some(1));
    assert_eq!(action_at(&p, 5), None);
}

#[test]
fn test_execute_policy() {
    assert_eq!(execute_policy(&Policy::new(vec![0, 1]), 0, |s, a| s + a + 1), vec![0, 1, 3]);
}

#[test]
fn test_actions_equal() {
    assert!(actions_equal(1, 1));
    assert!(!actions_equal(1, 2));
}

#[test]
fn test_action_label() {
    assert_eq!(action_label(1, &["left", "right", "up"]), Some("right".into()));
}

// ── Further cases ────────────────────────────────────────────────────────────

#[test]
fn first_action_of_empty_policy() {
    assert_eq!(first_action(&Policy::empty()), None);
}

#[test]
fn first_action_is_action_at_zero() {
    for actions in [vec![], vec![7], vec![3, 4, 5]] {
        let p = Policy::new(actions);
        assert_eq!(first_action(&p), action_at(&p, 0));
    }
}

#[test]
fn action_at_edges() {
    let p = Policy::new(vec![9, 8, 7]);
    assert_eq!(action_at(&p, 0), Some(9));
    assert_eq!(action_at(&p, 2), Some(7));
    assert_eq!(action_at(&p, 3), None);
    assert_eq!(action_at(&p, usize::MAX), None);
}

#[test]
fn execute_empty_policy_stays_put() {
    assert_eq!(execute_policy(&Policy::empty(), 42, |s, a| s * a), vec![42]);
}

#[test]
fn execute_policy_follows_transitions() {
    let p = Policy::new(vec![2, 0, 1, 1]);
    let states = execute_policy(&p, 5, |s, a| (s * 3 + a) % 7);
    assert_eq!(states, vec![5, 3, 2, 0, 1]);
    assert_eq!(states.len(), p.horizon + 1);
}

#[test]
fn action_label_out_of_range() {
    assert_eq!(action_label(3, &["left", "right", "up"]), None);
    assert_eq!(action_label(0, &[]), None);
    assert_eq!(action_label(0, &["left"]), Some(String::from("left")));
}

#[test]
fn execute_concatenation_is_two_runs() {
    let step = |s: usize, a: usize| (s * 5 + a + 1) % 11;
    let first = execute_policy(&Policy::new(vec![1, 2]), 3, step);
    let second = execute_policy(&Policy::new(vec![0, 4]), *first.last().unwrap(), step);
    let whole = execute_policy(&Policy::new(vec![1, 2, 0, 4]), 3, step);
    let mut joined = first.clone();
    joined.extend_from_slice(&second[1..]);
    assert_eq!(whole, joined);
}

#[test]
fn execute_only_calls_transition_on_reached_states() {
    // the transition would overflow at usize::MAX, a state this run never reaches
    let states = execute_policy(&Policy::new(vec![0, 1]), usize::MAX - 4, |s, a| s + a + 1);
    assert_eq!(states, vec![usize::MAX - 4, usize::MAX - 3, usize::MAX - 1]);
}
