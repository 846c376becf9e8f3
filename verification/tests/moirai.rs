//! Keepers, quorums and confirmations.

use mneme::moirai::{quorum, AckOutcome, Collecting, DispatchError, Moirai, Plan};
use mneme::proto::ConsistencyLevel;

fn with_keepers(n: u64) -> Moirai {
    let mut m = Moirai::new(false);
    for id in 1..=n {
        m.add_keeper(id, format!("keeper-{id}"), format!("10.0.0.{id}:7379"), 0);
    }
    m
}

#[test]
fn quorum_formula() {
    assert_eq!(quorum(1), 1);
    assert_eq!(quorum(2), 2);
    assert_eq!(quorum(3), 2);
    assert_eq!(quorum(4), 3);
    assert_eq!(quorum(5), 3);
}

#[test]
fn solo_downgrades_quorum_to_eventual() {
    let m = Moirai::new(true);
    assert_eq!(m.effective_level(ConsistencyLevel::Quorum), ConsistencyLevel::Eventual);
    assert_eq!(m.effective_level(ConsistencyLevel::All), ConsistencyLevel::Eventual);
    assert_eq!(m.effective_level(ConsistencyLevel::One), ConsistencyLevel::One);
    assert_eq!(m.effective_level(ConsistencyLevel::Eventual), ConsistencyLevel::Eventual);
}

#[test]
fn non_solo_does_not_downgrade() {
    let m = Moirai::new(false);
    assert_eq!(m.effective_level(ConsistencyLevel::Quorum), ConsistencyLevel::Quorum);
    assert_eq!(m.effective_level(ConsistencyLevel::All), ConsistencyLevel::All);
}

#[test]
fn eventual_no_keepers_succeeds() {
    let m = Moirai::new(false);
    let result = m.dispatch(ConsistencyLevel::Eventual, 0, &[]);
    assert!(result.is_ok());
    let r = result.unwrap();
    assert_eq!(r.required, 0);
}

#[test]
fn one_no_keepers_fails() {
    let m = Moirai::new(false);
    // One confirmation of no keepers is none at all.
    let result = m.dispatch(ConsistencyLevel::One, 0, &[]);
    assert!(result.is_ok());
}

#[test]
fn quorum_no_keepers_fails() {
    let m = Moirai::new(false);
    let result = m.dispatch(ConsistencyLevel::Quorum, 0, &[]);
    assert!(result.is_err());
}

#[test]
fn eventual_fires_and_forgets() {
    let m = with_keepers(1);
    let result = m.dispatch(ConsistencyLevel::Eventual, 1, &[]);
    assert!(result.is_ok());
}

#[test]
fn one_with_keeper_waits_for_ack() {
    let m = with_keepers(1);
    let result = m.dispatch(ConsistencyLevel::One, 1, &[AckOutcome::Confirmed]);
    assert!(result.is_ok());
    assert_eq!(result.unwrap().acks, 1);
}

#[test]
fn add_remove_keeper() {
    let mut m = Moirai::new(false);
    m.add_keeper(42, "keeper-42".into(), "10.0.0.1:7379".into(), 1024);
    assert_eq!(m.keeper_count(), 1);
    assert_eq!(m.keeper_infos().len(), 1);

    m.remove_keeper(42);
    assert_eq!(m.keeper_count(), 0);
    assert!(m.keeper_infos().is_empty());
}

#[test]
fn remove_nonexistent_keeper() {
    let mut m = Moirai::new(false);
    m.remove_keeper(999);
    assert_eq!(m.keeper_count(), 0);
}

#[test]
fn quorum_calculation_3_keepers() {
    let m = with_keepers(3);
    let acks = [AckOutcome::Confirmed, AckOutcome::Confirmed, AckOutcome::Confirmed];
    let result = m.dispatch(ConsistencyLevel::Quorum, 3, &acks);
    assert!(result.is_ok());
    let r = result.unwrap();
    assert_eq!(r.required, 2);
    assert!(r.acks >= 2);
}

#[test]
fn all_1_keeper_needs_1() {
    let m = with_keepers(1);
    let result = m.dispatch(ConsistencyLevel::All, 1, &[AckOutcome::Confirmed]);
    assert!(result.is_ok());
    let r = result.unwrap();
    assert_eq!(r.required, 1);
    assert_eq!(r.acks, 1);
}

#[test]
fn dispatch_channel_full_fails_quorum() {
    let m = with_keepers(3);
    // Nothing could be sent to any of the three.
    let result = m.dispatch(ConsistencyLevel::Quorum, 0, &[]);
    assert!(matches!(result, Err(DispatchError::NotReachable { sent: 0, need: 2 })));
}

#[test]
fn too_few_confirmations_are_not_enough() {
    let m = with_keepers(3);
    let acks = [AckOutcome::Failed, AckOutcome::Confirmed, AckOutcome::TimedOut];
    let result = m.dispatch(ConsistencyLevel::Quorum, 3, &acks);
    assert!(matches!(result, Err(DispatchError::NotMet { acks: 1, need: 2 })));
    let acks = [AckOutcome::Closed, AckOutcome::Confirmed, AckOutcome::Confirmed];
    assert_eq!(m.dispatch(ConsistencyLevel::Quorum, 3, &acks).unwrap().acks, 2);
    let result = m.dispatch(ConsistencyLevel::All, 3, &acks);
    assert!(matches!(result, Err(DispatchError::NotMet { acks: 2, need: 3 })));
    let none = Moirai::new(false);
    let result = none.dispatch(ConsistencyLevel::Quorum, 0, &[]);
    assert!(matches!(result, Err(DispatchError::NotEnough { have: 0, need: 1 })));
}

#[test]
fn collecting_stops_once_enough_have_confirmed() {
    let mut c = Collecting::begin(2, 3).unwrap();
    assert!(c.waits());
    c.took(AckOutcome::Confirmed);
    assert!(c.waits());
    c.took(AckOutcome::Confirmed);
    assert!(!c.waits());
    let r = c.finish().unwrap();
    assert_eq!((r.acks, r.required), (2, 2));
    assert!(Collecting::begin(2, 1).is_err());
}

#[test]
fn plans_say_how_many_are_needed() {
    let m = with_keepers(3);
    assert!(matches!(m.plan(ConsistencyLevel::Eventual), Ok(Plan::FireAndForget)));
    assert!(matches!(m.plan(ConsistencyLevel::Quorum), Ok(Plan::Collect(2))));
    assert!(matches!(m.plan(ConsistencyLevel::All), Ok(Plan::Collect(3))));
}

#[test]
fn figures_of_keepers_are_kept() {
    let mut m = with_keepers(2);
    m.update_stats(2, 500, 100);
    assert_eq!((m.keeper_infos()[1].pool_bytes, m.keeper_infos()[1].used_bytes), (500, 100));
    assert_eq!(m.grant_of(2), Some(500));
    assert_eq!(m.grant_of(9), None);
}

#[test]
fn dispatch_errors_say_what_was_missing() {
    let none = Moirai::new(false).dispatch(ConsistencyLevel::Quorum, 0, &[]).unwrap_err();
    assert_eq!(none.message(ConsistencyLevel::Quorum), "Not enough keepers: have 0, need 1 for Quorum");
    let unsent = DispatchError::NotReachable { sent: 1, need: 3 };
    assert_eq!(
        unsent.message(ConsistencyLevel::All),
        "Consistency All not reachable: only 1/3 keeper channels available"
    );
    let unmet = DispatchError::NotMet { acks: 1, need: 2 };
    assert_eq!(unmet.message(ConsistencyLevel::Quorum), "Consistency Quorum not met: got 1/2 ACKs");
    assert_eq!((ConsistencyLevel::One.name(), ConsistencyLevel::Eventual.name()), ("One", "Eventual"));
}
