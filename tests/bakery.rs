use automerge_repo::bakery::{is_monotonic_step, Bakery, TICKET_SENTINEL};
use automerge_repo::order::id_precedes;

fn ids(names: &[&str]) -> Vec<String> {
    names.iter().map(|s| s.to_string()).collect()
}

fn ack_all(b: &mut Bakery) {
    for i in 0..b.len() {
        b.acknowledge(i);
    }
}

/// The startup barrier: every participant resets to idle and all of them
/// acknowledge.
fn started(names: &[&str]) -> Bakery {
    let mut b = Bakery::new(ids(names)).unwrap();
    for i in 0..b.len() {
        b.release(i);
    }
    ack_all(&mut b);
    for i in 0..b.len() {
        assert!(b.release_acked_by_all(i));
    }
    b
}

#[test]
fn new_holds_sentinels_everywhere() {
    let b = Bakery::new(ids(&["1", "2", "3"])).unwrap();
    assert_eq!(b.len(), 3);
    for i in 0..3 {
        assert_eq!(b.ticket(i), TICKET_SENTINEL);
        assert_eq!(b.output_seen(i), 0);
        for j in 0..3 {
            assert_eq!(b.view_of(i, j), TICKET_SENTINEL);
        }
    }
    assert_eq!(b.output(), 0);
    assert_eq!(b.id(1), "2");
}

#[test]
fn new_rejects_duplicate_ids() {
    assert!(Bakery::new(ids(&["1", "2", "1"])).is_none());
    assert!(Bakery::new(ids(&[])).is_some());
}

#[test]
fn index_of_finds_members_only() {
    let b = Bakery::new(ids(&["a", "b", "c"])).unwrap();
    assert_eq!(b.index_of(&"c".to_string()), Some(2));
    assert_eq!(b.index_of(&"d".to_string()), None);
}

#[test]
fn no_ticket_while_sentinel_held() {
    let mut b = Bakery::new(ids(&["1", "2", "3"])).unwrap();
    assert_eq!(b.max_ticket(), TICKET_SENTINEL);
    assert_eq!(b.pick_ticket(0), None);
    assert_eq!(b.ticket(0), TICKET_SENTINEL);
    // Barriers stay closed until every participant is idle.
    b.release(0);
    b.acknowledge(0);
    assert!(!b.release_acked_by_all(0));
}

#[test]
fn three_participants_one_visit() {
    let mut b = started(&["1", "2", "3"]);
    for i in 0..3 {
        assert_eq!(b.ticket(i), 0);
        for j in 0..3 {
            assert_eq!(b.view_of(i, j), 0);
        }
    }
    let t = b.pick_ticket(0).unwrap();
    assert_eq!(t, 1);
    assert!(!b.may_enter(0, t));
    b.acknowledge(1);
    assert!(!b.may_enter(0, t));
    b.acknowledge(2);
    assert!(b.may_enter(0, t));

    let out = b.increment_output(0).unwrap();
    assert_eq!(out, 1);
    assert_eq!(b.output(), 1);
    assert!(!b.output_acked_by_all(out));
    b.acknowledge(1);
    b.acknowledge(2);
    assert!(b.output_acked_by_all(out));
    for i in 0..3 {
        assert_eq!(b.output_seen(i), 1);
    }

    b.release(0);
    assert!(!b.release_acked_by_all(0));
    ack_all(&mut b);
    assert!(b.release_acked_by_all(0));
    assert_eq!(b.output(), 1);
    assert_eq!(b.ticket(0), 0);
}

fn tie_replicas() -> (Bakery, Bakery) {
    let mut r2 = started(&["1", "2", "3"]);
    let mut r3 = started(&["1", "2", "3"]);
    for r in [&mut r2, &mut r3] {
        for _ in 0..4 {
            r.pick_ticket(0).unwrap();
        }
        assert_eq!(r.ticket(0), 4);
        ack_all(r);
    }
    assert_eq!(r2.pick_ticket(1), Some(5));
    assert_eq!(r3.pick_ticket(2), Some(5));
    (r2, r3)
}

fn check_tie(mut b: Bakery) {
    ack_all(&mut b);
    assert_eq!(b.ticket(1), 5);
    assert_eq!(b.ticket(2), 5);
    assert!(b.may_enter(0, 4));
    assert!(!b.may_enter(1, 5));
    assert!(!b.may_enter(2, 5));
    b.release(0);
    ack_all(&mut b);
    assert!(b.may_enter(1, 5));
    assert!(!b.may_enter(2, 5));
    b.release(1);
    ack_all(&mut b);
    assert!(b.may_enter(2, 5));
}

#[test]
fn tie_goes_to_smaller_id() {
    // "3"'s pick reaches "2"'s replica.
    let (mut r2, r3) = tie_replicas();
    r2.apply_remote(&r3, 2);
    check_tie(r2);
    // "2"'s pick reaches "3"'s replica.
    let (r2, mut r3) = tie_replicas();
    r3.apply_remote(&r2, 1);
    check_tie(r3);
}

#[test]
fn only_one_enters() {
    let mut b = started(&["a", "b", "c"]);
    let ta = b.pick_ticket(0).unwrap();
    let tb = b.pick_ticket(1).unwrap();
    let tc = b.pick_ticket(2).unwrap();
    assert_eq!((ta, tb, tc), (1, 2, 3));
    ack_all(&mut b);
    assert!(b.may_enter(0, ta));
    assert!(!b.may_enter(1, tb));
    assert!(!b.may_enter(2, tc));
}

#[test]
fn entry_waits_for_acknowledgement() {
    let mut b = started(&["a", "b"]);
    let t = b.pick_ticket(1).unwrap();
    assert!(!b.may_enter(1, t));
    b.acknowledge(0);
    assert!(b.may_enter(1, t));
}

#[test]
fn ticket_is_one_above_the_largest() {
    let mut b = started(&["a", "b", "c"]);
    assert_eq!(b.pick_ticket(2), Some(1));
    assert_eq!(b.pick_ticket(0), Some(2));
    assert_eq!(b.max_ticket(), 2);
    // The view published with the ticket is the tickets just before it.
    assert_eq!(b.view_of(0, 2), 1);
    assert_eq!(b.view_of(0, 0), 0);
}

#[test]
fn counter_moves_by_one() {
    let mut b = started(&["a", "b"]);
    let mut last = b.output();
    for _ in 0..5 {
        let t = b.pick_ticket(0).unwrap();
        ack_all(&mut b);
        assert!(b.may_enter(0, t));
        let new = b.increment_output(0).unwrap();
        assert_eq!(new, last + 1);
        assert!(is_monotonic_step(last, new));
        last = new;
        b.release(0);
        ack_all(&mut b);
    }
    assert_eq!(b.output(), 5);
}

#[test]
fn acknowledger_round_converges() {
    let mut b = started(&["x", "y", "z"]);
    b.pick_ticket(1).unwrap();
    b.pick_ticket(2).unwrap();
    b.increment_output(1).unwrap();
    let (view, out) = b.published(0);
    assert!(b.acknowledgement_due(&view, out));
    for i in [2, 0, 1] {
        let (v, o) = b.acknowledge(i);
        assert_eq!(v, vec![0, 1, 2]);
        assert_eq!(o, 1);
    }
    for i in 0..3 {
        let (v, o) = b.published(i);
        assert_eq!(v, vec![b.ticket(0), b.ticket(1), b.ticket(2)]);
        assert_eq!(o, b.output());
        assert!(!b.acknowledgement_due(&v, o));
    }
    assert!(b.output_acked_by_all(1));
}

#[test]
fn acknowledgement_due_on_any_difference() {
    let b = started(&["x", "y"]);
    assert!(!b.acknowledgement_due(&vec![0, 0], 0));
    assert!(b.acknowledgement_due(&vec![0, 0], 1));
    assert!(b.acknowledgement_due(&vec![0, 1], 0));
    assert!(b.acknowledgement_due(&vec![0], 0));
}

#[test]
fn apply_remote_takes_the_record_and_the_larger_counter() {
    let mut a = started(&["p", "q"]);
    let mut c = started(&["p", "q"]);
    c.pick_ticket(1).unwrap();
    c.increment_output(1).unwrap();
    a.apply_remote(&c, 1);
    assert_eq!(a.ticket(1), 1);
    assert_eq!(a.output(), 1);
    assert_eq!(a.output_seen(1), 1);
    assert_eq!(a.output_seen(0), 0);
    assert_eq!(a.ticket(0), 0);
}

#[test]
fn monotonic_step_is_strict() {
    assert!(is_monotonic_step(0, 1));
    assert!(!is_monotonic_step(3, 3));
    assert!(!is_monotonic_step(4, 2));
}

#[test]
fn ids_compare_by_bytes() {
    let s = |x: &str| x.to_string();
    assert!(id_precedes(&s("1"), &s("2")));
    assert!(!id_precedes(&s("2"), &s("1")));
    assert!(id_precedes(&s("10"), &s("2")));
    assert!(id_precedes(&s("a"), &s("ab")));
    assert!(!id_precedes(&s("ab"), &s("a")));
    assert!(!id_precedes(&s("same"), &s("same")));
    assert!(id_precedes(&s("z"), &s("\u{e9}")));
    assert!(!id_precedes(&s(""), &s("")));
    assert!(id_precedes(&s(""), &s("a")));
}

#[test]
fn from_parts_checks_the_shape() {
    let names = ids(&["a", "b"]);
    let ok = Bakery::from_parts(names.clone(), vec![0, 3], vec![vec![0, 3], vec![0, 0]], 2, vec![2, 1]);
    let b = ok.unwrap();
    assert_eq!(b.ticket(1), 3);
    assert_eq!(b.view_of(0, 1), 3);
    assert_eq!(b.output_seen(1), 1);
    assert!(Bakery::from_parts(names.clone(), vec![0], vec![vec![0, 0], vec![0, 0]], 0, vec![0, 0]).is_none());
    assert!(Bakery::from_parts(names.clone(), vec![0, 0], vec![vec![0, 0], vec![0]], 0, vec![0, 0]).is_none());
    assert!(Bakery::from_parts(names.clone(), vec![0, 0], vec![vec![0, 0], vec![0, 0]], 0, vec![0, 1]).is_none());
    assert!(Bakery::from_parts(ids(&["a", "a"]), vec![0, 0], vec![vec![0, 0], vec![0, 0]], 0, vec![0, 0]).is_none());
}

#[test]
fn every_requester_enters_in_turn() {
    let mut b = started(&["a", "b", "c"]);
    let tickets: Vec<u32> = (0..3).map(|i| b.pick_ticket(i).unwrap()).collect();
    ack_all(&mut b);
    for turn in 0..3 {
        for i in 0..3 {
            let holds = b.ticket(i) != 0;
            assert_eq!(holds && b.may_enter(i, tickets[i]), i == turn);
        }
        assert_eq!(b.increment_output(turn), Some(turn as u32 + 1));
        b.release(turn);
        ack_all(&mut b);
        assert!(b.release_acked_by_all(turn));
    }
    assert_eq!(b.output(), 3);
}
