use rsqueue::{DumpedQueueEntry, QueueContext};

fn s(x: &str) -> String {
    x.to_string()
}

fn group(ids: &[&str]) -> Vec<String> {
    ids.iter().map(|x| x.to_string()).collect()
}

fn groups_of(entries: &[DumpedQueueEntry]) -> Vec<Vec<String>> {
    entries.iter().map(|e| e.group.clone()).collect()
}

#[test]
fn new_store_is_empty() {
    let c = QueueContext::new();
    assert!(c.dump(&s("q")).is_empty());
    assert!(c.locate(&s("a")).is_none());
    assert!(!c.is_queued(&s("a")));
}

#[test]
fn push_then_locate_reports_queue_position_and_group() {
    let mut c = QueueContext::new();
    c.push(&s("Q"), group(&["a", "b"]));
    let info = c.locate(&s("a")).expect("a is queued");
    assert_eq!(info.queue, "Q");
    assert_eq!(info.position, 0);
    assert_eq!(info.group, group(&["a", "b"]));
    let info_b = c.locate(&s("b")).expect("b is queued");
    assert_eq!(info_b.queue, "Q");
    assert_eq!(info_b.position, 0);
}

#[test]
fn locate_gives_position_of_later_group() {
    let mut c = QueueContext::new();
    c.push(&s("Q"), group(&["a"]));
    c.push(&s("Q"), group(&["b", "c"]));
    let info = c.locate(&s("c")).expect("c is queued");
    assert_eq!(info.position, 1);
    assert_eq!(info.group, group(&["b", "c"]));
}

#[test]
fn queued_member_is_dropped_from_a_later_push() {
    let mut c = QueueContext::new();
    c.push(&s("Q1"), group(&["a", "b"]));
    c.push(&s("Q2"), group(&["a", "c"]));
    // `a` stays where it was; only the unqueued `c` reaches Q2.
    let info = c.locate(&s("a")).expect("a is queued");
    assert_eq!(info.queue, "Q1");
    assert_eq!(info.group, group(&["a", "b"]));
    assert_eq!(groups_of(&c.dump(&s("Q2"))), vec![group(&["c"])]);
    assert_eq!(c.locate(&s("c")).expect("c is queued").queue, "Q2");
}

#[test]
fn group_of_queued_members_only_is_discarded() {
    let mut c = QueueContext::new();
    c.push(&s("Q1"), group(&["a", "b"]));
    c.push(&s("Q2"), group(&["b", "a"]));
    assert!(c.dump(&s("Q2")).is_empty());
    assert_eq!(c.dump(&s("Q1")).len(), 1);
}

#[test]
fn duplicate_member_within_one_group_is_kept() {
    let mut c = QueueContext::new();
    c.push(&s("Q"), group(&["a", "a"]));
    assert_eq!(groups_of(&c.dump(&s("Q"))), vec![group(&["a", "a"])]);
    c.remove_player(&s("a"));
    assert!(c.dump(&s("Q")).is_empty());
    assert!(!c.is_queued(&s("a")));
}

#[test]
fn pop_returns_oldest_groups_first() {
    let mut c = QueueContext::new();
    c.push(&s("Q"), group(&["a"]));
    c.push(&s("Q"), group(&["b", "c"]));
    c.push(&s("Q"), group(&["d"]));
    let popped = c.pop_many(&s("Q"), 2);
    assert_eq!(popped, vec![group(&["a"]), group(&["b", "c"])]);
    let rest = c.dump(&s("Q"));
    assert_eq!(rest.len(), 1);
    assert_eq!(rest[0].position, 0);
    assert_eq!(rest[0].group, group(&["d"]));
    assert!(!c.is_queued(&s("a")));
    assert!(!c.is_queued(&s("b")));
    assert!(!c.is_queued(&s("c")));
    assert!(c.is_queued(&s("d")));
}

#[test]
fn pop_on_empty_or_unknown_queue_yields_nothing() {
    let mut c = QueueContext::new();
    assert!(c.pop_many(&s("nowhere"), 3).is_empty());
    assert!(c.pop(&s("nowhere")).is_none());
    c.push(&s("Q"), group(&["a"]));
    assert_eq!(c.pop_many(&s("Q"), 5), vec![group(&["a"])]);
    assert!(c.pop_many(&s("Q"), 1).is_empty());
    assert!(c.pop(&s("Q")).is_none());
}

#[test]
fn pop_zero_takes_nothing() {
    let mut c = QueueContext::new();
    c.push(&s("Q"), group(&["a"]));
    assert!(c.pop_many(&s("Q"), 0).is_empty());
    assert!(c.is_queued(&s("a")));
}

#[test]
fn popped_participant_can_be_queued_again() {
    let mut c = QueueContext::new();
    c.push(&s("Q"), group(&["a", "b"]));
    assert_eq!(c.pop(&s("Q")), Some(group(&["a", "b"])));
    c.push(&s("R"), group(&["a"]));
    assert_eq!(c.locate(&s("a")).expect("a is queued").queue, "R");
}

#[test]
fn remove_dissolves_whole_group() {
    let mut c = QueueContext::new();
    c.push(&s("Q"), group(&["a", "b", "c"]));
    c.remove_player(&s("b"));
    assert!(c.dump(&s("Q")).is_empty());
    assert!(c.locate(&s("a")).is_none());
    assert!(c.locate(&s("c")).is_none());
}

#[test]
fn remove_keeps_other_groups_in_order() {
    let mut c = QueueContext::new();
    c.push(&s("Q"), group(&["a"]));
    c.push(&s("Q"), group(&["b", "c"]));
    c.push(&s("Q"), group(&["d"]));
    c.remove_player(&s("c"));
    let d = c.dump(&s("Q"));
    assert_eq!(groups_of(&d), vec![group(&["a"]), group(&["d"])]);
    assert_eq!(d[1].position, 1);
    assert_eq!(c.locate(&s("d")).expect("d is queued").position, 1);
}

#[test]
fn remove_of_unqueued_participant_changes_nothing() {
    let mut c = QueueContext::new();
    c.push(&s("Q"), group(&["a", "b"]));
    c.remove_player(&s("z"));
    assert_eq!(groups_of(&c.dump(&s("Q"))), vec![group(&["a", "b"])]);
    assert!(c.is_queued(&s("a")));
    assert!(c.is_queued(&s("b")));
    c.remove_player(&s("a"));
    c.remove_player(&s("a"));
    assert!(c.dump(&s("Q")).is_empty());
}

#[test]
fn remove_players_handles_each_in_turn() {
    let mut c = QueueContext::new();
    c.push(&s("Q"), group(&["a", "b"]));
    c.push(&s("R"), group(&["c"]));
    c.push(&s("R"), group(&["d"]));
    c.remove_players(&group(&["b", "x", "c"]));
    assert!(c.dump(&s("Q")).is_empty());
    assert_eq!(groups_of(&c.dump(&s("R"))), vec![group(&["d"])]);
    assert!(!c.is_queued(&s("a")));
}

#[test]
fn dump_positions_follow_current_order() {
    let mut c = QueueContext::new();
    for id in ["a", "b", "c", "d"] {
        c.push(&s("Q"), group(&[id]));
    }
    let d = c.dump(&s("Q"));
    let positions: Vec<usize> = d.iter().map(|e| e.position).collect();
    assert_eq!(positions, vec![0, 1, 2, 3]);
    c.pop(&s("Q"));
    c.remove_player(&s("c"));
    let d = c.dump(&s("Q"));
    assert_eq!(d.len(), 2);
    assert_eq!((d[0].position, d[0].group.clone()), (0, group(&["b"])));
    assert_eq!((d[1].position, d[1].group.clone()), (1, group(&["d"])));
}

#[test]
fn add_groups_filters_each_group_separately() {
    let mut c = QueueContext::new();
    c.push(&s("Q"), group(&["a"]));
    let batch = vec![group(&["a"]), group(&["b", "a"]), group(&["b", "c"])];
    c.add_groups(&s("Q"), &batch);
    // The first group empties and is skipped; `b` from the second blocks it in the third.
    assert_eq!(
        groups_of(&c.dump(&s("Q"))),
        vec![group(&["a"]), group(&["b"]), group(&["c"])]
    );
}

#[test]
fn disjoint_pushes_to_different_queues_are_all_kept() {
    let mut c = QueueContext::new();
    c.add_groups(&s("Q1"), &vec![group(&["a", "b"]), group(&["c"])]);
    c.add_groups(&s("Q2"), &vec![group(&["x"]), group(&["y", "z"])]);
    c.push(&s("Q1"), group(&["d"]));
    assert_eq!(
        groups_of(&c.dump(&s("Q1"))),
        vec![group(&["a", "b"]), group(&["c"]), group(&["d"])]
    );
    assert_eq!(groups_of(&c.dump(&s("Q2"))), vec![group(&["x"]), group(&["y", "z"])]);
    for id in ["a", "b", "c", "d"] {
        assert_eq!(c.locate(&s(id)).expect("queued").queue, "Q1");
    }
    for id in ["x", "y", "z"] {
        assert_eq!(c.locate(&s(id)).expect("queued").queue, "Q2");
    }
}

#[test]
fn index_holds_exactly_the_queued_members() {
    let mut c = QueueContext::new();
    c.push(&s("Q"), group(&["a", "b"]));
    c.push(&s("R"), group(&["c"]));
    c.push(&s("Q"), group(&["d", "a"]));
    c.pop(&s("R"));
    c.remove_player(&s("b"));
    let names = ["a", "b", "c", "d", "e"];
    for id in names {
        let mut count = 0;
        for q in ["Q", "R"] {
            for e in c.dump(&s(q)) {
                count += e.group.iter().filter(|m| m.as_str() == id).count();
            }
        }
        assert_eq!(c.is_queued(&s(id)), count == 1, "identifier {}", id);
    }
    assert!(c.is_queued(&s("d")));
}

#[test]
fn get_queue_returns_a_copy_and_creates_the_queue() {
    let mut c = QueueContext::new();
    assert!(c.get_queue(&s("Q")).is_empty());
    c.push(&s("Q"), group(&["a"]));
    let copy = c.get_queue(&s("Q"));
    assert_eq!(copy, vec![group(&["a"])]);
    assert!(c.dump(&s("Q")).len() == 1);
}
