use std::collections::VecDeque;
use trace_tally::ansi::{push_clear_sequence, push_decimal};
use trace_tally::{
    EventView, FrameWriter, IdGenerator, Retention, TaskId, TaskStore, TaskView, Visit,
};

fn store() -> TaskStore<String, String> {
    TaskStore::new()
}

fn children(s: &TaskStore<String, String>, id: TaskId) -> Vec<usize> {
    let task = s.task(&id);
    (0..task.subtask_count())
        .map(|i| task.subtask(i).raw())
        .collect()
}

fn events(s: &TaskStore<String, String>, id: TaskId) -> Vec<String> {
    s.task(&id).events().iter().cloned().collect()
}

#[test]
fn new_store_holds_only_the_root() {
    let s = store();
    assert!(s.contains(TaskId::root()));
    assert!(!s.contains(TaskId::from(1)));
    assert_eq!(s.len(), 1);
    assert_eq!(s.retention(), Retention::Rolling(3));
    let root = s.task(&TaskId::root());
    assert_eq!(root.depth(), 0);
    assert_eq!(root.parent(), None);
    assert!(root.data().is_none());
    assert!(!root.completed());
    assert!(!root.cancelled());
    assert_eq!(root.subtask_count(), 0);
    assert_eq!(root.events().len(), 0);
}

#[test]
fn with_max_events_sets_a_rolling_window() {
    let s: TaskStore<String, String> = TaskStore::with_max_events(64);
    assert_eq!(s.retention(), Retention::Rolling(64));
    let s: TaskStore<String, String> = TaskStore::with_retention(Retention::KeepLast);
    assert_eq!(s.retention(), Retention::KeepLast);
}

#[test]
fn task_id_root_and_values() {
    assert!(TaskId::root().is_root());
    assert!(!TaskId::from(1).is_root());
    assert!(!TaskId::new(7).is_root());
    assert_eq!(TaskId::new(7), TaskId::from(7));
    assert_eq!(TaskId::new(7).raw(), 7);
    assert_eq!(TaskId::root().raw(), 0);
    assert_eq!(TaskId::checked(0), None);
    assert_eq!(TaskId::checked(12), Some(TaskId::from(12)));
    assert_ne!(TaskId::from(1), TaskId::from(2));
}

#[test]
fn started_task_is_listed_once_one_level_below_its_parent() {
    let mut s = store();
    s.start(TaskId::from(1), None, "a".to_string());
    s.start(TaskId::from(2), Some(TaskId::from(1)), "b".to_string());
    s.start(TaskId::from(3), Some(TaskId::from(1)), "c".to_string());
    s.start(TaskId::from(4), Some(TaskId::from(3)), "d".to_string());
    assert_eq!(children(&s, TaskId::root()), vec![1]);
    assert_eq!(children(&s, TaskId::from(1)), vec![2, 3]);
    assert_eq!(children(&s, TaskId::from(2)), Vec::<usize>::new());
    assert_eq!(children(&s, TaskId::from(3)), vec![4]);
    assert_eq!(s.task(&TaskId::from(1)).depth(), 1);
    assert_eq!(s.task(&TaskId::from(2)).depth(), 2);
    assert_eq!(s.task(&TaskId::from(3)).depth(), 2);
    assert_eq!(s.task(&TaskId::from(4)).depth(), 3);
    assert_eq!(s.task(&TaskId::from(1)).parent(), None);
    assert_eq!(s.task(&TaskId::from(4)).parent(), Some(TaskId::from(3)));
    assert_eq!(s.task(&TaskId::from(4)).data(), Some(&"d".to_string()));
    assert_eq!(s.len(), 5);
    assert_eq!(s.task(&TaskId::from(1)).subtask_index(TaskId::from(3)), Some(1));
    assert_eq!(s.task(&TaskId::from(1)).subtask_index(TaskId::from(4)), None);
}

#[test]
fn resolve_falls_back_to_the_root() {
    let mut s = store();
    s.start(TaskId::from(1), None, "a".to_string());
    assert_eq!(s.resolve(None), TaskId::root());
    assert_eq!(s.resolve(Some(TaskId::from(1))), TaskId::from(1));
    assert_eq!(s.resolve(Some(TaskId::from(2))), TaskId::root());
}

#[test]
fn events_below_the_root_roll() {
    let mut s = store();
    s.start(TaskId::from(1), None, "a".to_string());
    for i in 0..5 {
        s.event(Some(TaskId::from(1)), format!("e{}", i));
    }
    assert_eq!(events(&s, TaskId::from(1)), vec!["e2", "e3", "e4"]);
    for i in 0..5 {
        s.event(None, format!("r{}", i));
    }
    assert_eq!(events(&s, TaskId::root()), vec!["r0", "r1", "r2", "r3", "r4"]);
    s.clear_root_events();
    assert_eq!(events(&s, TaskId::root()), Vec::<String>::new());
    assert_eq!(events(&s, TaskId::from(1)), vec!["e2", "e3", "e4"]);
}

#[test]
fn remove_takes_the_subtree_and_keeps_the_order_of_the_rest() {
    let mut s = store();
    s.start(TaskId::from(1), None, "a".to_string());
    s.start(TaskId::from(2), None, "b".to_string());
    s.start(TaskId::from(3), None, "c".to_string());
    s.start(TaskId::from(4), Some(TaskId::from(2)), "d".to_string());
    s.start(TaskId::from(5), Some(TaskId::from(4)), "e".to_string());
    s.start(TaskId::from(6), Some(TaskId::from(3)), "f".to_string());
    s.remove(TaskId::from(2));
    assert_eq!(children(&s, TaskId::root()), vec![1, 3]);
    assert!(!s.contains(TaskId::from(2)));
    assert!(!s.contains(TaskId::from(4)));
    assert!(!s.contains(TaskId::from(5)));
    assert!(s.contains(TaskId::from(6)));
    assert_eq!(children(&s, TaskId::from(3)), vec![6]);
    assert_eq!(s.task(&TaskId::from(6)).data(), Some(&"f".to_string()));
    assert_eq!(s.len(), 4);
    s.remove(TaskId::from(6));
    assert_eq!(children(&s, TaskId::from(3)), Vec::<usize>::new());
    s.remove(TaskId::from(99));
    assert_eq!(s.len(), 3);
}

#[test]
fn prune_removes_done_children_of_the_root_only() {
    let mut s = store();
    s.start(TaskId::from(1), None, "a".to_string());
    s.start(TaskId::from(2), Some(TaskId::from(1)), "b".to_string());
    s.start(TaskId::from(3), None, "c".to_string());
    s.start(TaskId::from(4), Some(TaskId::from(3)), "d".to_string());
    s.start(TaskId::from(5), None, "e".to_string());
    s.end(TaskId::from(2));
    s.end(TaskId::from(3));
    s.prune();
    assert_eq!(children(&s, TaskId::root()), vec![1, 5]);
    assert!(s.contains(TaskId::from(2)));
    assert!(s.task(&TaskId::from(2)).completed());
    assert!(!s.contains(TaskId::from(3)));
    assert!(!s.contains(TaskId::from(4)));
    assert_eq!(s.len(), 4);
    // a task may take the place of one that was pruned
    s.start(TaskId::from(3), Some(TaskId::from(1)), "again".to_string());
    assert_eq!(children(&s, TaskId::from(1)), vec![2, 3]);
    assert_eq!(s.task(&TaskId::from(3)).depth(), 2);
}

#[test]
fn cancel_all_twice_is_cancel_all_once() {
    let mut s = store();
    s.start(TaskId::from(1), None, "a".to_string());
    s.start(TaskId::from(2), Some(TaskId::from(1)), "b".to_string());
    s.cancel_all();
    let once: Vec<bool> = [0usize, 1, 2]
        .iter()
        .map(|i| s.task(&TaskId(*i)).cancelled())
        .collect();
    s.cancel_all();
    let twice: Vec<bool> = [0usize, 1, 2]
        .iter()
        .map(|i| s.task(&TaskId(*i)).cancelled())
        .collect();
    assert_eq!(once, vec![false, true, true]);
    assert_eq!(once, twice);
}

fn pushed(rule: Retention, n: usize) -> Vec<usize> {
    let mut buf: VecDeque<usize> = VecDeque::new();
    for i in 0..n {
        rule.push(&mut buf, i);
    }
    buf.into_iter().collect()
}

#[test]
fn retention_rules_bound_the_buffer() {
    assert_eq!(pushed(Retention::Rolling(3), 2), vec![0, 1]);
    assert_eq!(pushed(Retention::Rolling(3), 3), vec![0, 1, 2]);
    assert_eq!(pushed(Retention::Rolling(3), 7), vec![4, 5, 6]);
    assert_eq!(pushed(Retention::Rolling(0), 7), Vec::<usize>::new());
    assert_eq!(pushed(Retention::Rolling(1), 7), vec![6]);
    assert_eq!(pushed(Retention::KeepLast, 0), Vec::<usize>::new());
    assert_eq!(pushed(Retention::KeepLast, 5), vec![4]);
    assert_eq!(pushed(Retention::KeepAll, 5), vec![0, 1, 2, 3, 4]);
    assert_eq!(pushed(Retention::Discard, 5), Vec::<usize>::new());
    assert_eq!(Retention::standard(), Retention::Rolling(3));
}

#[test]
fn clear_sequence_bytes() {
    let mut out = Vec::new();
    push_clear_sequence(&mut out, 0);
    assert!(out.is_empty());
    push_clear_sequence(&mut out, 7);
    assert_eq!(out, b"\r\x1b[7A\x1b[2K\x1b[J".to_vec());
    let mut out = b"x".to_vec();
    push_clear_sequence(&mut out, 1204);
    assert_eq!(out, b"x\r\x1b[1204A\x1b[2K\x1b[J".to_vec());
}

#[test]
fn decimal_digits() {
    let mut out = Vec::new();
    push_decimal(&mut out, 0);
    assert_eq!(out, b"0".to_vec());
    push_decimal(&mut out, 9);
    push_decimal(&mut out, 10);
    push_decimal(&mut out, 18446744073709551615);
    assert_eq!(out, b"091018446744073709551615".to_vec());
}

#[test]
fn frame_writer_counts_line_breaks() {
    let mut w = FrameWriter::new(0);
    assert_eq!(w.frame_lines(), 0);
    assert_eq!(w.write(b"ab\ncd"), 5);
    assert_eq!(w.frame_lines(), 1);
    w.write_str("\n\nx\n");
    assert_eq!(w.frame_lines(), 4);
    assert_eq!(w.write(b""), 0);
    assert_eq!(w.frame_lines(), 4);
    assert_eq!(w.into_bytes(), b"ab\ncd\n\nx\n".to_vec());
}

#[test]
fn frame_writer_clear_frame() {
    let mut w = FrameWriter::new(3);
    assert_eq!(w.frame_lines(), 0);
    assert_eq!(w.clear_frame(), b"\r\x1b[3A\x1b[2K\x1b[J".to_vec());
    assert_eq!(w.frame_lines(), 0);
    w.write_str("a\n");
    assert_eq!(w.frame_lines(), 1);
    // nothing is left to erase, and what was written is handed out
    assert_eq!(w.clear_frame(), b"a\n".to_vec());
    assert_eq!(w.frame_lines(), 0);
    assert_eq!(w.into_bytes(), Vec::<u8>::new());
    let mut w = FrameWriter::new(0);
    assert_eq!(w.clear_frame(), Vec::<u8>::new());
}

#[test]
fn task_view_reads_the_store() {
    let mut s = store();
    s.start(TaskId::from(1), None, "a".to_string());
    s.start(TaskId::from(2), Some(TaskId::from(1)), "b".to_string());
    s.start(TaskId::from(3), Some(TaskId::from(1)), "c".to_string());
    for i in 0..3 {
        s.event(Some(TaskId::from(3)), format!("e{}", i));
    }
    s.end(TaskId::from(2));
    let a = TaskView::new(&s, TaskId::from(1));
    assert_eq!(a.id(), TaskId::from(1));
    assert_eq!(a.data(), "a");
    assert_eq!(a.depth(), 1);
    assert!(a.active());
    assert!(!a.completed());
    assert!(!a.cancelled());
    assert!(a.parent().is_none());
    assert_eq!(a.index(), 0);
    assert_eq!(a.subtask_count(), 2);
    let kids: Vec<TaskId> = a.subtasks().iter().map(|k| k.id()).collect();
    assert_eq!(kids, vec![TaskId::from(2), TaskId::from(3)]);
    let b = a.view(TaskId::from(2));
    assert!(b.completed());
    assert!(!b.active());
    assert_eq!(b.index(), 0);
    assert_eq!(b.parent().map(|p| p.id()), Some(TaskId::from(1)));
    let c = a.view(TaskId::from(3));
    assert_eq!(c.index(), 1);
    assert_eq!(c.depth(), 2);
    let all: Vec<String> = c.events().iter().map(|e| e.data().clone()).collect();
    assert_eq!(all, vec!["e0", "e1", "e2"]);
    let two: Vec<String> = c.recent_events(2).iter().map(|e| e.data().clone()).collect();
    assert_eq!(two, vec!["e1", "e2"]);
    let back: Vec<String> = c.events().iter().rev().map(|e| e.data().clone()).collect();
    assert_eq!(back, vec!["e2", "e1", "e0"]);
    let _ = c.elapsed();
}

#[test]
fn event_view_reads_the_store() {
    let mut s = store();
    s.start(TaskId::from(1), None, "a".to_string());
    s.event(Some(TaskId::from(1)), "in".to_string());
    s.event(None, "out".to_string());
    let e = EventView::new(&s, TaskId::from(1), 0);
    assert!(!e.is_root());
    assert_eq!(e.data(), "in");
    assert_eq!(e.depth(), 1);
    assert_eq!(e.task().id(), TaskId::from(1));
    let r = EventView::new(&s, TaskId::root(), 0);
    assert!(r.is_root());
    assert_eq!(r.data(), "out");
    assert_eq!(r.depth(), 0);
}

#[test]
fn generator_counts_from_one() {
    let g = IdGenerator::new();
    assert_eq!(g.next(), Some(TaskId::from(1)));
    assert_eq!(g.next(), Some(TaskId::from(2)));
    assert_eq!(g.next(), Some(TaskId::from(3)));
    let h = IdGenerator::default();
    assert_eq!(h.next(), Some(TaskId::from(1)));
}

#[test]
fn cloned_store_is_independent() {
    let mut s = store();
    s.start(TaskId::from(1), None, "a".to_string());
    s.start(TaskId::from(2), Some(TaskId::from(1)), "b".to_string());
    s.event(Some(TaskId::from(2)), "e".to_string());
    let copy = s.clone();
    s.remove(TaskId::from(1));
    assert_eq!(s.len(), 1);
    assert_eq!(copy.len(), 3);
    assert_eq!(children(&copy, TaskId::root()), vec![1]);
    assert_eq!(children(&copy, TaskId::from(1)), vec![2]);
    assert_eq!(events(&copy, TaskId::from(2)), vec!["e"]);
    assert_eq!(copy.task(&TaskId::from(2)).data(), Some(&"b".to_string()));
    assert_eq!(copy.retention(), s.retention());
}

#[test]
fn visits_follow_the_standard_traversal() {
    let mut s: TaskStore<String, String> = TaskStore::with_retention(Retention::KeepAll);
    s.start(TaskId::from(1), None, "a".to_string());
    s.start(TaskId::from(2), Some(TaskId::from(1)), "b".to_string());
    s.start(TaskId::from(3), Some(TaskId::from(1)), "c".to_string());
    s.start(TaskId::from(4), Some(TaskId::from(2)), "d".to_string());
    for i in 0..5 {
        s.event(Some(TaskId::from(1)), format!("e{}", i));
    }
    s.event(Some(TaskId::from(4)), "x".to_string());
    s.event(Some(TaskId::from(3)), "y".to_string());
    s.end(TaskId::from(3));
    let plan = TaskView::new(&s, TaskId::from(1)).visits();
    assert_eq!(
        plan,
        vec![
            Visit::Task(TaskId::from(1)),
            Visit::Event(TaskId::from(1), 2),
            Visit::Event(TaskId::from(1), 3),
            Visit::Event(TaskId::from(1), 4),
            Visit::Task(TaskId::from(2)),
            Visit::Task(TaskId::from(4)),
            Visit::Event(TaskId::from(4), 0),
            Visit::Task(TaskId::from(3)),
        ]
    );
    let leaf = TaskView::new(&s, TaskId::from(4));
    assert_eq!(
        leaf.visits(),
        vec![Visit::Task(TaskId::from(4)), Visit::Event(TaskId::from(4), 0)]
    );
    assert_eq!(leaf.event_count(), 1);
    assert_eq!(leaf.event(0).data(), "x");
}
