use task_tree::cascade::descendants_of;
use task_tree::tasks::{Date, Task, Tasks};

fn task(id: &str, parent: Option<&str>, priority: u8) -> Task {
    Task {
        id: id.to_string(),
        project_id: "p".to_string(),
        section_id: None,
        content: format!("task {}", id),
        description: String::new(),
        is_completed: false,
        labels: Vec::new(),
        parent_id: parent.map(|p| p.to_string()),
        order: 1,
        priority,
        due: None,
        url: String::new(),
        comment_count: 0,
        created_at: String::new(),
        creator_id: String::new(),
        assignee_id: None,
        assigner_id: None,
        duration: None,
    }
}

fn today() -> Date {
    Date { days: 738000 }
}

#[test]
fn descendants_of_collects_the_whole_subtree() {
    let items = vec![
        task("a", None, 1),
        task("b", Some("a"), 1),
        task("c", Some("a"), 1),
        task("d", Some("b"), 1),
        task("e", None, 1),
    ];
    let ids = descendants_of(&items, &"a".to_string());
    assert_eq!(ids.len(), 3);
    assert!(ids.contains(&"b".to_string()));
    assert!(ids.contains(&"c".to_string()));
    assert!(ids.contains(&"d".to_string()));
    // The task itself is not included, and a parent precedes its children.
    assert!(!ids.contains(&"a".to_string()));
    let b_pos = ids.iter().position(|x| x == "b").unwrap();
    let d_pos = ids.iter().position(|x| x == "d").unwrap();
    assert!(b_pos < d_pos);
    // A leaf has no descendants.
    assert_eq!(descendants_of(&items, &"e".to_string()).len(), 0);
}

#[test]
fn cascade_removes_exactly_the_subtree() {
    // Root a with children b, c; b has child d; e is unrelated.
    let items = vec![
        task("a", None, 1),
        task("b", Some("a"), 1),
        task("c", Some("a"), 1),
        task("d", Some("b"), 1),
        task("e", None, 2),
    ];
    let mut t = Tasks::new(items);
    t.filter_task_list_on(true, today());
    let removed = t.cascade_remove_on(&"a".to_string(), today());
    // Exactly {a, b, c, d} left the store; e survives. The caller gets the
    // removed identities back, one outbound remote request per entry.
    assert_eq!(removed.len(), 4);
    assert_eq!(removed[0], "a");
    assert!(removed.contains(&"b".to_string()));
    assert!(removed.contains(&"c".to_string()));
    assert!(removed.contains(&"d".to_string()));
    assert_eq!(t.tasks.len(), 1);
    assert_eq!(t.tasks[0].id, "e");
    // None of the removed identities appear in the rebuilt display list.
    for &idx in &t.display_tasks {
        let id = &t.tasks[idx].id;
        assert!(id != "a" && id != "b" && id != "c" && id != "d");
    }
    assert_eq!(t.display_tasks, vec![0]);
}

#[test]
fn removing_an_unrelated_task_reanchors_on_the_same_identity() {
    // Five roots; "abc" sits at display position 2.
    let items = vec![
        task("r0", None, 1),
        task("r1", None, 1),
        task("abc", None, 1),
        task("r3", None, 1),
    ];
    let mut t = Tasks::new(items);
    t.filter_task_list_on(false, today());
    assert_eq!(t.display_tasks, vec![0, 1, 2, 3]);
    t.state.select(Some(2));
    // Remove a different, unrelated task: the cursor follows "abc" to its
    // new position rather than staying at position 2.
    t.cascade_remove_on(&"r0".to_string(), today());
    assert_eq!(t.tasks.len(), 3);
    let abc_pos = t
        .display_tasks
        .iter()
        .position(|&idx| t.tasks[idx].id == "abc")
        .unwrap();
    assert_eq!(t.state.selected, Some(abc_pos));
    assert_eq!(abc_pos, 1);
}

#[test]
fn removing_the_selected_task_advances_to_the_next_survivor() {
    let items = vec![
        task("r0", None, 1),
        task("r1", None, 1),
        task("r1c", Some("r1"), 1),
        task("r2", None, 1),
    ];
    let mut t = Tasks::new(items);
    t.filter_task_list_on(false, today());
    // Display: r0, r1, r1c, r2 — select r1 and remove it with its child.
    assert_eq!(t.display_tasks, vec![0, 1, 2, 3]);
    t.state.select(Some(1));
    t.cascade_remove_on(&"r1".to_string(), today());
    // The next surviving entry of the old list was r2.
    assert_eq!(t.tasks.len(), 2);
    let r2_pos = t
        .display_tasks
        .iter()
        .position(|&idx| t.tasks[idx].id == "r2")
        .unwrap();
    assert_eq!(t.state.selected, Some(r2_pos));
}

#[test]
fn removing_the_last_selected_task_falls_back_to_the_previous_survivor() {
    let items = vec![task("r0", None, 1), task("r1", None, 1)];
    let mut t = Tasks::new(items);
    t.filter_task_list_on(false, today());
    t.state.select(Some(1));
    t.cascade_remove_on(&"r1".to_string(), today());
    assert_eq!(t.tasks.len(), 1);
    assert_eq!(t.state.selected, Some(0));
    assert_eq!(t.tasks[t.display_tasks[0]].id, "r0");
}

#[test]
fn removing_everything_clears_the_selection() {
    let items = vec![task("solo", None, 1)];
    let mut t = Tasks::new(items);
    t.filter_task_list_on(true, today());
    t.cascade_remove_on(&"solo".to_string(), today());
    assert_eq!(t.tasks.len(), 0);
    assert_eq!(t.display_tasks.len(), 0);
    assert_eq!(t.state.selected, None);
}

#[test]
fn cascade_on_an_unknown_identity_changes_nothing_in_the_store() {
    let items = vec![task("a", None, 1), task("b", Some("a"), 1)];
    let mut t = Tasks::new(items);
    t.filter_task_list_on(false, today());
    t.cascade_remove_on(&"nowhere".to_string(), today());
    assert_eq!(t.tasks.len(), 2);
    assert_eq!(t.display_tasks, vec![0, 1]);
}
