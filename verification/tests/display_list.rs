use task_tree::tasks::{Date, Due, Filter, SortCriterion, Task, Tasks};

fn task(
    id: &str,
    parent: Option<&str>,
    project: &str,
    order: i32,
    priority: u8,
    due_days: Option<i32>,
) -> Task {
    Task {
        id: id.to_string(),
        project_id: project.to_string(),
        section_id: None,
        content: format!("task {}", id),
        description: String::new(),
        is_completed: false,
        labels: Vec::new(),
        parent_id: parent.map(|p| p.to_string()),
        order,
        priority,
        due: due_days.map(|d| Due {
            string: format!("day {}", d),
            date: Date { days: d },
            is_recurring: false,
            datetime: None,
            timezone: None,
        }),
        url: String::new(),
        comment_count: 0,
        created_at: String::new(),
        creator_id: String::new(),
        assignee_id: None,
        assigner_id: None,
        duration: None,
    }
}

fn today() -> Date {
    Date { days: 738000 }
}

#[test]
fn depth_first_parent_before_child() {
    // a has children b (order 2) and c (order 1); b has child d.
    let items = vec![
        task("a", None, "p", 1, 1, None),
        task("b", Some("a"), "p", 2, 1, None),
        task("c", Some("a"), "p", 1, 1, None),
        task("d", Some("b"), "p", 1, 1, None),
    ];
    let mut t = Tasks::new(items);
    t.filter_task_list_on(false, today());
    // Root first, then its children ascending by `order` (c before b),
    // each child immediately followed by its own subtree.
    assert_eq!(t.display_tasks, vec![0, 2, 1, 3]);
    // Parent always at an earlier position than its child.
    for (pos, &idx) in t.display_tasks.iter().enumerate() {
        if let Some(pid) = &t.tasks[idx].parent_id {
            let ppos = t
                .display_tasks
                .iter()
                .position(|&j| &t.tasks[j].id == pid)
                .expect("parent displayed");
            assert!(ppos < pos);
        }
    }
}

#[test]
fn priority_sort_is_stable() {
    // Roots with priorities [3, 1, 4, 1]: ascending priority, equal
    // priorities keep their original relative order.
    let items = vec![
        task("r0", None, "p", 1, 3, None),
        task("r1", None, "p", 1, 1, None),
        task("r2", None, "p", 1, 4, None),
        task("r3", None, "p", 1, 1, None),
    ];
    let mut t = Tasks::new(items);
    t.filter_task_list_on(false, today());
    assert_eq!(t.display_tasks, vec![1, 3, 0, 2]);
}

#[test]
fn date_sort_puts_undated_last() {
    let items = vec![
        task("r0", None, "p", 1, 1, Some(738005)),
        task("r1", None, "p", 1, 1, None),
        task("r2", None, "p", 1, 1, Some(738003)),
    ];
    let mut t = Tasks::new(items);
    t.filter_task_list_on(false, today());
    t.sort_tasks_on(SortCriterion::Date, today());
    assert_eq!(t.display_tasks, vec![2, 0, 1]);
}

#[test]
fn project_filter_containment() {
    let items = vec![
        task("x1", None, "x", 1, 1, None),
        task("y1", None, "y", 1, 1, None),
        task("x2", None, "x", 1, 2, None),
        task("x1c", Some("x1"), "x", 1, 1, None),
    ];
    let mut t = Tasks::new(items);
    t.filter = Filter::ProjectId("x".to_string());
    t.filter_task_list_on(false, today());
    // Every displayed root belongs to project x, subtrees included whole.
    assert_eq!(t.display_tasks, vec![0, 3, 2]);
    let filtered = t.display_tasks.clone();
    // Dropping the filter yields a superset of the displayed roots.
    t.filter = Filter::All;
    t.filter_task_list_on(false, today());
    for idx in filtered {
        if t.tasks[idx].parent_id.is_none() {
            assert!(t.display_tasks.contains(&idx));
        }
    }
    assert_eq!(t.display_tasks.len(), 4);
}

#[test]
fn today_and_overdue_filters() {
    let items = vec![
        task("due_today", None, "p", 1, 1, Some(today().days)),
        task("overdue", None, "p", 1, 2, Some(today().days - 3)),
        task("future", None, "p", 1, 3, Some(today().days + 2)),
        task("undated", None, "p", 1, 4, None),
    ];
    let mut t = Tasks::new(items);
    t.filter = Filter::Today;
    t.filter_task_list_on(false, today());
    assert_eq!(t.display_tasks, vec![0]);
    t.filter = Filter::Overdue;
    t.filter_task_list_on(false, today());
    assert_eq!(t.display_tasks, vec![1]);
}

#[test]
fn orphan_is_never_displayed() {
    let items = vec![
        task("a", None, "p", 1, 1, None),
        task("lost", Some("ghost"), "p", 1, 1, None),
        task("b", Some("a"), "p", 1, 1, None),
    ];
    let mut t = Tasks::new(items);
    t.filter_task_list_on(false, today());
    assert_eq!(t.display_tasks, vec![0, 2]);
    assert!(!t.display_tasks.contains(&1));
}

#[test]
fn auto_select_picks_top_of_nonempty_list() {
    let items = vec![task("a", None, "p", 1, 1, None)];
    let mut t = Tasks::new(items);
    t.filter_task_list_on(true, today());
    assert_eq!(t.state.selected, Some(0));
    let mut empty = Tasks::new(Vec::new());
    empty.filter_task_list_on(true, today());
    assert_eq!(empty.state.selected, None);
}

#[test]
fn sort_with_stale_selection_clears_the_cursor() {
    let items = vec![task("r0", None, "p", 1, 1, None), task("r1", None, "p", 1, 2, None)];
    let mut t = Tasks::new(items);
    t.filter_task_list_on(false, today());
    // A position past the end of the display list anchors nothing: it is
    // treated as no selection, so the rebuild leaves the cursor on nothing
    // while the scroll offset stays.
    t.state.set_offset(3);
    t.state.select(Some(9));
    t.sort_tasks_on(SortCriterion::Priority, today());
    assert_eq!(t.state.selected, None);
    assert_eq!(t.state.offset, 3);
}

#[test]
fn sort_falls_back_to_the_top_when_the_anchor_vanishes() {
    let items = vec![
        task("dated", None, "p", 1, 1, Some(today().days)),
        task("undated", None, "p", 1, 2, None),
    ];
    let mut t = Tasks::new(items);
    t.filter_task_list_on(false, today());
    t.state.select(Some(1));
    // Narrowing to due-today drops the selected task from the list: the
    // cursor falls back to the first entry.
    t.filter = Filter::Today;
    t.sort_tasks_on(SortCriterion::Priority, today());
    assert_eq!(t.display_tasks, vec![0]);
    assert_eq!(t.state.selected, Some(0));
}

#[test]
fn sort_reanchors_selection_by_identity() {
    let items = vec![
        task("r0", None, "p", 1, 2, Some(738010)),
        task("r1", None, "p", 1, 1, Some(738001)),
        task("r2", None, "p", 1, 3, Some(738005)),
    ];
    let mut t = Tasks::new(items);
    t.filter_task_list_on(false, today());
    // Priority order: r1, r0, r2 — select r0 at position 1.
    assert_eq!(t.display_tasks, vec![1, 0, 2]);
    t.state.select(Some(1));
    t.sort_tasks_on(SortCriterion::Date, today());
    // Date order: r1, r2, r0 — the cursor follows r0 to position 2.
    assert_eq!(t.display_tasks, vec![1, 2, 0]);
    assert_eq!(t.state.selected, Some(2));
}
