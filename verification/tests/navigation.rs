use task_tree::selection::SelectionState;
use task_tree::tasks::{Date, Task, Tasks};

fn task(id: &str, parent: Option<&str>) -> Task {
    Task {
        id: id.to_string(),
        project_id: "p".to_string(),
        section_id: None,
        content: format!("task {}", id),
        description: String::new(),
        is_completed: false,
        labels: Vec::new(),
        parent_id: parent.map(|p| p.to_string()),
        order: 1,
        priority: 1,
        due: None,
        url: String::new(),
        comment_count: 0,
        created_at: String::new(),
        creator_id: String::new(),
        assignee_id: None,
        assigner_id: None,
        duration: None,
    }
}

fn today() -> Date {
    Date { days: 738000 }
}

#[test]
fn empty_list_navigation_selects_nothing() {
    let mut t = Tasks::new(Vec::new());
    t.filter_task_list_on(false, today());
    t.next();
    assert_eq!(t.state.selected, None);
    t.previous();
    assert_eq!(t.state.selected, None);
    t.next();
    t.next();
    assert_eq!(t.state.selected, None);
}

#[test]
fn next_wraps_past_the_end() {
    let items = vec![task("a", None), task("b", None), task("c", None)];
    let mut t = Tasks::new(items);
    t.filter_task_list_on(false, today());
    t.next();
    assert_eq!(t.state.selected, Some(0));
    t.next();
    assert_eq!(t.state.selected, Some(1));
    t.next();
    assert_eq!(t.state.selected, Some(2));
    t.next();
    assert_eq!(t.state.selected, Some(0));
}

#[test]
fn previous_wraps_before_the_start() {
    let items = vec![task("a", None), task("b", None), task("c", None)];
    let mut t = Tasks::new(items);
    t.filter_task_list_on(false, today());
    t.previous();
    assert_eq!(t.state.selected, Some(0));
    t.previous();
    assert_eq!(t.state.selected, Some(2));
    t.previous();
    assert_eq!(t.state.selected, Some(1));
}

#[test]
fn stepping_from_a_stale_position_lands_on_the_top() {
    let items = vec![task("a", None), task("b", None), task("c", None)];
    let mut t = Tasks::new(items);
    t.filter_task_list_on(false, today());
    // A stale out-of-range position reads as no selection, so a step in
    // either direction starts from nothing and lands on the first entry.
    t.state.select(Some(9));
    t.previous();
    assert_eq!(t.state.selected, Some(0));
    t.state.select(Some(9));
    t.next();
    assert_eq!(t.state.selected, Some(0));
}

#[test]
fn unselect_keeps_the_scroll_offset() {
    let items = vec![task("a", None), task("b", None)];
    let mut t = Tasks::new(items);
    t.filter_task_list_on(true, today());
    t.state.set_offset(7);
    t.unselect();
    assert_eq!(t.state.selected, None);
    assert_eq!(t.state.offset, 7);
}

#[test]
fn selected_task_index_is_bounds_checked() {
    let items = vec![task("a", None), task("b", Some("a"))];
    let mut t = Tasks::new(items);
    t.filter_task_list_on(false, today());
    assert_eq!(t.selected_task_index(), None);
    t.state.select(Some(1));
    assert_eq!(t.selected_task_index(), Some(1));
    // A stale position past the end of the display list reads as nothing.
    t.state.select(Some(9));
    assert_eq!(t.selected_task_index(), None);
}

#[test]
fn set_selected_priority_touches_only_the_cursor_task() {
    let items = vec![task("a", None), task("b", None)];
    let mut t = Tasks::new(items);
    t.filter_task_list_on(false, today());
    t.state.select(Some(1));
    t.set_selected_priority(4);
    assert_eq!(t.tasks[0].priority, 1);
    assert_eq!(t.tasks[1].priority, 4);
    // With nothing validly selected the store is left alone.
    t.state.select(None);
    t.set_selected_priority(2);
    assert_eq!(t.tasks[0].priority, 1);
    assert_eq!(t.tasks[1].priority, 4);
}

#[test]
fn default_selection_state_is_clear() {
    let s = SelectionState::default();
    assert_eq!(s.selected, None);
    assert_eq!(s.offset, 0);
}
