use task_tree::cache::cache_is_fresh;
use task_tree::tasks::{Date, Duration, Filter, Task, Tasks};

fn task(id: &str, parent: Option<&str>) -> Task {
    Task {
        id: id.to_string(),
        project_id: "p".to_string(),
        section_id: None,
        content: format!("task {}", id),
        description: String::new(),
        is_completed: false,
        labels: Vec::new(),
        parent_id: parent.map(|p| p.to_string()),
        order: 1,
        priority: 1,
        due: None,
        url: String::new(),
        comment_count: 0,
        created_at: String::new(),
        creator_id: String::new(),
        assignee_id: None,
        assigner_id: None,
        duration: Some(Duration { amount: 30, unit: "minute".to_string() }),
    }
}

#[test]
fn child_tallies_count_direct_children_only() {
    let items = vec![
        task("a", None),
        task("b", Some("a")),
        task("c", Some("a")),
        task("d", Some("b")),
        task("e", None),
    ];
    let mut t = Tasks::new(items);
    t.find_tasks_with_children();
    assert_eq!(t.tasks_with_children.len(), 2);
    assert_eq!(t.tasks_with_children[0].parent_id, "a");
    assert_eq!(t.tasks_with_children[0].count, 2);
    assert_eq!(t.tasks_with_children[1].parent_id, "b");
    assert_eq!(t.tasks_with_children[1].count, 1);
}

#[test]
fn child_tallies_count_references_to_missing_parents_too() {
    // The referenced parent need not exist in the store: the tally is
    // keyed by the referenced identity.
    let items = vec![task("x", Some("ghost")), task("y", Some("ghost"))];
    let mut t = Tasks::new(items);
    t.find_tasks_with_children();
    assert_eq!(t.tasks_with_children.len(), 1);
    assert_eq!(t.tasks_with_children[0].parent_id, "ghost");
    assert_eq!(t.tasks_with_children[0].count, 2);
}

#[test]
fn new_list_starts_clear() {
    let t = Tasks::new(vec![task("a", None)]);
    assert!(matches!(t.filter, Filter::All));
    assert_eq!(t.state.selected, None);
    assert_eq!(t.state.offset, 0);
    assert_eq!(t.display_tasks.len(), 0);
    assert_eq!(t.tasks_with_children.len(), 0);
    assert_eq!(t.tasks.len(), 1);
}

#[test]
fn dates_compare_by_day_count() {
    let earlier = Date { days: 738000 };
    let later = Date { days: 738001 };
    assert!(earlier.before(&later));
    assert!(!later.before(&earlier));
    assert!(!earlier.before(&earlier));
    assert_eq!(earlier, Date { days: 738000 });
}

#[test]
fn cache_freshness_is_a_strict_age_bound() {
    assert!(cache_is_fresh(100, 90, 20));
    assert!(!cache_is_fresh(100, 90, 10));
    // Exactly at the bound is stale.
    assert!(!cache_is_fresh(110, 100, 10));
    // A snapshot from the future is never fresh.
    assert!(!cache_is_fresh(90, 100, 50));
}
