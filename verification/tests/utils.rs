use tnt::task::Task;
use tnt::task::TaskTree;
use tnt::utils::find_matching_task;

#[test]
fn find_max_matching_string() {
    let pattern = "foobar";
    let choices = vec![
        Task::new(0, "foobaz".to_string(), None),
        Task::new(1, "foobooz".to_string(), None),
        Task::new(2, "foobar".to_string(), None),
        Task::new(3, "foobarzz".to_string(), None),
        Task::new(4, "qwerty".to_string(), None),
    ];
    assert_eq!(find_matching_task(pattern, &choices).unwrap(), &choices[2]);
}

#[test]
fn find_matching_task_none_without_match() {
    let choices = vec![
        Task::new(0, "groceries".to_string(), None),
        Task::new(1, "laundry".to_string(), None),
    ];
    assert!(find_matching_task("zzzz", &choices).is_none());
}

#[test]
fn find_matching_task_on_empty_forest() {
    let choices: Vec<Task> = Vec::new();
    assert!(find_matching_task("anything", &choices).is_none());
}

#[test]
fn task_new_starts_clean() {
    let t = Task::new(3, "fresh".to_string(), Some(1));
    assert_eq!(t.id, 3);
    assert_eq!(t.value, "fresh");
    assert_eq!(t.parent, Some(1));
    assert!(t.children.is_empty());
    assert!(!t.active);
    assert!(!t.done);
    let empty: Vec<Task> = Vec::new();
    assert!(empty.get_active_task().is_none());
}
