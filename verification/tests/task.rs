use tnt::task::Task;
use tnt::task::TaskTree;

fn tasks_fixture() -> Vec<Task> {
    vec![
        Task {
            id: 0,
            value: "foo".to_string(),
            parent: None,
            children: vec![2, 3],
            active: false,
            done: false,
            last_touched: 0,
        },
        Task {
            id: 1,
            value: "bar".to_string(),
            parent: None,
            children: vec![],
            active: false,
            done: true,
            last_touched: 0,
        },
        Task {
            id: 2,
            value: "baz".to_string(),
            parent: Some(0),
            children: vec![],
            active: true,
            done: false,
            last_touched: 0,
        },
        Task {
            id: 3,
            value: "d".to_string(),
            parent: Some(0),
            children: vec![4, 5],
            active: false,
            done: false,
            last_touched: 0,
        },
        Task {
            id: 4,
            value: "e".to_string(),
            parent: Some(3),
            children: vec![],
            active: false,
            done: false,
            last_touched: 0,
        },
        Task {
            id: 5,
            value: "f".to_string(),
            parent: Some(3),
            children: vec![],
            active: false,
            done: false,
            last_touched: 0,
        },
    ]
}

#[test]
fn get_root_tasks() {
    assert_eq!(tasks_fixture().get_root_tasks()[0].id, 0);
    assert_eq!(tasks_fixture().get_root_tasks().len(), 1);
}

#[test]
fn get_root() {
    assert_eq!(tasks_fixture().get_root(5).unwrap(), 0)
}

#[test]
fn get_leaf_tasks() {
    assert_eq!(
        tasks_fixture()
            .get_leaf_tasks()
            .iter()
            .map(|t| t.id)
            .collect::<Vec<usize>>(),
        vec![2, 4, 5]
    )
}

#[test]
fn get_leaf_descendants() {
    let tasks = tasks_fixture();
    assert_eq!(tasks.get_leaf_descendants(3), vec![4, 5]);
    assert_eq!(tasks.get_leaf_descendants(0), vec![2, 4, 5]);
}

#[test]
fn get_active_task() {
    assert_eq!(tasks_fixture().get_active_task().unwrap().id, 2);
}

#[test]
fn set_active_task() {
    let mut tasks = vec![Task {
        id: 0,
        value: "foo".to_string(),
        parent: None,
        children: vec![],
        done: false,
        active: false,
        last_touched: 0,
    }];
    tasks.set_active_task(Some(0));
    assert!(tasks[0].active)
}

#[test]
fn get_root_is_fixed_point_on_roots() {
    let tasks = tasks_fixture();
    let root = tasks.get_root(5).unwrap();
    assert_eq!(tasks.get_root(root).unwrap(), root);
}

#[test]
fn get_root_rejects_unknown_id() {
    assert!(tasks_fixture().get_root(99).is_err());
}

#[test]
fn leaf_descendants_prune_done_subtree() {
    let tasks = vec![
        Task {
            id: 0,
            value: "root".to_string(),
            parent: None,
            children: vec![1, 2],
            active: false,
            done: false,
            last_touched: 0,
        },
        Task {
            id: 1,
            value: "dead".to_string(),
            parent: Some(0),
            children: vec![3],
            active: false,
            done: true,
            last_touched: 0,
        },
        Task {
            id: 2,
            value: "alive".to_string(),
            parent: Some(0),
            children: vec![],
            active: false,
            done: false,
            last_touched: 0,
        },
        Task {
            id: 3,
            value: "buried".to_string(),
            parent: Some(1),
            children: vec![],
            active: false,
            done: false,
            last_touched: 0,
        },
    ];
    assert_eq!(tasks.get_leaf_descendants(0), vec![2]);
    assert_eq!(tasks.get_leaf_descendants(1), Vec::<usize>::new());
}

#[test]
fn local_listing_composes_root_and_leaf_descendants() {
    let tasks = tasks_fixture();
    let active = tasks.get_active_task().unwrap().id;
    let root = tasks.get_root(active).unwrap();
    assert_eq!(root, 0);
    let local: Vec<usize> = tasks
        .get_leaf_descendants(root)
        .into_iter()
        .filter(|&id| !tasks[id].done)
        .collect();
    assert_eq!(local, vec![2, 4, 5]);
}

#[test]
fn check_forest_accepts_fixture() {
    assert!(tnt::task::check_forest(&tasks_fixture()));
    assert!(tnt::task::check_forest(&Vec::new()));
}

#[test]
fn check_forest_rejects_bad_links() {
    let id_mismatch = vec![Task {
        id: 1,
        value: "x".to_string(),
        parent: None,
        children: vec![],
        active: false,
        done: false,
        last_touched: 0,
    }];
    assert!(!tnt::task::check_forest(&id_mismatch));

    let unlisted_child = vec![
        Task {
            id: 0,
            value: "p".to_string(),
            parent: None,
            children: vec![],
            active: false,
            done: false,
            last_touched: 0,
        },
        Task {
            id: 1,
            value: "c".to_string(),
            parent: Some(0),
            children: vec![],
            active: false,
            done: false,
            last_touched: 0,
        },
    ];
    assert!(!tnt::task::check_forest(&unlisted_child));

    let child_out_of_range = vec![Task {
        id: 0,
        value: "p".to_string(),
        parent: None,
        children: vec![7],
        active: false,
        done: false,
        last_touched: 0,
    }];
    assert!(!tnt::task::check_forest(&child_out_of_range));
}

#[test]
fn add_to_empty_defaults_active() {
    let mut tasks: Vec<Task> = Vec::new();
    tasks.add("baz".to_string(), None, false);
    let active_id = tasks.get_active_task().unwrap().id;
    assert_eq!(active_id, 0);
    assert_eq!(tasks[0].value, "baz");
    assert!(!tasks[0].done);
}

#[test]
fn add_child_of_active_switches() {
    let mut tasks: Vec<Task> = Vec::new();
    tasks.add("root".to_string(), None, false);
    assert_eq!(tasks.get_active_task().unwrap().id, 0);
    tasks.add("child".to_string(), Some(0), false);
    assert_eq!(tasks.get_active_task().unwrap().id, 1);
    assert_eq!(tasks[0].children, vec![1]);
    assert_eq!(tasks[1].parent, Some(0));
}

#[test]
fn add_without_switch_keeps_active() {
    let mut tasks: Vec<Task> = Vec::new();
    tasks.add("a".to_string(), None, false);
    tasks.add("b".to_string(), None, false);
    assert_eq!(tasks.get_active_task().unwrap().id, 0);
    tasks.add("c".to_string(), None, true);
    assert_eq!(tasks.get_active_task().unwrap().id, 2);
}

#[test]
fn done_completes_and_reactivates_from_parent() {
    let mut tasks: Vec<Task> = Vec::new();
    tasks.add("root".to_string(), None, false);
    tasks.add("child".to_string(), Some(0), false);
    assert_eq!(tasks.get_active_task().unwrap().id, 1);
    tasks.done();
    assert!(tasks[1].done);
    assert!(!tasks[1].active);
    assert_eq!(tasks.get_active_task().unwrap().id, 0);
    assert_eq!(tasks.iter().filter(|t| t.active).count(), 1);
}

#[test]
fn done_without_active_changes_nothing() {
    let mut tasks = vec![Task {
        id: 0,
        value: "idle".to_string(),
        parent: None,
        children: vec![],
        active: false,
        done: false,
        last_touched: 7,
    }];
    tasks.done();
    assert!(tasks.get_active_task().is_none());
    assert!(!tasks[0].done);
    assert_eq!(tasks[0].last_touched, 7);
}

#[test]
fn set_active_none_on_empty_forest() {
    let mut tasks: Vec<Task> = Vec::new();
    tasks.set_active_task(None);
    assert!(tasks.get_active_task().is_none());
    assert_eq!(tasks.len(), 0);
}

#[test]
fn set_active_none_picks_most_recent_root() {
    let mut tasks = vec![
        Task {
            id: 0,
            value: "older".to_string(),
            parent: None,
            children: vec![],
            active: false,
            done: false,
            last_touched: 5,
        },
        Task {
            id: 1,
            value: "newer".to_string(),
            parent: None,
            children: vec![],
            active: false,
            done: false,
            last_touched: 9,
        },
    ];
    tasks.set_active_task(None);
    assert!(tasks[1].active);
    assert!(!tasks[0].active);
}

#[test]
fn set_active_descends_to_most_recent_child() {
    let mut tasks = vec![
        Task {
            id: 0,
            value: "root".to_string(),
            parent: None,
            children: vec![1, 2],
            active: false,
            done: false,
            last_touched: 0,
        },
        Task {
            id: 1,
            value: "stale".to_string(),
            parent: Some(0),
            children: vec![],
            active: false,
            done: false,
            last_touched: 3,
        },
        Task {
            id: 2,
            value: "fresh".to_string(),
            parent: Some(0),
            children: vec![],
            active: false,
            done: false,
            last_touched: 8,
        },
    ];
    tasks.set_active_task(Some(0));
    assert!(tasks[2].active);
    assert_eq!(tasks.iter().filter(|t| t.active).count(), 1);
}

#[test]
fn set_active_tie_picks_first_child() {
    let mut tasks = vec![
        Task {
            id: 0,
            value: "root".to_string(),
            parent: None,
            children: vec![1, 2],
            active: false,
            done: false,
            last_touched: 0,
        },
        Task {
            id: 1,
            value: "first".to_string(),
            parent: Some(0),
            children: vec![],
            active: false,
            done: false,
            last_touched: 5,
        },
        Task {
            id: 2,
            value: "second".to_string(),
            parent: Some(0),
            children: vec![],
            active: false,
            done: false,
            last_touched: 5,
        },
    ];
    tasks.set_active_task(Some(0));
    assert!(tasks[1].active);
    assert!(!tasks[2].active);
}

#[test]
fn set_active_skips_done_children() {
    let mut tasks = vec![
        Task {
            id: 0,
            value: "root".to_string(),
            parent: None,
            children: vec![1, 2],
            active: false,
            done: false,
            last_touched: 0,
        },
        Task {
            id: 1,
            value: "finished".to_string(),
            parent: Some(0),
            children: vec![],
            active: false,
            done: true,
            last_touched: 9,
        },
        Task {
            id: 2,
            value: "open".to_string(),
            parent: Some(0),
            children: vec![],
            active: false,
            done: false,
            last_touched: 1,
        },
    ];
    tasks.set_active_task(Some(0));
    assert!(tasks[2].active);
}

#[test]
fn set_active_refreshes_ancestor_recency() {
    let mut tasks = vec![
        Task {
            id: 0,
            value: "root".to_string(),
            parent: None,
            children: vec![1, 2],
            active: false,
            done: false,
            last_touched: 0,
        },
        Task {
            id: 1,
            value: "target".to_string(),
            parent: Some(0),
            children: vec![],
            active: false,
            done: false,
            last_touched: 1,
        },
        Task {
            id: 2,
            value: "sibling".to_string(),
            parent: Some(0),
            children: vec![],
            active: false,
            done: false,
            last_touched: 0,
        },
    ];
    tasks.set_active_task(Some(1));
    assert!(tasks[1].active);
    // the winner and its ancestors are stamped with the wall clock
    assert!(tasks[1].last_touched > 1);
    assert!(tasks[0].last_touched > 1);
    assert_eq!(tasks[0].last_touched, tasks[1].last_touched);
    // an untouched sibling keeps its recency
    assert_eq!(tasks[2].last_touched, 0);
}
