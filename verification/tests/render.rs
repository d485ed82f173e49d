use tnt::task::Task;
use tnt::task::TaskTree;

fn tasks_fixture() -> Vec<Task> {
    vec![
        Task {
            id: 0,
            value: "foo".to_string(),
            parent: None,
            children: vec![2, 3],
            active: false,
            done: false,
            last_touched: 0,
        },
        Task {
            id: 1,
            value: "bar".to_string(),
            parent: None,
            children: vec![],
            active: false,
            done: true,
            last_touched: 0,
        },
        Task {
            id: 2,
            value: "baz".to_string(),
            parent: Some(0),
            children: vec![],
            active: true,
            done: false,
            last_touched: 0,
        },
        Task {
            id: 3,
            value: "d".to_string(),
            parent: Some(0),
            children: vec![4, 5],
            active: false,
            done: false,
            last_touched: 0,
        },
        Task {
            id: 4,
            value: "e".to_string(),
            parent: Some(3),
            children: vec![],
            active: false,
            done: false,
            last_touched: 0,
        },
        Task {
            id: 5,
            value: "f".to_string(),
            parent: Some(3),
            children: vec![],
            active: false,
            done: false,
            last_touched: 0,
        },
    ]
}

#[test]
fn render_lists_only_undone_roots() {
    assert_eq!(tasks_fixture().render(), "0 foo\n");
}

#[test]
fn render_all_indents_every_level() {
    assert_eq!(
        tasks_fixture().render_all(),
        "0 foo\n  2 baz\n  3 d\n    4 e\n    5 f\n"
    );
}

#[test]
fn render_all_prunes_done_subtrees() {
    let tasks = vec![
        Task {
            id: 0,
            value: "root".to_string(),
            parent: None,
            children: vec![1, 2],
            active: false,
            done: false,
            last_touched: 0,
        },
        Task {
            id: 1,
            value: "dead".to_string(),
            parent: Some(0),
            children: vec![3],
            active: false,
            done: true,
            last_touched: 0,
        },
        Task {
            id: 2,
            value: "alive".to_string(),
            parent: Some(0),
            children: vec![],
            active: false,
            done: false,
            last_touched: 0,
        },
        Task {
            id: 3,
            value: "buried".to_string(),
            parent: Some(1),
            children: vec![],
            active: false,
            done: false,
            last_touched: 0,
        },
    ];
    assert_eq!(tasks.render_all(), "0 root\n  2 alive\n");
}

#[test]
fn render_line_writes_decimal_ids() {
    let t = Task {
        id: 105,
        value: "hello".to_string(),
        parent: None,
        children: vec![],
        active: false,
        done: false,
        last_touched: 0,
    };
    assert_eq!(t.render(0), "105 hello\n");
    assert_eq!(t.render(2), "    105 hello\n");
}

#[test]
fn render_empty_forest_is_empty() {
    let tasks: Vec<Task> = Vec::new();
    assert_eq!(tasks.render(), "");
    assert_eq!(tasks.render_all(), "");
}
