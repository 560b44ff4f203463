use todo_inator::date::Date;
use todo_inator::list::TodoList;
use todo_inator::record::TodoItem;

fn date(y: u32, m: u32, d: u32) -> Date {
    Date::from_ymd(y, m, d).expect("Invalid date in tests!")
}

fn lines(v: &[&str]) -> Vec<String> {
    v.iter().map(|s| s.to_string()).collect()
}

#[test]
fn test_read_from_file() {
    let input = lines(&[
        "x (F) test",
        "  ",
        "2024-03-20 2024-01-01 dude this better work @unit +test",
        "2023-12-30 (F)",
    ]);

    let todos: Vec<TodoItem> = TodoList::load_from_lines(&input).unwrap().items;
    assert_eq!(todos.len(), 3);
    assert_eq!(todos[0].completed, true);
    assert_eq!(todos[0].priority, Some('F'));
    assert_eq!(todos[0].description, "test");
    assert_eq!(todos[1].completion_date, Some(date(2024, 03, 20)));
    assert_eq!(todos[1].creation_date, Some(date(2024, 01, 01)));
    assert_eq!(todos[1].description, "dude this better work @unit +test");
    assert_eq!(todos[1].projects, vec!["test"]);
    assert_eq!(todos[1].contexts, vec!["unit"]);
    assert_eq!(todos[2].creation_date, Some(date(2023, 12, 30)));
    assert_eq!(todos[2].description, "(F)");
}

#[test]
fn test_write_to_file() {
    let item1: TodoItem = TodoItem {
        completed: (true),
        priority: (Some('G')),
        completion_date: (None),
        creation_date: (Some(date(2025, 02, 11))),
        contexts: (vec!["Noel".to_string()]),
        projects: (Vec::new()),
        description: ("unit test sein vadder @Noel".to_string()),
    };

    let item2: TodoItem = TodoItem {
        completed: (false),
        priority: (Some('A')),
        completion_date: (Some(date(2026, 10, 20))),
        creation_date: (Some(date(2025, 02, 11))),
        contexts: (vec!["Nik".to_string()]),
        projects: (vec!["Yoko".to_string()]),
        description: ("unit test seine mudder @Nik +Yoko".to_string()),
    };

    let item3: TodoItem = TodoItem {
        completed: (false),
        priority: (None),
        completion_date: (None),
        creation_date: (None),
        contexts: (Vec::new()),
        projects: (Vec::new()),
        description: ("Final Line".to_string()),
    };

    let todos = TodoList { items: vec![item1, item2, item3] };

    let out = todos.save_to_lines().unwrap();

    let known_truth = "x (G) 2025-02-11 unit test sein vadder @Noel\n(A) 2026-10-20 2025-02-11 unit test seine mudder @Nik +Yoko\nFinal Line\n";

    let mut contents = out.join("\n");
    contents.push('\n');

    assert_eq!(contents, known_truth);
}

#[test]
fn test_blank_lines_never_become_records() {
    let input = lines(&["", "   ", "\t", "a real task", " \t "]);
    let list = TodoList::load_from_lines(&input).unwrap();
    assert_eq!(list.items.len(), 1);
    assert_eq!(list.items[0].description, "a real task");

    let empty = TodoList::load_from_lines(&lines(&["", "  "])).unwrap();
    assert!(empty.items.is_empty());
}

#[test]
fn test_save_then_load_preserves_records() {
    let input = lines(&[
        "x (F) test",
        "2024-03-20 2024-01-01 dude this better work @unit +test",
        "2023-12-30 (F)",
        "plain +p +p @c",
    ]);
    let original = TodoList::load_from_lines(&input).unwrap();
    let saved = original.save_to_lines().unwrap();
    let reloaded = TodoList::load_from_lines(&saved).unwrap();
    assert_eq!(reloaded.items.len(), original.items.len());
    for (a, b) in original.items.iter().zip(reloaded.items.iter()) {
        assert_eq!(a, b);
    }
}

#[test]
fn test_add_item_appends_in_order() {
    let mut list = TodoList::default();
    list.add_item("(A) first").unwrap();
    list.add_item("second +p").unwrap();
    assert_eq!(list.items.len(), 2);
    assert_eq!(list.items[0].priority, Some('A'));
    assert_eq!(list.items[1].description, "second +p");
}

#[test]
fn test_sort_by_priority_descending_none_last() {
    let mut list = TodoList::default();
    list.add_item("no priority at all").unwrap();
    list.add_item("(B) beta").unwrap();
    list.add_item("(Z) zulu").unwrap();
    list.add_item("also none").unwrap();
    list.add_item("(A) alpha").unwrap();
    list.sort_by_priority();
    let prios: Vec<Option<char>> = list.items.iter().map(|i| i.priority).collect();
    assert_eq!(prios, vec![Some('Z'), Some('B'), Some('A'), None, None]);
    assert_eq!(list.items.len(), 5);
}

#[test]
fn test_save_fails_on_invalid_record_state() {
    let bad = TodoItem {
        completed: false,
        priority: None,
        completion_date: Some(date(2024, 1, 1)),
        creation_date: None,
        contexts: Vec::new(),
        projects: Vec::new(),
        description: "half-dated".to_string(),
    };
    let list = TodoList { items: vec![bad] };
    assert!(list.save_to_lines().is_err());
}
