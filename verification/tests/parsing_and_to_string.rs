use todo_inator::date::Date;
use todo_inator::record::TodoItem;

fn date(y: u32, m: u32, d: u32) -> Date {
    Date::from_ymd(y, m, d).expect("Invalid date in tests!")
}

#[test]
fn test_parse_full_valid_line() {
    let input = "x (A) 2024-03-20 2024-01-01 Measure space for +kitchen @home";
    let result = TodoItem::parse_line(input).unwrap();

    assert_eq!(result.completed, true);
    assert_eq!(result.priority, Some('A'));
    assert_eq!(result.completion_date, Some(date(2024, 03, 20)));
    assert_eq!(result.creation_date, Some(date(2024, 01, 01)));
    assert_eq!(result.description, "Measure space for +kitchen @home");
    assert_eq!(result.projects, vec!["kitchen"]);
    assert_eq!(result.contexts, vec!["home"]);
}

#[test]
fn test_minimal_task() {
    let input = "Just do it";
    let result = TodoItem::parse_line(input).unwrap();

    assert_eq!(result.completed, false);
    assert_eq!(result.priority, None);
    assert_eq!(result.creation_date, None);
    assert_eq!(result.description, "Just do it");
}

#[test]
fn test_creation_date_only() {
    // If only one date appears, it is the creation date.
    let input = "2024-01-01 Start project";
    let result = TodoItem::parse_line(input).unwrap();

    assert_eq!(result.completion_date, None);
    assert_eq!(result.creation_date, Some(date(2024, 01, 01)));
}

#[test]
fn test_priority_only() {
    let input = "(B) Pay bills";
    let result = TodoItem::parse_line(input).unwrap();

    assert_eq!(result.priority, Some('B'));
    assert_eq!(result.description, "Pay bills");
}

#[test]
fn test_x_in_middle_is_not_completion() {
    // 'x' must be at the start to count as completion.
    let input = "Buy milk x eggs";
    let result = TodoItem::parse_line(input).unwrap();

    assert_eq!(result.completed, false);
    assert_eq!(result.description, "Buy milk x eggs");
}

#[test]
fn test_bad_priority_formats() {
    // These must not be parsed as priorities, but as part of the description.
    let inputs = vec![
        "(a) Lowercase is invalid",
        "(AA) Too long",
        "(1) Not a letter",
    ];

    for text in inputs {
        let res = TodoItem::parse_line(text).unwrap();
        assert_eq!(res.priority, None, "Failed on input: {}", text);
    }
}

#[test]
fn test_bad_date_formats() {
    // Looks like a date but does not follow YYYY-MM-DD strictness.
    let input = "2024/01/01 Bad slashes";
    let result = TodoItem::parse_line(input).unwrap();

    assert_eq!(result.creation_date, None);
    assert!(result.description.contains("2024/01/01"));
}

#[test]
fn test_projects_and_contexts_symbols_mid_word() {
    // Tokens are whitespace-split, so "email@work" is one token; it does
    // not start with @ and is no context.
    let input = "Send email@work to boss+manager";
    let result = TodoItem::parse_line(input).unwrap();

    assert!(result.contexts.is_empty());
    assert!(result.projects.is_empty());
}

#[test]
fn test_multiple_tags() {
    let input = "Task +work +urgent @computer @offline";
    let result = TodoItem::parse_line(input).unwrap();

    assert_eq!(result.projects, vec!["work", "urgent"]);
    assert_eq!(result.contexts, vec!["computer", "offline"]);
}

#[test]
fn test_priority_precedence() {
    let result = TodoItem::parse_line("x (F) test").unwrap();
    assert_eq!(result.completed, true);
    assert_eq!(result.priority, Some('F'));
    assert_eq!(result.description, "test");
}

#[test]
fn test_two_date_rule() {
    let result = TodoItem::parse_line("2024-03-20 2024-01-01 foo @a +b").unwrap();
    assert_eq!(result.completion_date, Some(date(2024, 03, 20)));
    assert_eq!(result.creation_date, Some(date(2024, 01, 01)));
    assert_eq!(result.description, "foo @a +b");
    assert_eq!(result.contexts, vec!["a"]);
    assert_eq!(result.projects, vec!["b"]);
}

#[test]
fn test_one_date_rule_priority_after_date_is_text() {
    let result = TodoItem::parse_line("2023-12-30 (F)").unwrap();
    assert_eq!(result.creation_date, Some(date(2023, 12, 30)));
    assert_eq!(result.completion_date, None);
    assert_eq!(result.priority, None);
    assert_eq!(result.description, "(F)");
}

#[test]
fn test_duplicate_tags_collapse() {
    let result = TodoItem::parse_line("pay rent +x +x @home @home").unwrap();
    assert_eq!(result.projects, vec!["x"]);
    assert_eq!(result.contexts, vec!["home"]);
    assert_eq!(result.description, "pay rent +x +x @home @home");
}

#[test]
fn test_invalid_calendar_date_is_text() {
    // Correct shape, impossible date: month 13 never becomes a date.
    let result = TodoItem::parse_line("2024-13-01 call mom").unwrap();
    assert_eq!(result.creation_date, None);
    assert_eq!(result.description, "2024-13-01 call mom");

    // Leap-year rule: Feb 29 exists in 2024, not in 2023.
    let leap = TodoItem::parse_line("2024-02-29 ok").unwrap();
    assert_eq!(leap.creation_date, Some(date(2024, 2, 29)));
    let noleap = TodoItem::parse_line("2023-02-29 nope").unwrap();
    assert_eq!(noleap.creation_date, None);
}

#[test]
fn test_render_line_canonical() {
    let item = TodoItem {
        completed: true,
        priority: Some('G'),
        completion_date: None,
        creation_date: Some(date(2025, 02, 11)),
        contexts: vec!["Noel".to_string()],
        projects: Vec::new(),
        description: "unit test sein vadder @Noel".to_string(),
    };
    assert_eq!(
        item.render_line().unwrap(),
        "x (G) 2025-02-11 unit test sein vadder @Noel"
    );
}

#[test]
fn test_render_rejects_completion_without_creation() {
    let item = TodoItem {
        completed: false,
        priority: None,
        completion_date: Some(date(2024, 1, 1)),
        creation_date: None,
        contexts: Vec::new(),
        projects: Vec::new(),
        description: "broken".to_string(),
    };
    assert!(item.render_line().is_err());
}

#[test]
fn test_round_trip_parse_serialize_parse() {
    let inputs = vec![
        "x (A) 2024-03-20 2024-01-01 Measure space for +kitchen @home",
        "x x foo",
        "(A) x 2024-01-01 looks odd",
        "2024-03-20 2024-01-01 2024-02-02 three dates",
        "  spaced   out   words  ",
        "x",
        "",
    ];
    for input in inputs {
        let first = TodoItem::parse_line(input).unwrap();
        let line = first.render_line().unwrap();
        let second = TodoItem::parse_line(&line).unwrap();
        assert_eq!(first, second, "Failed on input: {}", input);
    }
}

#[test]
fn test_record_equality_is_set_based() {
    let a = TodoItem::parse_line("chores +a +b @x @y").unwrap();
    let mut b = TodoItem::parse_line("chores +a +b @x @y").unwrap();
    b.projects.reverse();
    b.contexts.reverse();
    assert_eq!(a, b);
    let c = TodoItem::parse_line("chores +a @x @y").unwrap();
    assert_ne!(a, c);
}
