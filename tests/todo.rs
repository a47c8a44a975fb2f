use regex::Regex;
use std::cmp::Ordering;
use todo_txt::date::Date;
use todo_txt::todo::Todo;

#[test]
fn parse_simple_todo() {
    let t = Todo::parse("Say hello to mom").unwrap();

    assert_eq!(t.task, "Say hello to mom");
    assert!(!t.is_complete, "should not be completed");
    assert!(t.priority.is_none(), "should not have a priority");
    assert_eq!(t.projects.len(), 0);
    assert_eq!(t.contexts.len(), 0);
}

#[test]
fn parse_completed_todo() {
    let t = Todo::parse("x Say hello to mom").unwrap();

    assert!(t.is_complete, "should be complete");
}

#[test]
fn parse_todo_with_priority() {
    let t = Todo::parse("(A) Say hello to mom").unwrap();

    assert_eq!(t.priority.unwrap(), 'A');
}

#[test]
fn parse_todo_with_projects() {
    let t = Todo::parse("Say hello to mom +Family").unwrap();

    assert_eq!(t.projects.len(), 1);
    assert_eq!(t.projects[0], "+Family");
}

#[test]
fn parse_todo_with_contexts() {
    let t = Todo::parse("Say hello to mom @phone").unwrap();

    assert_eq!(t.contexts.len(), 1);
    assert_eq!(t.contexts[0], "@phone");
}

#[test]
fn parse_todo_with_key_value_pairs() {
    let t = Todo::parse("Say hello to mom due:2018-12-25 time:1am").unwrap();

    assert!(t.key_values.contains_key("due"), "should contain a due key");
    assert_eq!(t.key_values.get("due"), Some(&String::from("2018-12-25")));

    assert!(t.key_values.contains_key("time"), "should contain a time key");
    assert_eq!(t.key_values.get("time"), Some(&String::from("1am")));
}

#[test]
fn parse_todo_with_create_date() {
    let t = Todo::parse("2021-01-01 happy new year!").unwrap();

    assert_eq!(t.created_at.unwrap().to_iso_string(), "2021-01-01");
    assert_eq!(t.completed_at, None, "completed_at should be None");
}

#[test]
fn parse_todo_with_create_and_complete_date() {
    let t = Todo::parse("x 2021-01-02 2021-01-01 happy new year!").unwrap();

    assert_eq!(t.created_at.unwrap().to_iso_string(), "2021-01-01");
    assert_eq!(t.completed_at.unwrap().to_iso_string(), "2021-01-02");
}

fn serialize_test(val: &str) {
    let t = Todo::parse(val).unwrap();

    // The identifier is random, so it is taken out before comparing.
    let remove_id_re = Regex::new(r"\sid:[^\s]+").unwrap();
    let serialized = t.serialize();
    let serialized_id_removed = remove_id_re.replace_all(&serialized, "");

    assert_eq!(serialized_id_removed, val);
}

#[test]
fn serialize_simple() {
    serialize_test("hello world");
}

#[test]
fn serialize_completed_todo() {
    serialize_test("x hello world");
}

#[test]
fn serialize_todo_with_create_date() {
    serialize_test("2021-01-01 hello world");
}

#[test]
fn serialize_todo_with_priority_and_create_date() {
    serialize_test("(A) 2021-01-01 hello world");
}

#[test]
fn serialize_todo_with_create_and_complete_date() {
    serialize_test("x 2021-01-02 2021-01-01 hello world");
}

#[test]
fn parse_example_with_context_kept_in_description() {
    let t = Todo::parse("(A) Thank Mom for the meatballs @phone").unwrap();
    assert!(!t.is_complete);
    assert_eq!(t.priority, Some('A'));
    assert_eq!(t.contexts, vec!["@phone".to_string()]);
    assert_eq!(t.task, "Thank Mom for the meatballs @phone");
}

#[test]
fn parse_example_dates_completed_then_created() {
    let t = Todo::parse("x 2021-01-02 2021-01-01 happy new year!").unwrap();
    assert!(t.is_complete);
    assert_eq!(t.completed_at, Date::from_ymd(2021, 1, 2));
    assert_eq!(t.created_at, Date::from_ymd(2021, 1, 1));
    assert_eq!(t.task, "happy new year!");
}

#[test]
fn parse_fails_without_description() {
    assert!(Todo::parse("").is_none());
    assert!(Todo::parse("(A) ").is_none());
    assert!(Todo::parse("x 2021-01-01 ").is_none());
    assert!(Todo::parse("   ").is_none());
}

#[test]
fn parse_reserved_keys() {
    let t = Todo::parse_with_id("call bob pri:C id:67e55044-10b1-426f-9247-bb680e5fe0c8", 7).unwrap();
    assert_eq!(t.priority, Some('C'));
    assert_eq!(t.id, 0x67e5504410b1426f9247bb680e5fe0c8u128);
    assert!(!t.key_values.contains_key("id"));
    assert!(!t.key_values.contains_key("pri"));
    assert_eq!(t.task, "call bob");

    let u = Todo::parse_with_id("(B) call bob pri:C id:nonsense", 7).unwrap();
    assert_eq!(u.priority, Some('B'));
    assert_eq!(u.id, 7);
}

#[test]
fn parse_last_key_wins_and_splits_at_last_colon() {
    let t = Todo::parse_with_id("a k:1 k:2 url:http://x", 1).unwrap();
    assert_eq!(t.key_values.get("k"), Some(&"2".to_string()));
    assert_eq!(t.key_values.get("url:http"), Some(&"//x".to_string()));
    assert_eq!(t.key_values.len(), 2);
    assert_eq!(t.task, "a");
}

#[test]
fn parse_invalid_date_token_is_dropped() {
    let t = Todo::parse_with_id("2021-13-01 task", 1).unwrap();
    assert_eq!(t.created_at, None);
    assert_eq!(t.task, "task");
}

#[test]
fn serialize_keeps_priority_of_completed_task() {
    let t = Todo::parse_with_id("x (A) done thing", 255).unwrap();
    assert_eq!(
        t.serialize(),
        "x done thing pri:A id:00000000-0000-0000-0000-0000000000ff"
    );
}

#[test]
fn parse_serialize_parse_is_stable() {
    for line in [
        "(A) 2021-01-01 call mom +family @phone due:2021-02-01",
        "x 2021-01-02 2021-01-01 happy new year! pri:B",
        "plain words   with  spaces k:v",
    ] {
        let t = Todo::parse_with_id(line, 42).unwrap();
        let u = Todo::parse_with_id(&t.serialize(), 99).unwrap();
        assert_eq!(u.id, t.id);
        assert_eq!(u.is_complete, t.is_complete);
        assert_eq!(u.created_at, t.created_at);
        assert_eq!(u.completed_at, t.completed_at);
        assert_eq!(u.task, t.task);
        assert_eq!(u.priority, t.priority);
        assert_eq!(u.projects, t.projects);
        assert_eq!(u.contexts, t.contexts);
        assert_eq!(u.serialize(), t.serialize());
    }
}

#[test]
fn compare_orders_completion_priority_title() {
    let open_a = Todo::parse("(A) zebra").unwrap();
    let open_b = Todo::parse("(B) apple").unwrap();
    let open_none = Todo::parse("aardvark").unwrap();
    let done_a = Todo::parse("x (A) aaa").unwrap();
    assert_eq!(open_a.cmp(&open_b), Ordering::Less);
    assert_eq!(open_b.cmp(&open_none), Ordering::Less);
    assert_eq!(open_none.cmp(&done_a), Ordering::Less);
    assert_eq!(done_a.cmp(&open_a), Ordering::Greater);
    let same_a = Todo::parse("(A) zebra").unwrap();
    assert_eq!(open_a.cmp(&same_a), Ordering::Equal);
    let a2 = Todo::parse("(A) yak").unwrap();
    assert_eq!(a2.cmp(&open_a), Ordering::Less);
    assert_eq!(open_a.cmp_by_title(&open_b), Ordering::Greater);
}

#[test]
fn compare_by_due_date() {
    let early = Todo::parse("(C) b due:2021-01-01").unwrap();
    let late = Todo::parse("(A) a due:2021-06-01").unwrap();
    let none = Todo::parse("(A) a").unwrap();
    let done = Todo::parse("x a due:2020-01-01").unwrap();
    assert_eq!(early.cmp_by_due_date(&late), Ordering::Less);
    assert_eq!(late.cmp_by_due_date(&none), Ordering::Less);
    assert_eq!(none.cmp_by_due_date(&late), Ordering::Greater);
    assert_eq!(done.cmp_by_due_date(&early), Ordering::Greater);
    let tie = Todo::parse("(B) c due:2021-01-01").unwrap();
    assert_eq!(tie.cmp_by_due_date(&early), Ordering::Less);
}

#[test]
fn clock_in_then_out_accumulates() {
    let mut t = Todo::parse("work").unwrap();
    t.clock_in_at(1000);
    assert!(t.has_clock());
    assert_eq!(t.key_values.get("clock"), Some(&"1000".to_string()));
    t.clock_in_at(2000);
    assert_eq!(t.key_values.get("clock"), Some(&"1000".to_string()));
    assert_eq!(t.elapsed_time_at(1061), "1m1s");
    t.clock_out_at(4661);
    assert!(!t.has_clock());
    assert_eq!(t.key_values.get("clocked"), Some(&"1h1m1s".to_string()));
    assert_eq!(t.elapsed_time_at(9999), "");
    t.clock_in_at(5000);
    t.clock_out_at(5030);
    assert_eq!(t.key_values.get("clocked"), Some(&"1h1m31s".to_string()));
    t.clock_out_at(6000);
    assert_eq!(t.key_values.get("clocked"), Some(&"1h1m31s".to_string()));
}

#[test]
fn clock_in_and_out_with_wall_clock() {
    let mut t = Todo::parse("work").unwrap();
    t.clock_in();
    assert!(t.has_clock());
    t.clock_out();
    assert!(!t.has_clock());
    let clocked = t.key_values.get("clocked").cloned().unwrap_or_default();
    assert!(todo_txt::hms::to_seconds(&clocked) <= 5);
}

#[test]
fn past_due_compares_dates() {
    let t = Todo::parse("pay due:2021-01-02").unwrap();
    assert!(t.is_past_due_on(Date::from_ymd(2021, 1, 2).unwrap()));
    assert!(t.is_past_due_on(Date::from_ymd(2021, 3, 1).unwrap()));
    assert!(!t.is_past_due_on(Date::from_ymd(2021, 1, 1).unwrap()));
    let u = Todo::parse("pay").unwrap();
    assert!(!u.is_past_due_on(Date::from_ymd(2021, 1, 1).unwrap()));
    assert!(!u.is_past_due());
}

#[test]
fn reset_clears_completion_and_clock() {
    let mut t = Todo::parse("x 2021-01-02 2021-01-01 water plants rep:1w clock:5 clocked:1m").unwrap();
    let d = Date::from_ymd(2021, 5, 5).unwrap();
    t.reset_on(true, d);
    assert!(!t.is_complete);
    assert_eq!(t.completed_at, None);
    assert_eq!(t.created_at, Some(d));
    assert!(!t.has_clock());
    assert!(!t.key_values.contains_key("clocked"));
    assert!(t.has_repeat());
    let mut u = Todo::parse("x 2021-01-02 2021-01-01 a").unwrap();
    u.reset(false);
    assert_eq!(u.created_at, Date::from_ymd(2021, 1, 1));
}

#[test]
fn clone_keeps_everything() {
    let t = Todo::parse("(A) 2021-01-01 call +p @c k:v").unwrap();
    let c = t.clone();
    assert_eq!(c.serialize(), t.serialize());
    assert_eq!(c.index, t.index);
}
