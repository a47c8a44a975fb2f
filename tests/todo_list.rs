use todo_txt::date::{Date, Weekday};
use todo_txt::kv::KeyValues;
use todo_txt::todo::Todo;
use todo_txt::todo_list::TodoList;

fn list(lines: &[&str]) -> TodoList {
    TodoList {
        items: lines.iter().map(|l| Todo::parse(l).unwrap()).collect(),
    }
}

fn tasks(l: &TodoList) -> Vec<String> {
    l.items.iter().map(|t| t.task.clone()).collect()
}

#[test]
fn filter_by_text_excludes_with_minus() {
    let l = list(&["write report", "done laundry", "call mom @done", "shop"]);
    let r = l.filter_by_text("-done");
    assert_eq!(tasks(&r), vec!["write report", "shop"]);
    let l = list(&["write report", "done laundry", "call mom"]);
    let r = l.filter_by_text("mom");
    assert_eq!(tasks(&r), vec!["call mom"]);
}

#[test]
fn filter_by_priority_keeps_at_or_above() {
    let l = list(&["(A) a", "(B) b", "(C) c", "d"]);
    assert_eq!(tasks(&l.filter_by_priority('B')), vec!["a", "b"]);
}

#[test]
fn filter_by_complete_and_past_due() {
    let l = list(&["x done", "open", "x also done"]);
    assert_eq!(tasks(&l.filter_by_complete(true)), vec!["done", "also done"]);
    let l = list(&["a due:2021-01-01", "x b due:2021-01-01", "c due:2030-01-01", "d"]);
    let today = Date::from_ymd(2021, 6, 1).unwrap();
    assert_eq!(tasks(&l.filter_by_past_due_on(true, today)), vec!["a"]);
    let l = list(&["a due:2021-01-01", "x b due:2021-01-01", "c due:2030-01-01", "d"]);
    assert_eq!(tasks(&l.filter_by_past_due_on(false, today)), vec!["c", "d"]);
}

#[test]
fn filter_by_project_matches_tag() {
    let l = list(&["a +home", "b +work", "c +homework"]);
    assert_eq!(tasks(&l.filter_by_project("home")), vec!["a +home"]);
}

#[test]
fn sort_orders_and_is_stable() {
    let mut l = list(&["x (A) done", "b", "(B) y", "(A) z", "a", "(B) y"]);
    l.items[2].index = 1;
    l.items[5].index = 2;
    l.sort();
    assert_eq!(tasks(&l), vec!["z", "y", "y", "a", "b", "done"]);
    assert_eq!(l.items[1].index, 1);
    assert_eq!(l.items[2].index, 2);
}

#[test]
fn sort_by_title_and_due_date() {
    let mut l = list(&["pear", "apple", "fig"]);
    l.sort_by_title();
    assert_eq!(tasks(&l), vec!["apple", "fig", "pear"]);
    let mut l = list(&["a", "b due:2021-03-01", "x c due:2020-01-01", "d due:2021-01-01"]);
    l.sort_by_due_date();
    assert_eq!(tasks(&l), vec!["d", "b", "a", "c"]);
}

#[test]
fn split_partitions_in_order() {
    let l = list(&["x one", "two", "x three", "four"]);
    let (open, closed) = l.split();
    let o: Vec<String> = open.iter().map(|t| t.task.clone()).collect();
    let c: Vec<String> = closed.iter().map(|t| t.task.clone()).collect();
    assert_eq!(o, vec!["two", "four"]);
    assert_eq!(c, vec!["one", "three"]);
}

#[test]
fn key_values_keep_first_place_and_unique_keys() {
    let mut kv = KeyValues::new();
    kv.insert("a".to_string(), "1".to_string());
    kv.insert("b".to_string(), "2".to_string());
    kv.insert("a".to_string(), "3".to_string());
    assert_eq!(kv.len(), 2);
    assert_eq!(kv.key_at(0), "a");
    assert_eq!(kv.value_at(0), "3");
    kv.remove("a");
    assert_eq!(kv.len(), 1);
    assert_eq!(kv.get("a"), None);
    kv.remove("zzz");
    assert_eq!(kv.len(), 1);
}

#[test]
fn weekday_numbers() {
    assert_eq!(Weekday::Mon.num_days_from_monday(), 0);
    assert_eq!(Weekday::Sun.num_days_from_monday(), 6);
}
