use todo_txt::cfg::{
    get_archive_filename, get_auto_archive, get_data_file, get_default_priority,
    get_mutually_exclusive_tags, get_project_rules, get_todo_filename, Settings,
};
use todo_txt::date::Date;
use todo_txt::kv::KeyValues;
use todo_txt::todo::Todo;
use todo_txt::todo_file::{parse_todo_lines, serialize_todos};
use todo_txt::todo_list::TodoList;
use todo_txt::{cmd_add, cmd_archive, cmd_clock, cmd_do, cmd_ls, cmd_pri, cmd_rm, cmd_tag};

fn todos(lines: &[&str]) -> Vec<Todo> {
    lines.iter().map(|l| Todo::parse(l).unwrap()).collect()
}

fn tasks(v: &[Todo]) -> Vec<String> {
    v.iter().map(|t| t.task.clone()).collect()
}

fn args(a: &[&str]) -> Vec<String> {
    a.iter().map(|s| s.to_string()).collect()
}

fn settings() -> Settings {
    Settings {
        auto_archive: false,
        log_create_date: false,
        log_complete_date: false,
        auto_ls: false,
        default_priority: None,
        data_path: None,
        default_data_path: "/home/me/.config/todo-txt".to_string(),
        todo_filename: None,
        archive_filename: None,
        config_file: None,
        mutually_exclusive_tags: vec![],
        project_rules: vec![],
    }
}

fn ymd(y: i32, m: u32, d: u32) -> Date {
    Date::from_ymd(y, m, d).unwrap()
}

#[test]
fn file_lines_skip_blank_and_number_in_order() {
    let lines = args(&["first", "", "(A) second", "   ", "x third"]);
    let list = parse_todo_lines(&lines);
    assert_eq!(tasks(&list.items), vec!["first", "second", "third"]);
    let idx: Vec<u32> = list.items.iter().map(|t| t.index).collect();
    assert_eq!(idx, vec![0, 1, 2]);
    let out = serialize_todos(&list.items);
    assert!(out[1].starts_with("(A) second id:"));
}

#[test]
fn settings_paths() {
    let mut s = settings();
    assert_eq!(get_todo_filename(&s), "/home/me/.config/todo-txt/todo.txt");
    assert_eq!(get_archive_filename(&s), "/home/me/.config/todo-txt/archive.txt");
    s.config_file = Some("/work/proj/.todo-txt.toml".to_string());
    s.data_path = Some("data".to_string());
    assert_eq!(get_data_file(&s, "x.txt"), "/work/proj/data/x.txt");
    s.todo_filename = Some("tasks.txt".to_string());
    assert_eq!(get_todo_filename(&s), "/work/proj/tasks.txt");
    s.archive_filename = Some("/abs/archive.txt".to_string());
    assert_eq!(get_archive_filename(&s), "/abs/archive.txt");
}

#[test]
fn settings_lookups() {
    let mut s = settings();
    assert!(!get_auto_archive(&s));
    assert_eq!(get_default_priority(&s), None);
    s.default_priority = Some("Bee".to_string());
    assert_eq!(get_default_priority(&s), Some('B'));
    s.mutually_exclusive_tags = vec![args(&["a", "b"])];
    assert_eq!(get_mutually_exclusive_tags(&s).len(), 1);
    let mut kv = KeyValues::new();
    kv.insert("append".to_string(), "@office".to_string());
    s.project_rules = vec![("work".to_string(), kv)];
    assert!(get_project_rules(&s, "work").is_some());
    assert!(get_project_rules(&s, "home").is_none());
}

#[test]
fn rm_removes_numbered_tasks() {
    let mut v = todos(&["a", "b", "c", "d"]);
    let opts = cmd_rm::Opts { help: false, free: args(&["2", "4", "9", "zero", "0"]) };
    cmd_rm::execute(&opts, &mut v);
    assert_eq!(tasks(&v), vec!["a", "c"]);
}

#[test]
fn archive_splits_done_tasks() {
    let list = TodoList { items: todos(&["x a", "b", "x c"]) };
    let (keep, done) = cmd_archive::execute(&cmd_archive::Opts { help: false }, list);
    assert_eq!(tasks(&keep), vec!["b"]);
    assert_eq!(tasks(&done), vec!["a", "c"]);
}

#[test]
fn pri_sets_and_clears() {
    let mut v = todos(&["a", "(C) b"]);
    let opts = cmd_pri::Opts { help: false, priority: Some('b'), clear: false, free: args(&["1", "7"]) };
    let missing = cmd_pri::execute(&opts, &mut v).unwrap();
    assert_eq!(v[0].priority, Some('B'));
    assert_eq!(missing, vec!["7".to_string()]);
    let opts = cmd_pri::Opts { help: false, priority: Some('A'), clear: true, free: args(&["2"]) };
    assert!(cmd_pri::execute(&opts, &mut v).is_some());
    assert_eq!(v[1].priority, None);
    let opts = cmd_pri::Opts { help: false, priority: Some('1'), clear: false, free: args(&["1"]) };
    assert!(cmd_pri::execute(&opts, &mut v).is_none());
    assert_eq!(v[0].priority, Some('B'));
}

#[test]
fn clock_toggles_and_sets() {
    let mut v = todos(&["a", "b"]);
    let mut opts = cmd_clock::Opts {
        help: false,
        clear: false,
        clear_clocked: false,
        set_clocked_time: String::new(),
        free: args(&["1"]),
    };
    assert!(cmd_clock::execute(&opts, &mut v, 100));
    assert_eq!(v[0].key_values.get("clock"), Some(&"100".to_string()));
    assert_eq!(cmd_clock::clock_elapsed(&v[0], 161), Some("1m1s".to_string()));
    assert_eq!(cmd_clock::clock_elapsed(&v[1], 161), None);
    assert!(cmd_clock::execute(&opts, &mut v, 3700));
    assert_eq!(v[0].key_values.get("clocked"), Some(&"1h".to_string()));
    opts.set_clocked_time = "5m".to_string();
    cmd_clock::execute(&opts, &mut v, 0);
    assert_eq!(v[0].key_values.get("clocked"), Some(&"5m".to_string()));
    opts.set_clocked_time = String::new();
    opts.clear_clocked = true;
    cmd_clock::execute(&opts, &mut v, 0);
    assert!(!v[0].key_values.contains_key("clocked"));
    opts.free = vec![];
    assert!(!cmd_clock::execute(&opts, &mut v, 0));
}

#[test]
fn do_completes_and_reopens() {
    let mut v = todos(&["a", "x b", "c"]);
    let opts = cmd_do::Opts { help: false, free: args(&["1", "2"]), archive: false };
    let archived = cmd_do::execute_on(&opts, &mut v, false, true, ymd(2021, 3, 4), 0, &vec![1, 2]);
    assert!(archived.is_empty());
    assert!(v[0].is_complete);
    assert_eq!(v[0].completed_at, Some(ymd(2021, 3, 4)));
    assert!(!v[1].is_complete);
    assert_eq!(v[1].completed_at, None);
}

#[test]
fn do_rolls_repeating_task_over() {
    let mut v = todos(&["water plants rep:1w due:2021-03-01", "other"]);
    let opts = cmd_do::Opts { help: false, free: args(&["1"]), archive: false };
    let archived = cmd_do::execute_on(&opts, &mut v, false, false, ymd(2021, 3, 4), 0, &vec![77]);
    assert!(archived.is_empty());
    assert_eq!(v.len(), 3);
    assert!(!v[0].is_complete);
    assert_eq!(v[0].created_at, Some(ymd(2021, 3, 4)));
    assert_eq!(v[0].key_values.get("due"), Some(&"2021-03-11".to_string()));
    assert!(v[2].is_complete);
    assert_eq!(v[2].id, 77);
    assert_eq!(v[2].key_values.get("due"), Some(&"2021-03-01".to_string()));
}

#[test]
fn do_archives_done_tasks() {
    let mut v = todos(&["a", "b rep:1d", "c"]);
    let opts = cmd_do::Opts { help: false, free: args(&["1", "2", "3"]), archive: true };
    let archived = cmd_do::execute_on(&opts, &mut v, true, false, ymd(2021, 3, 4), 0, &vec![5, 6, 7]);
    assert_eq!(tasks(&v), vec!["b"]);
    assert!(!v[0].is_complete);
    assert_eq!(tasks(&archived), vec!["a", "b", "c"]);
    assert_eq!(archived[1].id, 6);
}

#[test]
fn add_builds_the_task() {
    let mut s = settings();
    s.default_priority = Some("C".to_string());
    s.log_create_date = true;
    let mut kv = KeyValues::new();
    kv.insert("append".to_string(), "@office".to_string());
    s.project_rules = vec![("work".to_string(), kv)];
    let opts = cmd_add::Opts {
        help: false,
        free: args(&["write", "report", "+work", "due:tomorrow"]),
        priority: '\0',
        clock_in: true,
        quiet: true,
    };
    let t = cmd_add::execute(&opts, &s, ymd(2021, 12, 31), 500, 9).unwrap();
    assert_eq!(t.priority, Some('C'));
    assert_eq!(t.task, "write report +work @office");
    assert_eq!(t.created_at, Some(ymd(2021, 12, 31)));
    assert_eq!(t.key_values.get("due"), Some(&"2022-01-01".to_string()));
    assert_eq!(t.key_values.get("clock"), Some(&"500".to_string()));
    assert_eq!(t.id, 9);
    let empty = cmd_add::Opts { help: false, free: vec![], priority: 'a', clock_in: false, quiet: true };
    assert!(cmd_add::execute(&empty, &settings(), ymd(2021, 1, 1), 0, 1).is_none());
}

#[test]
fn relative_dates() {
    let d = ymd(2021, 1, 1); // a Friday
    assert_eq!(cmd_add::compute_relative_date("today", d), Some(d));
    assert_eq!(cmd_add::compute_relative_date("Tomorrow", d), Some(ymd(2021, 1, 2)));
    assert_eq!(cmd_add::compute_relative_date("monday", d), Some(ymd(2021, 1, 4)));
    assert_eq!(cmd_add::compute_relative_date("FRIDAY", d), Some(d));
    assert_eq!(cmd_add::compute_relative_date("2021-05-06", d), Some(ymd(2021, 5, 6)));
    assert_eq!(cmd_add::compute_relative_date("2w", d), Some(ymd(2021, 1, 15)));
    assert_eq!(cmd_add::compute_relative_date("whenever", d), Some(d));
}

#[test]
fn tag_toggles_with_exclusive_groups() {
    let mut v = todos(&["a #doing", "b", "c #waiting"]);
    let groups = vec![args(&["doing", "waiting", "done"])];
    let opts = cmd_tag::Opts { help: false, free: args(&["done", "1", "2", "3"]) };
    cmd_tag::execute(&opts, &mut v, &groups);
    assert_eq!(tasks(&v), vec!["a #done", "b #done", "c #done"]);
    cmd_tag::execute(&opts, &mut v, &groups);
    assert_eq!(tasks(&v), vec!["a", "b", "c"]);
}

#[test]
fn ls_filters_sorts_and_limits() {
    let list = TodoList { items: todos(&["(B) b", "x (A) done", "(A) a", "c", "(C) skip me"]) };
    let mut opts = cmd_ls::default_opts();
    opts.incomplete = true;
    opts.free = args(&["-skip"]);
    opts.limit = 2;
    let r = cmd_ls::execute(&opts, list, ymd(2021, 1, 1));
    assert_eq!(tasks(&r.items), vec!["a", "b"]);
    let list = TodoList { items: todos(&["(B) b", "(A) a", "(C) c"]) };
    let mut opts = cmd_ls::default_opts();
    opts.priority = 'b';
    let r = cmd_ls::execute(&opts, list, ymd(2021, 1, 1));
    assert_eq!(tasks(&r.items), vec!["a", "b"]);
    assert_eq!(cmd_ls::default_opts().color, "auto");
}
