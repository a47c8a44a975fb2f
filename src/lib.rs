//! Verified core of a todo.txt task manager: the line format, the task
//! record, its time tracking and repeat schedule, and operations on lists.

pub mod text;
pub mod hms;
pub mod date;
pub mod repeat_time;
pub mod kv;
pub mod line;
pub mod ids;
pub mod todo;
pub mod todo_list;
pub mod cfg;
pub mod args;
pub mod cmd_rm;
pub mod cmd_archive;
pub mod cmd_clock;
pub mod cmd_pri;
pub mod cmd_ls;
pub mod cmd_do;
pub mod cmd_add;
pub mod cmd_tag;
pub mod round_trip;
pub mod todo_file;
