//! Settings, as read from the configuration file by the caller, and the
//! lookups the commands make in them.

use vstd::prelude::*;
use crate::kv::KeyValues;
use crate::text::{chars_of, string_of};

verus! {

/// The settings of a configuration file; a missing flag is `false`, a
/// missing value `None`.
pub struct Settings {
    pub auto_archive: bool,
    pub log_create_date: bool,
    pub log_complete_date: bool,
    pub auto_ls: bool,
    pub default_priority: Option<String>,
    /// The `data_path` setting.
    pub data_path: Option<String>,
    /// Where data goes when `data_path` is not set.
    pub default_data_path: String,
    pub todo_filename: Option<String>,
    pub archive_filename: Option<String>,
    /// Path of the configuration file that was read, if any.
    pub config_file: Option<String>,
    /// Groups of tags of which a task carries at most one.
    pub mutually_exclusive_tags: Vec<Vec<String>>,
    /// Per project, its rules (such as `append`).
    pub project_rules: Vec<(String, KeyValues)>,
}

pub open spec fn is_absolute(p: Seq<char>) -> bool {
    p.len() > 0 && p[0] == '/'
}

/// Index of the last `/` in `p`, or -1.
pub open spec fn last_slash(p: Seq<char>) -> int
    decreases p.len(),
{
    if p.len() == 0 {
        -1
    } else if p.last() == '/' {
        p.len() - 1
    } else {
        last_slash(p.drop_last())
    }
}

/// The directory part of a path: up to its last `/`, empty when it has
/// none, `/` for a file at the root.
pub open spec fn parent(p: Seq<char>) -> Seq<char> {
    let i = last_slash(p);
    if i < 0 {
        Seq::empty()
    } else if i == 0 {
        seq!['/']
    } else {
        p.take(i)
    }
}

/// `name` under `base`: `name` itself when it is absolute or `base` is empty.
pub open spec fn join_path(base: Seq<char>, name: Seq<char>) -> Seq<char> {
    if is_absolute(name) || base.len() == 0 {
        name
    } else if base.last() == '/' {
        base + name
    } else {
        base + seq!['/'] + name
    }
}

/// A relative path is taken from the configuration file's directory.
pub open spec fn relative_to(config_file: Option<Seq<char>>, p: Seq<char>) -> Seq<char> {
    if !is_absolute(p) && config_file is Some {
        join_path(parent(config_file->0), p)
    } else {
        p
    }
}

impl Settings {
    pub open spec fn config_file_view(&self) -> Option<Seq<char>> {
        match self.config_file {
            Some(f) => Some(f@),
            None => None,
        }
    }

    pub open spec fn data_dir(&self) -> Seq<char> {
        match self.data_path {
            Some(p) => p@,
            None => self.default_data_path@,
        }
    }
}

fn last_slash_of(p: &Vec<char>) -> (r: Option<usize>)
    ensures
        r is Some <==> last_slash(p@) >= 0,
        r is Some ==> r->0 == last_slash(p@) && r->0 < p@.len(),
{
    let mut i = p.len();
    assert(p@.take(i as int) =~= p@);
    while i > 0
        invariant
            i <= p@.len(),
            last_slash(p@) == last_slash(p@.take(i as int)),
        decreases i,
    {
        if p[i - 1] == '/' {
            return Some(i - 1);
        }
        assert(p@.take(i as int).drop_last() =~= p@.take(i - 1));
        i -= 1;
    }
    None
}

fn join_path_chars(base: &Vec<char>, name: &Vec<char>) -> (r: Vec<char>)
    ensures
        r@ == join_path(base@, name@),
{
    if (name.len() > 0 && name[0] == '/') || base.len() == 0 {
        return crate::text::slice_chars(name, 0, name.len());
    }
    let mut out = crate::text::slice_chars(base, 0, base.len());
    if base[base.len() - 1] != '/' {
        out.push('/');
    }
    let ghost before = out@;
    let mut i: usize = 0;
    while i < name.len()
        invariant
            i <= name@.len(),
            out@ == before + name@.take(i as int),
        decreases name@.len() - i,
    {
        out.push(name[i]);
        i += 1;
        assert(out@ =~= before + name@.take(i as int));
    }
    assert(name@.take(i as int) =~= name@);
    assert(base@.subrange(0, base@.len() as int) =~= base@);
    assert(name@.subrange(0, name@.len() as int) =~= name@);
    out
}

fn relative_to_config_file(settings: &Settings, pb: &Vec<char>) -> (r: Vec<char>)
    ensures
        r@ == relative_to(settings.config_file_view(), pb@),
{
    let absolute = pb.len() > 0 && pb[0] == '/';
    match &settings.config_file {
        Some(f) if !absolute => {
            let fc = chars_of(f.as_str());
            let dir = match last_slash_of(&fc) {
                None => Vec::new(),
                Some(0) => vec!['/'],
                Some(i) => crate::text::slice_chars(&fc, 0, i),
            };
            proof {
                assert(dir@ =~= parent(f@));
            }
            join_path_chars(&dir, pb)
        },
        _ => {
            assert(pb@.subrange(0, pb@.len() as int) =~= pb@);
            crate::text::slice_chars(pb, 0, pb.len())
        },
    }
}

/// Path of a file in the data directory.
pub fn get_data_file(settings: &Settings, filename: &str) -> (r: String)
    ensures
        r@ == join_path(relative_to(settings.config_file_view(), settings.data_dir()), filename@),
{
    let dir = match &settings.data_path {
        Some(p) => chars_of(p.as_str()),
        None => chars_of(settings.default_data_path.as_str()),
    };
    let base = relative_to_config_file(settings, &dir);
    let name = chars_of(filename);
    let path = join_path_chars(&base, &name);
    string_of(&path)
}

/// The file a setting names, taken from the configuration file's
/// directory when relative, or the default file in the data directory.
pub open spec fn filename_of(settings: Settings, value: Option<String>, default: Seq<char>) -> Seq<char> {
    match value {
        Some(p) => relative_to(settings.config_file_view(), p@),
        None => join_path(relative_to(settings.config_file_view(), settings.data_dir()), default),
    }
}

fn get_filename(settings: &Settings, value: &Option<String>, default_filename: &str) -> (r: String)
    ensures
        r@ == filename_of(*settings, *value, default_filename@),
{
    match value {
        None => get_data_file(settings, default_filename),
        Some(p) => {
            let pc = chars_of(p.as_str());
            let r = relative_to_config_file(settings, &pc);
            string_of(&r)
        },
    }
}

/// The todo file: the `todo_filename` setting, or `todo.txt` in the data
/// directory.
pub fn get_todo_filename(settings: &Settings) -> (r: String)
    ensures
        r@ == filename_of(*settings, settings.todo_filename, seq!['t', 'o', 'd', 'o', '.', 't', 'x', 't']),
{
    proof {
        reveal_strlit("todo.txt");
    }
    get_filename(settings, &settings.todo_filename, "todo.txt")
}

/// The archive file: the `archive_filename` setting, or `archive.txt` in
/// the data directory.
pub fn get_archive_filename(settings: &Settings) -> (r: String)
    ensures
        r@ == filename_of(
            *settings,
            settings.archive_filename,
            seq!['a', 'r', 'c', 'h', 'i', 'v', 'e', '.', 't', 'x', 't'],
        ),
{
    proof {
        reveal_strlit("archive.txt");
    }
    get_filename(settings, &settings.archive_filename, "archive.txt")
}

/// The groups of mutually exclusive tags.
pub fn get_mutually_exclusive_tags(settings: &Settings) -> (r: &Vec<Vec<String>>)
    ensures
        r == &settings.mutually_exclusive_tags,
{
    &settings.mutually_exclusive_tags
}

/// The rules of a project; `None` when it has none.
pub fn get_project_rules<'a>(settings: &'a Settings, project_name: &str) -> (r: Option<&'a KeyValues>)
    ensures
        r is Some <==> exists|i: int| 0 <= i < settings.project_rules@.len() && (#[trigger] settings.project_rules@[i]).0@ == project_name@,
        r is Some ==> exists|i: int| 0 <= i < settings.project_rules@.len() && (#[trigger] settings.project_rules@[i]).0@ == project_name@ && r->0 == &settings.project_rules@[i].1
            && forall|j: int| 0 <= j < i ==> (#[trigger] settings.project_rules@[j]).0@ != project_name@,
{
    let name = chars_of(project_name);
    let mut i: usize = 0;
    while i < settings.project_rules.len()
        invariant
            name@ == project_name@,
            i <= settings.project_rules@.len(),
            forall|j: int| 0 <= j < i ==> (#[trigger] settings.project_rules@[j]).0@ != project_name@,
        decreases settings.project_rules@.len() - i,
    {
        let c = chars_of(settings.project_rules[i].0.as_str());
        if crate::text::chars_eq(&c, &name) {
            return Some(&settings.project_rules[i].1);
        }
        i += 1;
    }
    None
}

pub fn get_auto_archive(settings: &Settings) -> (r: bool)
    ensures
        r == settings.auto_archive,
{
    settings.auto_archive
}

pub fn get_log_create_date(settings: &Settings) -> (r: bool)
    ensures
        r == settings.log_create_date,
{
    settings.log_create_date
}

pub fn get_log_complete_date(settings: &Settings) -> (r: bool)
    ensures
        r == settings.log_complete_date,
{
    settings.log_complete_date
}

pub fn get_auto_ls(settings: &Settings) -> (r: bool)
    ensures
        r == settings.auto_ls,
{
    settings.auto_ls
}

/// The first character of the `default_priority` setting.
pub fn get_default_priority(settings: &Settings) -> (r: Option<char>)
    ensures
        r == match settings.default_priority {
            Some(s) => if s@.len() > 0 {
                Some(s@[0])
            } else {
                None
            },
            None => None,
        },
{
    match &settings.default_priority {
        None => None,
        Some(s) => {
            let c = chars_of(s.as_str());
            if c.len() > 0 {
                Some(c[0])
            } else {
                None
            }
        },
    }
}

} // verus!
