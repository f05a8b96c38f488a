//! The command line: subcommands, flags and their values.
use vstd::prelude::*;

use crate::text::str_eq;

verus! {

#[derive(Debug, Clone, Copy, PartialEq, Eq, Structural)]
pub enum Action {
    Rename,
    Move,
    Copy,
}

#[derive(Debug)]
pub enum Commands {
    Scan { path: String, recursive: bool },
    Plan(PlanArgs),
    Apply(PlanArgs),
    MatchMovie {
        path: String,
        tmdb_key: Option<String>,
        language: String,
        dry_run: bool,
        recursive: bool,
    },
    Help,
}

#[derive(Debug)]
pub struct PlanArgs {
    pub path: String,
    pub recursive: bool,
    pub format: String,
    pub action: Action,
    pub output: Option<String>,
    pub dry_run: bool,
    pub db: Option<String>,
    pub tmdb_key: Option<String>,
}

/// `PlanArgs` with its strings taken as character sequences.
pub struct PlanArgsView {
    pub path: Seq<char>,
    pub recursive: bool,
    pub format: Seq<char>,
    pub action: Action,
    pub output: Option<Seq<char>>,
    pub dry_run: bool,
    pub db: Option<Seq<char>>,
    pub tmdb_key: Option<Seq<char>>,
}

/// `Commands` with its strings taken as character sequences.
pub enum CommandsView {
    Scan { path: Seq<char>, recursive: bool },
    Plan(PlanArgsView),
    Apply(PlanArgsView),
    MatchMovie {
        path: Seq<char>,
        tmdb_key: Option<Seq<char>>,
        language: Seq<char>,
        dry_run: bool,
        recursive: bool,
    },
    Help,
}

pub open spec fn opt_str_view(o: Option<String>) -> Option<Seq<char>> {
    match o {
        Some(s) => Some(s@),
        None => None,
    }
}

impl View for PlanArgs {
    type V = PlanArgsView;

    open spec fn view(&self) -> PlanArgsView {
        PlanArgsView {
            path: self.path@,
            recursive: self.recursive,
            format: self.format@,
            action: self.action,
            output: opt_str_view(self.output),
            dry_run: self.dry_run,
            db: opt_str_view(self.db),
            tmdb_key: opt_str_view(self.tmdb_key),
        }
    }
}

impl View for Commands {
    type V = CommandsView;

    open spec fn view(&self) -> CommandsView {
        match self {
            Commands::Scan { path, recursive } => CommandsView::Scan {
                path: path@,
                recursive: *recursive,
            },
            Commands::Plan(a) => CommandsView::Plan(a@),
            Commands::Apply(a) => CommandsView::Apply(a@),
            Commands::MatchMovie { path, tmdb_key, language, dry_run, recursive } =>
                CommandsView::MatchMovie {
                path: path@,
                tmdb_key: opt_str_view(*tmdb_key),
                language: language@,
                dry_run: *dry_run,
                recursive: *recursive,
            },
            Commands::Help => CommandsView::Help,
        }
    }
}

/// The arguments as character sequences.
pub open spec fn arg_views(args: Seq<String>) -> Seq<Seq<char>> {
    args.map_values(|s: String| s@)
}

/// Some argument is exactly `name`.
pub open spec fn has_flag_spec(a: Seq<Seq<char>>, name: Seq<char>) -> bool {
    exists|i: int| 0 <= i < a.len() && a[i] == name
}

/// The argument right after the first occurrence of `name` that has one
/// after it, searching from index `i`.
pub open spec fn value_from(a: Seq<Seq<char>>, name: Seq<char>, i: int) -> Option<Seq<char>>
    decreases a.len() - i,
{
    if i < 0 || i + 1 >= a.len() {
        None
    } else if a[i] == name {
        Some(a[i + 1])
    } else {
        value_from(a, name, i + 1)
    }
}

/// The value given to the option `name`: the argument after its first
/// occurrence.
pub open spec fn value_of_spec(a: Seq<Seq<char>>, name: Seq<char>) -> Option<Seq<char>> {
    value_from(a, name, 0)
}

pub open spec fn starts_with_dashes(s: Seq<char>) -> bool {
    s.len() >= 2 && s[0] == '-' && s[1] == '-'
}

/// The first positional argument, skipping options; `--tmdb-key` and
/// `--language` take the argument after them as their value.
pub open spec fn positional_spec(a: Seq<Seq<char>>) -> Option<Seq<char>>
    decreases a.len(),
{
    if a.len() == 0 {
        None
    } else if starts_with_dashes(a[0]) {
        if a[0] == "--tmdb-key"@ || a[0] == "--language"@ {
            if a.len() < 2 {
                None
            } else {
                positional_spec(a.skip(2))
            }
        } else {
            positional_spec(a.skip(1))
        }
    } else {
        Some(a[0])
    }
}

/// The action named by `--action` (rename when absent).
pub open spec fn action_spec(a: Seq<Seq<char>>) -> Option<Action> {
    let name = match value_of_spec(a, "--action"@) {
        Some(v) => v,
        None => "rename"@,
    };
    if name == "rename"@ {
        Some(Action::Rename)
    } else if name == "move"@ {
        Some(Action::Move)
    } else if name == "copy"@ {
        Some(Action::Copy)
    } else {
        None
    }
}

/// What `parse_args` makes of the arguments (the first is the program name).
pub open spec fn parse_args_spec(a: Seq<Seq<char>>) -> Result<CommandsView, Seq<char>> {
    if a.len() < 2 || a[1] == "--help"@ || a[1] == "-h"@ {
        Ok(CommandsView::Help)
    } else if a[1] == "scan"@ {
        if a.len() < 3 {
            Err("scan requires <path>"@)
        } else {
            Ok(CommandsView::Scan { path: a[2], recursive: has_flag_spec(a, "--recursive"@) })
        }
    } else if a[1] == "plan"@ || a[1] == "apply"@ {
        if a.len() < 3 {
            Err("plan/apply requires <path>"@)
        } else {
            match value_of_spec(a, "--format"@) {
                None => Err("--format required"@),
                Some(format) => match action_spec(a) {
                    None => Err("invalid --action"@),
                    Some(action) => {
                        let args = PlanArgsView {
                            path: a[2],
                            recursive: has_flag_spec(a, "--recursive"@),
                            format,
                            action,
                            output: value_of_spec(a, "--output"@),
                            dry_run: has_flag_spec(a, "--dry-run"@),
                            db: value_of_spec(a, "--db"@),
                            tmdb_key: value_of_spec(a, "--tmdb-key"@),
                        };
                        if a[1] == "plan"@ {
                            Ok(CommandsView::Plan(args))
                        } else {
                            Ok(CommandsView::Apply(args))
                        }
                    },
                },
            }
        }
    } else if a[1] == "match"@ {
        if a.len() < 3 || a[2] != "movie"@ {
            Err("only 'match movie' supported"@)
        } else {
            match positional_spec(a.skip(3)) {
                None => Err("match movie requires <path>"@),
                Some(path) => Ok(
                    CommandsView::MatchMovie {
                        path,
                        tmdb_key: value_of_spec(a, "--tmdb-key"@),
                        language: match value_of_spec(a, "--language"@) {
                            Some(l) => l,
                            None => "de-DE"@,
                        },
                        dry_run: has_flag_spec(a, "--dry-run"@),
                        recursive: has_flag_spec(a, "--recursive"@),
                    },
                ),
            }
        }
    } else {
        Err("unknown subcommand"@)
    }
}

fn has_flag(args: &[String], name: &str) -> (r: bool)
    ensures
        r == has_flag_spec(arg_views(args@), name@),
{
    let mut i: usize = 0;
    while i < args.len()
        invariant
            i <= args.len(),
            forall|k: int| 0 <= k < i ==> args@[k]@ != name@,
        decreases args.len() - i,
    {
        if str_eq(args[i].as_str(), name) {
            assert(arg_views(args@)[i as int] == name@);
            return true;
        }
        i = i + 1;
    }
    assert forall|k: int| 0 <= k < arg_views(args@).len() implies arg_views(args@)[k] != name@ by {
        assert(arg_views(args@)[k] == args@[k]@);
    }
    false
}

fn value_of(args: &[String], name: &str) -> (r: Option<String>)
    ensures
        opt_str_view(r) == value_of_spec(arg_views(args@), name@),
{
    let ghost a = arg_views(args@);
    let mut i: usize = 0;
    while i < args.len() && args.len() - i > 1
        invariant
            i <= args.len(),
            a == arg_views(args@),
            value_of_spec(a, name@) == value_from(a, name@, i as int),
        decreases args.len() - i,
    {
        assert(a[i as int] == args@[i as int]@);
        if str_eq(args[i].as_str(), name) {
            assert(a[i + 1] == args@[i + 1]@);
            return Some(args[i + 1].clone());
        }
        i = i + 1;
    }
    None
}

fn positional_after(args: &[String], from: usize) -> (r: Option<String>)
    requires
        from <= args.len(),
    ensures
        opt_str_view(r) == positional_spec(arg_views(args@).skip(from as int)),
{
    let ghost a = arg_views(args@);
    let mut i: usize = from;
    while i < args.len()
        invariant
            from <= i,
            a == arg_views(args@),
            i <= args.len(),
            positional_spec(a.skip(from as int)) == positional_spec(a.skip(i as int)),
        decreases args.len() - i,
    {
        let ghost t = a.skip(i as int);
        assert(t[0] == args@[i as int]@);
        let arg = args[i].as_str();
        let dashes = dashes_prefix(arg);
        if dashes {
            let takes_value = str_eq(arg, "--tmdb-key") || str_eq(arg, "--language");
            if takes_value {
                if args.len() - i < 2 {
                    return None;
                }
                assert(t.skip(2) == a.skip(i + 2));
                i = i + 2;
            } else {
                assert(t.skip(1) == a.skip(i + 1));
                i = i + 1;
            }
            continue ;
        }
        return Some(args[i].clone());
    }
    assert(a.skip(i as int).len() == 0);
    None
}

/// Whether `s` starts with `--`.
fn dashes_prefix(s: &str) -> (r: bool)
    ensures
        r == starts_with_dashes(s@),
{
    let c = crate::text::chars_of(s);
    c.len() >= 2 && c[0] == '-' && c[1] == '-'
}

/// The value of an option is the argument right after its first occurrence
/// (among the occurrences that have an argument after them).
pub proof fn lemma_value_of_first(a: Seq<Seq<char>>, name: Seq<char>, i: int)
    requires
        0 <= i,
        i + 1 < a.len(),
        a[i] == name,
        forall|j: int| 0 <= j < i ==> a[j] != name,
    ensures
        value_of_spec(a, name) == Some(a[i + 1]),
{
    lemma_value_from_first(a, name, 0, i);
}

proof fn lemma_value_from_first(a: Seq<Seq<char>>, name: Seq<char>, k: int, i: int)
    requires
        0 <= k <= i,
        i + 1 < a.len(),
        a[i] == name,
        forall|j: int| k <= j < i ==> a[j] != name,
    ensures
        value_from(a, name, k) == Some(a[i + 1]),
    decreases i - k,
{
    if k < i {
        lemma_value_from_first(a, name, k + 1, i);
    }
}

/// Without an occurrence of an option that has an argument after it, the
/// option has no value.
pub proof fn lemma_value_of_absent(a: Seq<Seq<char>>, name: Seq<char>)
    requires
        forall|j: int| 0 <= j && j + 1 < a.len() ==> a[j] != name,
    ensures
        value_of_spec(a, name) is None,
{
    lemma_value_from_absent(a, name, 0);
}

proof fn lemma_value_from_absent(a: Seq<Seq<char>>, name: Seq<char>, k: int)
    requires
        0 <= k,
        forall|j: int| k <= j && j + 1 < a.len() ==> a[j] != name,
    ensures
        value_from(a, name, k) is None,
    decreases a.len() - k,
{
    if k + 1 < a.len() {
        lemma_value_from_absent(a, name, k + 1);
    }
}

/// The movie database key of `plan`, `apply` and `match movie` is the
/// argument after the first `--tmdb-key` that has one.
pub proof fn lemma_tmdb_key_given(a: Seq<Seq<char>>, i: int)
    requires
        0 <= i,
        i + 1 < a.len(),
        a[i] == "--tmdb-key"@,
        forall|j: int| 0 <= j < i ==> a[j] != "--tmdb-key"@,
    ensures
        parse_args_spec(a) matches Ok(CommandsView::Plan(p)) ==> p.tmdb_key == Some(a[i + 1]),
        parse_args_spec(a) matches Ok(CommandsView::Apply(p)) ==> p.tmdb_key == Some(a[i + 1]),
        parse_args_spec(a) matches Ok(CommandsView::MatchMovie { tmdb_key, .. }) ==> tmdb_key
            == Some(a[i + 1]),
{
    lemma_value_of_first(a, "--tmdb-key"@, i);
}

/// Without a `--tmdb-key` followed by an argument, no command has a key.
pub proof fn lemma_tmdb_key_absent(a: Seq<Seq<char>>)
    requires
        forall|j: int| 0 <= j && j + 1 < a.len() ==> a[j] != "--tmdb-key"@,
    ensures
        parse_args_spec(a) matches Ok(CommandsView::Plan(p)) ==> p.tmdb_key is None,
        parse_args_spec(a) matches Ok(CommandsView::Apply(p)) ==> p.tmdb_key is None,
        parse_args_spec(a) matches Ok(CommandsView::MatchMovie { tmdb_key, .. }) ==> tmdb_key is None,
{
    lemma_value_of_absent(a, "--tmdb-key"@);
}

/// The template of `plan` and `apply` is the argument after the first
/// `--format`, and their output directory the argument after the first
/// `--output`; the language of `match movie` is the argument after the first
/// `--language`.
pub proof fn lemma_option_values(a: Seq<Seq<char>>, name: Seq<char>, i: int)
    requires
        0 <= i,
        i + 1 < a.len(),
        a[i] == name,
        forall|j: int| 0 <= j < i ==> a[j] != name,
    ensures
        name == "--format"@ ==> (parse_args_spec(a) matches Ok(CommandsView::Plan(p)) ==> p.format
            == a[i + 1]),
        name == "--format"@ ==> (parse_args_spec(a) matches Ok(CommandsView::Apply(p))
            ==> p.format == a[i + 1]),
        name == "--output"@ ==> (parse_args_spec(a) matches Ok(CommandsView::Plan(p)) ==> p.output
            == Some(a[i + 1])),
        name == "--output"@ ==> (parse_args_spec(a) matches Ok(CommandsView::Apply(p))
            ==> p.output == Some(a[i + 1])),
        name == "--language"@ ==> (parse_args_spec(a) matches Ok(
            CommandsView::MatchMovie { language, .. },
        ) ==> language == a[i + 1]),
{
    lemma_value_of_first(a, name, i);
}

/// Reads the command line; `args[0]` is the program name.
pub fn parse_args(args: &[String]) -> (r: Result<Commands, String>)
    ensures
        match (r, parse_args_spec(arg_views(args@))) {
            (Ok(c), Ok(m)) => c@ == m,
            (Err(e), Err(m)) => e@ == m,
            _ => false,
        },
{
    let ghost a = arg_views(args@);
    if args.len() >= 2 {
        assert(a[1] == args@[1]@);
    }
    if args.len() >= 3 {
        assert(a[2] == args@[2]@);
    }
    if args.len() < 2 || str_eq(args[1].as_str(), "--help") || str_eq(args[1].as_str(), "-h") {
        return Ok(Commands::Help);
    }
    if str_eq(args[1].as_str(), "scan") {
        if args.len() < 3 {
            return Err("scan requires <path>".to_owned());
        }
        return Ok(
            Commands::Scan { path: args[2].clone(), recursive: has_flag(args, "--recursive") },
        );
    }
    let is_plan = str_eq(args[1].as_str(), "plan");
    if is_plan || str_eq(args[1].as_str(), "apply") {
        if args.len() < 3 {
            return Err("plan/apply requires <path>".to_owned());
        }
        let format = match value_of(args, "--format") {
            Some(f) => f,
            None => {
                return Err("--format required".to_owned());
            },
        };
        let action_arg = value_of(args, "--action");
        let action_name: &str = match &action_arg {
            Some(v) => v.as_str(),
            None => "rename",
        };
        let action = if str_eq(action_name, "rename") {
            Action::Rename
        } else if str_eq(action_name, "move") {
            Action::Move
        } else if str_eq(action_name, "copy") {
            Action::Copy
        } else {
            return Err("invalid --action".to_owned());
        };
        let cmd = PlanArgs {
            path: args[2].clone(),
            recursive: has_flag(args, "--recursive"),
            format,
            action,
            output: value_of(args, "--output"),
            dry_run: has_flag(args, "--dry-run"),
            db: value_of(args, "--db"),
            tmdb_key: value_of(args, "--tmdb-key"),
        };
        if is_plan {
            return Ok(Commands::Plan(cmd));
        } else {
            return Ok(Commands::Apply(cmd));
        }
    }
    if str_eq(args[1].as_str(), "match") {
        if args.len() < 3 || !str_eq(args[2].as_str(), "movie") {
            return Err("only 'match movie' supported".to_owned());
        }
        let path = match positional_after(args, 3) {
            Some(p) => p,
            None => {
                return Err("match movie requires <path>".to_owned());
            },
        };
        let language = match value_of(args, "--language") {
            Some(l) => l,
            None => "de-DE".to_owned(),
        };
        return Ok(
            Commands::MatchMovie {
                path,
                tmdb_key: value_of(args, "--tmdb-key"),
                language,
                dry_run: has_flag(args, "--dry-run"),
                recursive: has_flag(args, "--recursive"),
            },
        );
    }
    Err("unknown subcommand".to_owned())
}

/// The usage text.
pub open spec fn help_text_spec() -> Seq<char> {
    "mybot usage:\n  mybot scan <path> [--recursive]\n  mybot plan <path> [--recursive] --format \"<template>\" [--action rename|move|copy] [--output <dir>] [--dry-run] [--db tmdb --tmdb-key <key>]\n  mybot apply <path> [--recursive] --format \"<template>\" [--action rename|move|copy] [--output <dir>] [--dry-run] [--db tmdb --tmdb-key <key>]\n  mybot match movie <path> --tmdb-key <key> [--language de-DE] [--dry-run]"@
}

pub fn help_text() -> (r: &'static str)
    ensures
        r@ == help_text_spec(),
{
    "mybot usage:\n  mybot scan <path> [--recursive]\n  mybot plan <path> [--recursive] --format \"<template>\" [--action rename|move|copy] [--output <dir>] [--dry-run] [--db tmdb --tmdb-key <key>]\n  mybot apply <path> [--recursive] --format \"<template>\" [--action rename|move|copy] [--output <dir>] [--dry-run] [--db tmdb --tmdb-key <key>]\n  mybot match movie <path> --tmdb-key <key> [--language de-DE] [--dry-run]"
}

} // verus!
