use mybot::cli::{help_text, parse_args, Action, Commands};

#[test]
fn match_movie_allows_flags_before_path() {
    let args = vec![
        "mybot".to_string(),
        "match".to_string(),
        "movie".to_string(),
        "--tmdb-key".to_string(),
        "abc".to_string(),
        "/tmp/Movie (2025).mkv".to_string(),
    ];
    let cmd = parse_args(&args).expect("parse");
    match cmd {
        Commands::MatchMovie { path, .. } => assert_eq!(path, "/tmp/Movie (2025).mkv".to_string()),
        _ => panic!("expected match movie"),
    }
}

fn argv(items: &[&str]) -> Vec<String> {
    items.iter().map(|s| s.to_string()).collect()
}

#[test]
fn help_cases() {
    assert!(matches!(parse_args(&argv(&["mybot"])), Ok(Commands::Help)));
    assert!(matches!(parse_args(&argv(&["mybot", "-h", "scan"])), Ok(Commands::Help)));
    assert!(matches!(parse_args(&argv(&["mybot", "--help"])), Ok(Commands::Help)));
    assert!(help_text().starts_with("mybot usage:\n  mybot scan <path> [--recursive]"));
}

#[test]
fn scan_cases() {
    assert_eq!(parse_args(&argv(&["mybot", "scan"])).unwrap_err(), "scan requires <path>");
    match parse_args(&argv(&["mybot", "scan", "./media", "--recursive"])).unwrap() {
        Commands::Scan { path, recursive } => {
            assert_eq!(path, "./media");
            assert!(recursive);
        }
        _ => panic!("expected scan"),
    }
}

#[test]
fn plan_cases() {
    assert_eq!(parse_args(&argv(&["mybot", "plan"])).unwrap_err(), "plan/apply requires <path>");
    assert_eq!(parse_args(&argv(&["mybot", "plan", "."])).unwrap_err(), "--format required");
    assert_eq!(
        parse_args(&argv(&["mybot", "plan", ".", "--format", "{title}", "--action", "delete"])).unwrap_err(),
        "invalid --action"
    );
    match parse_args(&argv(&["mybot", "plan", "./m", "--format", "{title}.{ext}"])).unwrap() {
        Commands::Plan(a) => {
            assert_eq!(a.path, "./m");
            assert_eq!(a.format, "{title}.{ext}");
            assert_eq!(a.action, Action::Rename);
            assert!(!a.recursive && !a.dry_run);
            assert_eq!(a.output, None);
            assert_eq!(a.db, None);
            assert_eq!(a.tmdb_key, None);
        }
        _ => panic!("expected plan"),
    }
    let args = argv(&[
        "mybot", "apply", "./m", "--recursive", "--format", "F", "--action", "copy", "--output", "/out",
        "--dry-run", "--db", "tmdb", "--tmdb-key", "k",
    ]);
    match parse_args(&args).unwrap() {
        Commands::Apply(a) => {
            assert_eq!(a.action, Action::Copy);
            assert!(a.recursive && a.dry_run);
            assert_eq!(a.output.as_deref(), Some("/out"));
            assert_eq!(a.db.as_deref(), Some("tmdb"));
            assert_eq!(a.tmdb_key.as_deref(), Some("k"));
        }
        _ => panic!("expected apply"),
    }
    match parse_args(&argv(&["mybot", "plan", "x", "--format", "F", "--action", "move"])).unwrap() {
        Commands::Plan(a) => assert_eq!(a.action, Action::Move),
        _ => panic!("expected plan"),
    }
}

#[test]
fn match_cases() {
    assert_eq!(parse_args(&argv(&["mybot", "match"])).unwrap_err(), "only 'match movie' supported");
    assert_eq!(parse_args(&argv(&["mybot", "match", "tv", "x"])).unwrap_err(), "only 'match movie' supported");
    assert_eq!(
        parse_args(&argv(&["mybot", "match", "movie", "--tmdb-key", "k"])).unwrap_err(),
        "match movie requires <path>"
    );
    match parse_args(&argv(&["mybot", "match", "movie", "--recursive", "--language", "en-US", "dir"])).unwrap() {
        Commands::MatchMovie { path, tmdb_key, language, dry_run, recursive } => {
            assert_eq!(path, "dir");
            assert_eq!(tmdb_key, None);
            assert_eq!(language, "en-US");
            assert!(recursive && !dry_run);
        }
        _ => panic!("expected match movie"),
    }
    match parse_args(&argv(&["mybot", "match", "movie", "dir"])).unwrap() {
        Commands::MatchMovie { language, .. } => assert_eq!(language, "de-DE"),
        _ => panic!("expected match movie"),
    }
}

#[test]
fn unknown_subcommand() {
    assert_eq!(parse_args(&argv(&["mybot", "frobnicate"])).unwrap_err(), "unknown subcommand");
}
