use mybot::cli::Action;
use mybot::parser::{parse_media, MediaKind};
use mybot::planner::{first_step, target_for, target_name, with_match, FileStep, PlanOptions, PlanResult};

fn opts<'a>(format: &'a str, output: Option<&'a str>, use_tmdb: bool, key: Option<&'a str>) -> PlanOptions<'a> {
    PlanOptions { format, action: Action::Rename, output, use_tmdb, tmdb_key: key, language: "de-DE" }
}

#[test]
fn unknown_files_are_skipped() {
    let m = parse_media("notes.txt");
    assert!(matches!(first_step(m, &opts("{title}", None, true, Some("k")), true), FileStep::SkipUnknown));
}

#[test]
fn movies_are_looked_up_only_with_everything_at_hand() {
    let o = opts("{title}", None, true, Some("k"));
    match first_step(parse_media("Movie.Title.1999.mkv"), &o, true) {
        FileStep::Lookup { media, query, key } => {
            assert_eq!(media.kind, MediaKind::Movie);
            assert_eq!(query.title, "Movie Title");
            assert_eq!(query.year, Some(1999));
            assert_eq!(query.language, "de-DE");
            assert_eq!(key, "k");
        }
        _ => panic!("expected lookup"),
    }
    assert!(matches!(first_step(parse_media("Movie.Title.1999.mkv"), &o, false), FileStep::Render(_)));
    let no_key = opts("{title}", None, true, None);
    assert!(matches!(first_step(parse_media("Movie.Title.1999.mkv"), &no_key, true), FileStep::Render(_)));
    let off = opts("{title}", None, false, Some("k"));
    assert!(matches!(first_step(parse_media("Movie.Title.1999.mkv"), &off, true), FileStep::Render(_)));
    assert!(matches!(first_step(parse_media("Show.S01E02.mkv"), &o, true), FileStep::Render(_)));
    assert!(matches!(first_step(parse_media("1999.mkv"), &o, true), FileStep::Render(_)));
}

#[test]
fn a_match_replaces_title_and_year() {
    let m = with_match(parse_media("Matrix.1999.mkv"), "The Matrix".to_string(), None);
    assert_eq!(m.title_guess.as_deref(), Some("The Matrix"));
    assert_eq!(m.year_guess, None);
    assert_eq!(m.kind, MediaKind::Movie);
    assert_eq!(m.ext, "mkv");
}

#[test]
fn target_names() {
    assert_eq!(target_name(""), "untitled");
    assert_eq!(target_name("AC/DC Live"), "AC_DC Live");
}

#[test]
fn targets() {
    let m = parse_media("/in/Movie.2000.mkv");
    assert_eq!(target_for("/in/Movie.2000.mkv", &m, &opts("{title} ({year}).{ext}", Some("/out"), false, None)), "/out/Movie (2000).mkv");
    assert_eq!(target_for("/in/Movie.2000.mkv", &m, &opts("{title} ({year}).{ext}", None, false, None)), "/in/Movie (2000).mkv");
    let bare = parse_media("Movie.2000.mkv");
    assert_eq!(target_for("Movie.2000.mkv", &bare, &opts("{title} ({year}).{ext}", None, false, None)), "Movie (2000).mkv");
    assert_eq!(target_for("/in/Movie.2000.mkv", &m, &opts("{season}", Some("/out/"), false, None)), "/out/untitled");
}

#[test]
fn recording() {
    let mut r = PlanResult::new();
    r.record_unknown("/in/notes.txt");
    r.record_target("/in/a.mkv", "/in/A.mkv".to_string(), true, Action::Rename);
    r.record_target("/in/b.mkv", "/in//b.mkv".to_string(), true, Action::Copy);
    r.record_target("/in/c.mkv", "/in/C.mkv".to_string(), false, Action::Move);
    assert_eq!(r.skipped_unknown, vec!["/in/notes.txt".to_string()]);
    assert_eq!(r.skipped_conflicts, vec!["/in/A.mkv".to_string()]);
    assert_eq!(r.ops.len(), 2);
    assert_eq!(r.ops[0].from, "/in/b.mkv");
    assert_eq!(r.ops[0].to, "/in//b.mkv");
    assert_eq!(r.ops[0].action, Action::Copy);
    assert_eq!(r.ops[1].to, "/in/C.mkv");
    assert_eq!(r.ops[1].action, Action::Move);
}

#[test]
fn movie_rename_scenario() {
    let file = "/tmp/dir/Der.Teufel.traegt.Prada.2006.German.AC3.DL.1080p.BluRay.x265-FuN.mkv";
    let o = opts("{title} ({year}).{ext}", None, false, None);
    let media = match first_step(parse_media(file), &o, true) {
        FileStep::Render(m) => m,
        _ => panic!("expected render"),
    };
    let to = target_for(file, &media, &o);
    assert_eq!(to, "/tmp/dir/Der Teufel traegt Prada (2006).mkv");
    let mut r = PlanResult::default();
    r.record_target(file, to, false, o.action);
    assert_eq!(r.ops.len(), 1);
    assert_eq!(r.ops[0].action, Action::Rename);
    assert!(r.skipped_unknown.is_empty() && r.skipped_conflicts.is_empty());
}

#[test]
fn bare_file_names_stay_bare() {
    let m = parse_media("x.1999.mkv");
    assert_eq!(m.title_guess.as_deref(), Some("x"));
    assert_eq!(target_for("x.1999.mkv", &m, &opts("{title}.{ext}", None, false, None)), "x.mkv");
}
