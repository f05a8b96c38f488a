use mybot::parser::{media_from_file_name, parse_media, try_parse_media, MediaKind, ParsedMedia};

fn p(name: &str) -> ParsedMedia {
    parse_media(name)
}

#[test]
fn parser_30_cases() {
    let cases = vec![
        ("Der.Teufel.traegt.Prada.2006.German.AC3.DL.1080p.BluRay.x265-FuN.mkv", MediaKind::Movie),
        ("Movie.Title.1999.1080p.mkv", MediaKind::Movie),
        ("Movie_Title_2010.mp4", MediaKind::Movie),
        ("A.B.C.2023.avi", MediaKind::Movie),
        ("No.Year.Here.mkv", MediaKind::Unknown),
        ("Show.S03E09.mkv", MediaKind::Episode),
        ("Show.S3E090.mkv", MediaKind::Episode),
        ("Show.3x90.mkv", MediaKind::Episode),
        ("Show_12x3.mp4", MediaKind::Episode),
        ("abcS01E01xyz.mkv", MediaKind::Episode),
        ("Title.1980.mkv", MediaKind::Movie),
        ("Title.2100.mkv", MediaKind::Movie),
        ("Title.1899.mkv", MediaKind::Unknown),
        ("s01e01.mkv", MediaKind::Episode),
        ("S01E01.mkv", MediaKind::Episode),
        ("random.txt", MediaKind::Unknown),
        ("Film-2001-final.mov", MediaKind::Movie),
        ("Serie-1x2-final.mov", MediaKind::Episode),
        ("Serie-S10E02-final.mov", MediaKind::Episode),
        ("Show.S00E01.mkv", MediaKind::Episode),
        ("Show.0x1.mkv", MediaKind::Episode),
        ("Movie.2000.Special.Edition.mkv", MediaKind::Movie),
        ("Movie.2000.2001.mkv", MediaKind::Movie),
        ("Just.Name", MediaKind::Unknown),
        (".hiddenfile", MediaKind::Unknown),
        ("Edge.S1E1.mkv", MediaKind::Episode),
        ("Edge.1x001.mkv", MediaKind::Episode),
        ("Edge.2005", MediaKind::Movie),
        ("Edge_2015_test.flac", MediaKind::Movie),
        ("no_ext_S02E03", MediaKind::Episode),
    ];
    for (n, k) in cases {
        assert_eq!(p(n).kind, k, "{n}");
    }
    let m = p("Der.Teufel.traegt.Prada.2006.German.AC3.DL.1080p.BluRay.x265-FuN.mkv");
    assert_eq!(m.title_guess.as_deref(), Some("Der Teufel traegt Prada"));
    assert_eq!(m.year_guess, Some(2006));
    let e = p("Show.S03E090.mkv");
    assert_eq!(e.season, Some(3));
    assert_eq!(e.episode, Some(90));
}

#[test]
fn reads_the_last_component_of_a_path() {
    let m = parse_media("/media/movies/Film.2001.mkv");
    assert_eq!(m.kind, MediaKind::Movie);
    assert_eq!(m.title_guess.as_deref(), Some("Film"));
    assert_eq!(m.year_guess, Some(2001));
    assert_eq!(m.ext, "mkv");
}

#[test]
fn episode_fields() {
    let m = media_from_file_name("The_Show-S02E10.720p.mkv").unwrap();
    assert_eq!(m.kind, MediaKind::Episode);
    assert_eq!(m.title_guess.as_deref(), Some("The Show"));
    assert_eq!(m.season, Some(2));
    assert_eq!(m.episode, Some(10));
    assert_eq!(m.year_guess, None);
    assert_eq!(m.ext, "mkv");
}

#[test]
fn episode_marker_at_the_start_has_no_title() {
    let m = p("S01E01.mkv");
    assert_eq!(m.kind, MediaKind::Episode);
    assert_eq!(m.title_guess, None);
}

#[test]
fn season_digits_are_capped() {
    assert_eq!(p("Show.S123E1.mkv").kind, MediaKind::Unknown);
    let m = p("Show.12x3456.mkv");
    assert_eq!(m.kind, MediaKind::Episode);
    assert_eq!(m.season, Some(12));
    assert_eq!(m.episode, Some(345));
}

#[test]
fn year_must_stand_alone() {
    assert_eq!(p("Title.19999.mkv").kind, MediaKind::Unknown);
    assert_eq!(p("Title.12345.mkv").kind, MediaKind::Unknown);
    let m = p("Movie.2000.2001.mkv");
    assert_eq!(m.year_guess, Some(2000));
    assert_eq!(m.title_guess.as_deref(), Some("Movie"));
}

#[test]
fn extension_rules() {
    assert_eq!(p("archive.tar.gz").ext, "gz");
    let m = p("file.mp4v2");
    assert_eq!(m.ext, "");
    assert_eq!(p("name.abcdef").ext, "");
    assert_eq!(p("Movie.1999.").ext, "");
    assert_eq!(p("Movie.1999.").kind, MediaKind::Movie);
}

#[test]
fn unknown_has_only_an_extension() {
    let m = p("No.Year.Here.mkv");
    assert_eq!(m.kind, MediaKind::Unknown);
    assert_eq!(m.title_guess, None);
    assert_eq!(m.year_guess, None);
    assert_eq!(m.season, None);
    assert_eq!(m.episode, None);
    assert_eq!(m.ext, "mkv");
}

#[test]
fn unicode_whitespace_is_collapsed() {
    let m = p("Movie\u{00A0}\u{2003}Title.1999.mkv");
    assert_eq!(m.title_guess.as_deref(), Some("Movie Title"));
}

#[test]
fn year_search_that_would_split_a_character() {
    assert!(try_parse_media("abc\u{e9}.mkv").is_none());
    assert!(media_from_file_name("abc\u{e9}.mkv").is_none());
    assert!(try_parse_media("\u{e9}t\u{e9}.2003.mkv").is_none());
    let m = try_parse_media("\u{e9}t.2003.mkv").unwrap();
    assert_eq!(m.kind, MediaKind::Movie);
    assert_eq!(m.title_guess.as_deref(), Some("\u{e9}t"));
}
