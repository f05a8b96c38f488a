use mybot::parser::{MediaKind, ParsedMedia};
use mybot::template::{render_template, template_fits};

fn media() -> ParsedMedia {
    ParsedMedia {
        kind: MediaKind::Episode,
        title_guess: Some("My Show".into()),
        year_guess: Some(2024),
        season: Some(3),
        episode: Some(9),
        ext: "mkv".into(),
    }
}

#[test]
fn template_15_cases() {
    let m = media();
    let cases = vec![
        ("{title}", "My Show"),
        ("{title} ({year})", "My Show (2024)"),
        ("S{season:02}E{episode:02}", "S03E09"),
        ("{title}.S{season}E{episode}", "My Show.S3E9"),
        ("{title}.{ext}", "My Show.mkv"),
        ("  {title}   {year} ", "My Show 2024"),
        ("{title}-{season:03}", "My Show-003"),
        ("{title}-{episode:04}", "My Show-0009"),
        ("{title} {season}", "My Show 3"),
        ("{title} {episode}", "My Show 9"),
        ("{title} {season:0}", "My Show 3"),
        ("{title} {year} {ext}", "My Show 2024 mkv"),
        ("{title} S{season:02} E{episode:02}", "My Show S03 E09"),
        ("{title}-{season:02}x{episode:02}", "My Show-03x09"),
        ("{title}-{year}-{ext}", "My Show-2024-mkv"),
    ];
    for (fmt, expected) in cases {
        assert_eq!(render_template(fmt, &m), expected);
    }

    let mut missing = media();
    missing.year_guess = None;
    missing.season = None;
    missing.episode = None;
    assert_eq!(render_template("{title} {year}", &missing), "My Show");
    assert_eq!(render_template("S{season:02}E{episode:02}", &missing), "SE");
}

#[test]
fn output_whitespace_is_clean() {
    let m = media();
    assert_eq!(render_template(" \t{title}\n\n{ext}  ", &m), "My Show mkv");
    assert_eq!(render_template("a   b", &m), "a b");
}

#[test]
fn literal_template_ignores_media() {
    let mut other = media();
    other.title_guess = None;
    assert_eq!(render_template("  plain   name ", &media()), "plain name");
    assert_eq!(render_template("  plain   name ", &other), "plain name");
}

#[test]
fn replacements_apply_in_order() {
    let mut m = media();
    m.title_guess = Some("X {year}".into());
    assert_eq!(render_template("{title}", &m), "X 2024");
}

#[test]
fn padded_width_edge_cases() {
    let m = media();
    assert_eq!(render_template("{season:+3}", &m), "003");
    assert_eq!(render_template("{season:abc}", &m), "3");
    assert_eq!(render_template("{season:{season:02}", &m), "03");
    assert_eq!(render_template("{season:02", &m), "{season:02");
    assert_eq!(render_template("{season:02}{season}", &m), "033");
}

#[test]
fn width_limit() {
    let m = media();
    assert!(template_fits("{season:65535}", &m));
    assert!(!template_fits("{season:65536}", &m));
    let mut missing = media();
    missing.season = None;
    assert!(template_fits("{season:65536}", &missing));
    assert_eq!(render_template("{season:65536}", &missing), "");
}
