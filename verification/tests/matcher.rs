use mybot::matcher::{
    extract_json_string, json_number_text, read_search_response, required_tmdb_key, search_params,
    url_encode, MovieQuery,
};

fn query() -> MovieQuery {
    MovieQuery { title: "The Matrix".into(), year: Some(1999), language: "de-DE".into() }
}

const OK: &str = r#"{"page":1,"results":[{"adult":false,"popularity":85.5,"release_date":"1999-03-30","title":"The Matrix"}]}"#;

#[test]
fn search_params_with_and_without_year() {
    let p = search_params(&query());
    assert_eq!(
        p,
        vec![
            ("query".to_string(), "The Matrix".to_string()),
            ("language".to_string(), "de-DE".to_string()),
            ("year".to_string(), "1999".to_string()),
        ]
    );
    let q = MovieQuery { title: "X".into(), year: None, language: "en-US".into() };
    let p = search_params(&q);
    assert_eq!(p.len(), 2);
    assert!(!p.iter().any(|(k, _)| k == "year"));
    assert!(p.iter().any(|(k, v)| k == "language" && v == "en-US"));
}

#[test]
fn url_encoding() {
    assert_eq!(url_encode("The Matrix"), "The+Matrix");
    assert_eq!(url_encode("a-b_c.d~e"), "a-b_c.d~e");
    assert_eq!(url_encode("a&b=c/\u{fc}"), "a%26b%3Dc%2F%C3%BC");
}

#[test]
fn json_strings() {
    assert_eq!(extract_json_string(OK, "title").as_deref(), Some("The Matrix"));
    assert_eq!(extract_json_string(OK, "release_date").as_deref(), Some("1999-03-30"));
    assert_eq!(extract_json_string(OK, "missing"), None);
    assert_eq!(extract_json_string(r#"{"title": "open"#, "title"), None);
    assert_eq!(extract_json_string(r#"{"title": 5}"#, "title"), None);
}

#[test]
fn json_numbers() {
    assert_eq!(json_number_text(OK, "popularity").as_deref(), Some("85.5"));
    assert_eq!(json_number_text(r#"{"popularity":   12}"#, "popularity").as_deref(), Some("12"));
    assert_eq!(json_number_text(r#"{"popularity": x}"#, "popularity").as_deref(), Some(""));
    assert_eq!(json_number_text(r#"{"popularity" 1}"#, "popularity"), None);
    assert_eq!(json_number_text(OK, "votes"), None);
}

#[test]
fn search_response_hit() {
    let h = read_search_response(OK, &query()).unwrap();
    assert_eq!(h.title, "The Matrix");
    assert_eq!(h.year, Some(1999));
    assert!(h.title_matches);
    assert!(h.year_matches);
}

#[test]
fn search_response_no_results() {
    assert!(read_search_response(r#"{"page":1,"results":[],"total_results":0}"#, &query()).is_none());
}

#[test]
fn search_response_year_miss() {
    let payload = r#"{"results":[{"release_date":"2003-05-15","title":"the matrix reloaded"}]}"#;
    let h = read_search_response(payload, &query()).unwrap();
    assert_eq!(h.year, Some(2003));
    assert!(!h.year_matches);
    assert!(!h.title_matches);
    let payload = r#"{"results":[{"release_date":"","title":"THE MATRIX"}]}"#;
    let h = read_search_response(payload, &query()).unwrap();
    assert_eq!(h.year, None);
    assert!(h.title_matches);
    assert!(!h.year_matches);
}

#[test]
fn t9() {
    assert!(required_tmdb_key(&Some("abc".into()), None).is_ok());
}

#[test]
fn key_from_environment_or_missing() {
    assert_eq!(required_tmdb_key(&None, Some("x".into())).unwrap(), "x");
    assert_eq!(required_tmdb_key(&Some("a".into()), Some("x".into())).unwrap(), "a");
    assert_eq!(required_tmdb_key(&None, None).unwrap_err(), "TMDB key missing");
}

fn decode(s: &str) -> Vec<u8> {
    let b = s.as_bytes();
    let mut out = Vec::new();
    let mut i = 0;
    while i < b.len() {
        if b[i] == b'+' {
            out.push(b' ');
            i += 1;
        } else if b[i] == b'%' && i + 2 < b.len() {
            let hex = std::str::from_utf8(&b[i + 1..i + 3]).unwrap();
            out.push(u8::from_str_radix(hex, 16).unwrap());
            i += 3;
        } else {
            out.push(b[i]);
            i += 1;
        }
    }
    out
}

#[test]
fn url_encoding_decodes_back() {
    assert_eq!(url_encode("a+b"), "a%2Bb");
    assert_eq!(url_encode("\u{e9}"), "%C3%A9");
    for s in ["The Matrix", "a&b", "a+b", "\u{e9}t\u{e9} 100%", "~x_y.z-", "", "Der Teufel / tr\u{e4}gt"] {
        let e = url_encode(s);
        assert!(e.chars().all(|c| c.is_ascii_alphanumeric() || "-_.~+%".contains(c)));
        assert_eq!(decode(&e), s.as_bytes());
    }
}
