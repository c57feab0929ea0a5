use manga_update::config::{parse_config, render_config_bytes};
use manga_update::series::{ConfigError, TrackedSeries};

fn series(name: &str, short_name: &str, url: &str, current_chapter: u32) -> TrackedSeries {
    TrackedSeries {
        name: name.as_bytes().to_vec(),
        short_name: short_name.as_bytes().to_vec(),
        url: url.as_bytes().to_vec(),
        current_chapter,
    }
}

#[test]
fn parses_simple_config() {
    let text = br#"[
        {"name": "One Piece", "short_name": "op", "url": "https://example.com/op/[CHAPTER]", "current_chapter": 1044},
        {"name": "Berserk", "short_name": "bsk", "url": "https://example.com/bsk/[CHAPTER]", "current_chapter": 364}
    ]"#;
    let cfg = parse_config(&text.to_vec()).expect("config should parse");
    assert_eq!(cfg.len(), 2);
    assert_eq!(cfg[0].name, b"One Piece".to_vec());
    assert_eq!(cfg[0].short_name, b"op".to_vec());
    assert_eq!(cfg[0].url, b"https://example.com/op/[CHAPTER]".to_vec());
    assert_eq!(cfg[0].current_chapter, 1044);
    assert_eq!(cfg[1].name, b"Berserk".to_vec());
    assert_eq!(cfg[1].short_name, b"bsk".to_vec());
    assert_eq!(cfg[1].current_chapter, 364);
}

#[test]
fn parses_empty_config() {
    let cfg = parse_config(&b"[]".to_vec()).expect("empty array should parse");
    assert_eq!(cfg.len(), 0);
    let cfg = parse_config(&b"  [ ]  ".to_vec()).expect("whitespace should be fine");
    assert_eq!(cfg.len(), 0);
}

#[test]
fn parses_members_in_any_order() {
    let text = br#"[{"current_chapter": 7, "url": "u[CHAPTER]", "short_name": "s", "name": "n"}]"#;
    let cfg = parse_config(&text.to_vec()).expect("reordered members should parse");
    assert_eq!(cfg.len(), 1);
    assert_eq!(cfg[0].name, b"n".to_vec());
    assert_eq!(cfg[0].short_name, b"s".to_vec());
    assert_eq!(cfg[0].url, b"u[CHAPTER]".to_vec());
    assert_eq!(cfg[0].current_chapter, 7);
}

#[test]
fn parses_string_escapes() {
    let text = br#"[{"name": "a\"b\\c", "short_name": "s", "url": "u", "current_chapter": 0}]"#;
    let cfg = parse_config(&text.to_vec()).expect("escapes should parse");
    assert_eq!(cfg[0].name, b"a\"b\\c".to_vec());
}

#[test]
fn rejects_truncated_config() {
    let text = br#"[{"name": "One Piece", "short_name": "op""#;
    let err = parse_config(&text.to_vec()).expect_err("truncated content must be rejected");
    assert_eq!(err, ConfigError::Parse);
}

#[test]
fn error_messages_name_the_failure() {
    assert_eq!(ConfigError::Read.message(), "Unable to read config file");
    assert_eq!(ConfigError::Parse.message(), "Unable to parse config file");
}

#[test]
fn rejects_non_array_content() {
    assert!(parse_config(&b"hello".to_vec()).is_err());
    assert!(parse_config(&b"".to_vec()).is_err());
    assert!(parse_config(&b"{}".to_vec()).is_err());
    assert!(parse_config(&b"[]]".to_vec()).is_err());
}

#[test]
fn rejects_missing_member() {
    let text = br#"[{"name": "n", "short_name": "s", "url": "u"}]"#;
    assert!(parse_config(&text.to_vec()).is_err());
}

#[test]
fn rejects_repeated_member() {
    let text = br#"[{"name": "n", "name": "m", "short_name": "s", "url": "u", "current_chapter": 1}]"#;
    assert!(parse_config(&text.to_vec()).is_err());
}

#[test]
fn rejects_unknown_member() {
    let text = br#"[{"name": "n", "short_name": "s", "url": "u", "current_chapter": 1, "extra": 2}]"#;
    assert!(parse_config(&text.to_vec()).is_err());
}

#[test]
fn rejects_wrongly_typed_chapter() {
    let text = br#"[{"name": "n", "short_name": "s", "url": "u", "current_chapter": "1"}]"#;
    assert!(parse_config(&text.to_vec()).is_err());
}

#[test]
fn chapter_bounds() {
    let ok = br#"[{"name": "n", "short_name": "s", "url": "u", "current_chapter": 4294967295}]"#;
    let cfg = parse_config(&ok.to_vec()).expect("u32::MAX should parse");
    assert_eq!(cfg[0].current_chapter, u32::MAX);
    let too_big = br#"[{"name": "n", "short_name": "s", "url": "u", "current_chapter": 4294967296}]"#;
    assert!(parse_config(&too_big.to_vec()).is_err());
}

#[test]
fn renders_canonical_form() {
    let cfg = vec![series("n", "s", "u[CHAPTER]", 3)];
    let out = render_config_bytes(&cfg);
    assert_eq!(
        out,
        br#"[{"name":"n","short_name":"s","url":"u[CHAPTER]","current_chapter":3}]"#.to_vec()
    );
}

#[test]
fn renders_escaped_strings() {
    let cfg = vec![series("a\"b\\c", "s", "u", 0)];
    let out = render_config_bytes(&cfg);
    assert_eq!(
        out,
        br#"[{"name":"a\"b\\c","short_name":"s","url":"u","current_chapter":0}]"#.to_vec()
    );
}

#[test]
fn round_trip_preserves_every_field() {
    let cfg = vec![
        series("One Piece", "op", "https://example.com/op/[CHAPTER]", 1044),
        series("quote \" and slash \\", "qs", "https://example.com/[CHAPTER]/x", 0),
        series("Berserk", "bsk", "https://example.com/bsk/[CHAPTER]", u32::MAX),
    ];
    let rendered = render_config_bytes(&cfg);
    let back = parse_config(&rendered).expect("a rendered config must parse");
    assert_eq!(back.len(), cfg.len());
    for (a, b) in cfg.iter().zip(back.iter()) {
        assert_eq!(a.name, b.name);
        assert_eq!(a.short_name, b.short_name);
        assert_eq!(a.url, b.url);
        assert_eq!(a.current_chapter, b.current_chapter);
    }
}

#[test]
fn round_trip_of_empty_config() {
    let cfg: Vec<TrackedSeries> = Vec::new();
    let rendered = render_config_bytes(&cfg);
    assert_eq!(rendered, b"[]".to_vec());
    let back = parse_config(&rendered).expect("the empty rendering must parse");
    assert_eq!(back.len(), 0);
}
