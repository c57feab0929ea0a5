use manga_update::probe::{
    collect_matches, decimal_bytes, next_chapter_url, plan_probes, render_report, replace_all,
};
use manga_update::series::{bytes_eq, copy_bytes, ProbeTarget, TrackedSeries};

fn series(name: &str, short_name: &str, url: &str, current_chapter: u32) -> TrackedSeries {
    TrackedSeries {
        name: name.as_bytes().to_vec(),
        short_name: short_name.as_bytes().to_vec(),
        url: url.as_bytes().to_vec(),
        current_chapter,
    }
}

#[test]
fn decimal_digits_are_exact() {
    assert_eq!(decimal_bytes(0), b"0".to_vec());
    assert_eq!(decimal_bytes(7), b"7".to_vec());
    assert_eq!(decimal_bytes(42), b"42".to_vec());
    assert_eq!(decimal_bytes(1044), b"1044".to_vec());
    assert_eq!(decimal_bytes(4294967296), b"4294967296".to_vec());
}

#[test]
fn replace_all_replaces_every_occurrence() {
    let out = replace_all(&b"x[C][C]y".to_vec(), &b"[C]".to_vec(), &b"9".to_vec());
    assert_eq!(out, b"x99y".to_vec());
}

#[test]
fn replace_all_scans_left_to_right() {
    let out = replace_all(&b"aaa".to_vec(), &b"aa".to_vec(), &b"b".to_vec());
    assert_eq!(out, b"ba".to_vec());
}

#[test]
fn candidate_url_uses_next_chapter() {
    let s = series("n", "s", "https://example.com/op/[CHAPTER]/page", 1044);
    assert_eq!(
        next_chapter_url(&s),
        b"https://example.com/op/1045/page".to_vec()
    );
}

#[test]
fn candidate_url_replaces_every_placeholder() {
    let s = series("n", "s", "https://example.com/[CHAPTER]/c[CHAPTER]", 8);
    assert_eq!(next_chapter_url(&s), b"https://example.com/9/c9".to_vec());
}

#[test]
fn candidate_url_without_placeholder_is_unchanged() {
    let s = series("n", "s", "https://example.com/latest", 3);
    assert_eq!(next_chapter_url(&s), b"https://example.com/latest".to_vec());
}

#[test]
fn candidate_url_at_largest_chapter() {
    let s = series("n", "s", "c/[CHAPTER]", u32::MAX);
    assert_eq!(next_chapter_url(&s), b"c/4294967296".to_vec());
}

#[test]
fn plan_with_empty_filter_selects_all_in_order() {
    let cfg = vec![
        series("A", "a", "u/[CHAPTER]", 1),
        series("B", "b", "v/[CHAPTER]", 2),
    ];
    let plan = plan_probes(&cfg, &Vec::new());
    assert_eq!(plan.len(), 2);
    assert_eq!(plan[0].name, b"A".to_vec());
    assert_eq!(plan[0].url, b"u/2".to_vec());
    assert_eq!(plan[1].name, b"B".to_vec());
    assert_eq!(plan[1].url, b"v/3".to_vec());
}

#[test]
fn plan_filters_by_short_name() {
    let cfg = vec![
        series("Abc Manga", "abc", "u/[CHAPTER]", 1),
        series("Xyz Manga", "xyz", "v/[CHAPTER]", 2),
    ];
    let plan = plan_probes(&cfg, &b"abc".to_vec());
    assert_eq!(plan.len(), 1);
    assert_eq!(plan[0].name, b"Abc Manga".to_vec());
    assert_eq!(plan[0].url, b"u/2".to_vec());
}

#[test]
fn plan_filter_without_match_is_empty() {
    let cfg = vec![series("Abc Manga", "abc", "u/[CHAPTER]", 1)];
    let plan = plan_probes(&cfg, &b"zzz".to_vec());
    assert_eq!(plan.len(), 0);
}

#[test]
fn empty_config_reports_no_new_chapters() {
    let cfg: Vec<TrackedSeries> = Vec::new();
    let plan = plan_probes(&cfg, &Vec::new());
    assert_eq!(plan.len(), 0);
    let results: Vec<bool> = Vec::new();
    let matches = collect_matches(&plan, &results);
    assert_eq!(matches.len(), 0);
    assert_eq!(render_report(&matches), b"No new chapters found\n".to_vec());
}

#[test]
fn mocked_probe_keeps_exactly_the_found_series() {
    let cfg = vec![
        series("A", "a", "u/[CHAPTER]", 1),
        series("B", "b", "v/[CHAPTER]", 2),
        series("C", "c", "w/[CHAPTER]", 3),
    ];
    let plan = plan_probes(&cfg, &Vec::new());
    // A probe that finds only B's candidate URL.
    let found_url = b"v/3".to_vec();
    let results: Vec<bool> = plan.iter().map(|t| t.url == found_url).collect();
    let matches = collect_matches(&plan, &results);
    assert_eq!(matches.len(), 1);
    assert_eq!(matches[0].name, b"B".to_vec());
    assert_eq!(matches[0].url, b"v/3".to_vec());
}

#[test]
fn matches_preserve_config_order() {
    let plan = vec![
        ProbeTarget { name: b"A".to_vec(), url: b"u".to_vec() },
        ProbeTarget { name: b"B".to_vec(), url: b"v".to_vec() },
        ProbeTarget { name: b"C".to_vec(), url: b"w".to_vec() },
    ];
    let results = vec![true, false, true];
    let matches = collect_matches(&plan, &results);
    assert_eq!(matches.len(), 2);
    assert_eq!(matches[0].name, b"A".to_vec());
    assert_eq!(matches[1].name, b"C".to_vec());
}

#[test]
fn report_lists_name_and_url_per_match() {
    let matches = vec![
        ProbeTarget { name: b"One Piece".to_vec(), url: b"u/1045".to_vec() },
        ProbeTarget { name: b"Berserk".to_vec(), url: b"v/365".to_vec() },
    ];
    assert_eq!(
        render_report(&matches),
        b"New chapters found!\nOne Piece: u/1045\nBerserk: v/365\n".to_vec()
    );
}

#[test]
fn byte_helpers_behave() {
    let v = b"abc".to_vec();
    assert_eq!(copy_bytes(&v), v);
    assert!(bytes_eq(&v, &b"abc".to_vec()));
    assert!(!bytes_eq(&v, &b"abd".to_vec()));
    assert!(!bytes_eq(&v, &b"ab".to_vec()));
}
