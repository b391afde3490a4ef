use git_global::cache::{merge, parse_cache, serialize_cache};

fn strings(v: &[&str]) -> Vec<String> {
    v.iter().map(|s| s.to_string()).collect()
}

fn sorted(mut v: Vec<String>) -> Vec<String> {
    v.sort();
    v
}

#[test]
fn cache_round_trip_keeps_the_set() {
    let set = strings(&["/z", "/x", "/y"]);
    let text = serialize_cache(&set);
    assert_eq!(text, "/z\n/x\n/y\n");
    assert_eq!(sorted(parse_cache(&text)), strings(&["/x", "/y", "/z"]));
}

#[test]
fn parse_skips_blank_lines_and_duplicates() {
    let parsed = parse_cache("/a\n\n/b\n/a\n\n/c");
    assert_eq!(parsed, strings(&["/a", "/b", "/c"]));
}

#[test]
fn parse_empty_text_is_empty_set() {
    assert!(parse_cache("").is_empty());
    assert!(parse_cache("\n\n").is_empty());
}

#[test]
fn serialize_empty_set() {
    assert_eq!(serialize_cache(&vec![]), "");
}

#[test]
fn merge_prunes_stale_paths() {
    let cached = strings(&["/x", "/gone", "/y"]);
    let alive = vec![true, false, true];
    let discovered = strings(&["/y", "/new"]);
    let merged = merge(&cached, &alive, &discovered);
    assert_eq!(sorted(merged.clone()), strings(&["/new", "/x", "/y"]));
    assert!(!merged.contains(&"/gone".to_string()));
}

#[test]
fn merge_keeps_rediscovered_path() {
    let cached = strings(&["/moved"]);
    let merged = merge(&cached, &vec![false], &strings(&["/moved"]));
    assert_eq!(merged, strings(&["/moved"]));
}
