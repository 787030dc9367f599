use tuff_db::meaning::{
    normalize_lowered,
    match_mode_for_tag, meaning_matches, normalize_tag_key, parse_meaning_file,
    parse_meaning_pairs, split_tag_payload, LightweightVerifier, MeaningDb, MeaningMatchMode,
    TagIndex, Verifier,
};

fn pairs(items: &[(&str, &str)]) -> Vec<(String, String)> {
    items.iter().map(|(a, b)| (a.to_string(), b.to_string())).collect()
}

#[test]
fn normalize_examples() {
    assert_eq!(normalize_tag_key("  User Input!! ").as_deref(), Some("user-input"));
    assert_eq!(normalize_tag_key("ID").as_deref(), Some("id"));
    assert_eq!(normalize_tag_key("a__b--c").as_deref(), Some("a-b-c"));
    assert_eq!(normalize_tag_key("äb").as_deref(), Some("b"));
    assert_eq!(normalize_tag_key("---"), None);
    assert_eq!(normalize_tag_key(""), None);
    let long = "a".repeat(100);
    assert_eq!(normalize_tag_key(&long), Some("a".repeat(64)));
    let cut_at_dash = format!("{}-{}", "a".repeat(63), "b".repeat(10));
    assert_eq!(normalize_tag_key(&cut_at_dash), Some("a".repeat(63)));
    let once = normalize_tag_key("Hello, World").unwrap();
    assert_eq!(normalize_tag_key(&once), Some(once.clone()));
}

#[test]
fn match_modes() {
    assert_eq!(match_mode_for_tag("id"), MeaningMatchMode::Exact);
    assert_eq!(match_mode_for_tag("user-id"), MeaningMatchMode::Exact);
    assert_eq!(match_mode_for_tag("x-id-y"), MeaningMatchMode::Exact);
    assert_eq!(match_mode_for_tag("idea"), MeaningMatchMode::Contains);
    assert_eq!(match_mode_for_tag("identity"), MeaningMatchMode::Contains);
    assert!(meaning_matches(MeaningMatchMode::Exact, " u-42 ", "u-42\t"));
    assert!(!meaning_matches(MeaningMatchMode::Exact, "u-42", "u-420"));
    assert!(meaning_matches(MeaningMatchMode::Contains, "cat", "a black cat sat"));
    assert!(!meaning_matches(MeaningMatchMode::Contains, "dog", "a black cat"));
    assert!(meaning_matches(MeaningMatchMode::Contains, "", "anything"));
}

#[test]
fn split_fragments() {
    assert_eq!(split_tag_payload("id\tu-42"), ("id".to_string(), "u-42".to_string()));
    assert_eq!(split_tag_payload("id  u 42 "), ("id".to_string(), "u 42".to_string()));
    assert_eq!(split_tag_payload(" id u"), (String::new(), "id u".to_string()));
    assert_eq!(split_tag_payload("a b\tc d"), ("a b".to_string(), "c d".to_string()));
    assert_eq!(split_tag_payload("alone"), ("alone".to_string(), String::new()));
    assert_eq!(split_tag_payload("  alone "), (String::new(), "alone".to_string()));
}

#[test]
fn tag_index_later_wins() {
    let idx = TagIndex::from_map(pairs(&[("User ID", "a"), ("user-id", "b"), ("!!", "c")]));
    assert_eq!(idx.get("USER id"), Some("b"));
    assert_eq!(idx.iter(), pairs(&[("user-id", "b")]));
    assert!(!idx.is_empty());
    assert_eq!(idx.get("other"), None);
    assert!(TagIndex::from_map(pairs(&[("--", "x")])).is_empty());
}

#[test]
fn merge_prefers_new_pairs() {
    let mut db = MeaningDb::new(pairs(&[("id", "u-1"), ("name", "bob")]));
    db.merge(pairs(&[("ID", "u-2")]));
    assert_eq!(db.meaning_for("id"), Some("u-2"));
    assert_eq!(db.meaning_for("name"), Some("bob"));
    assert_eq!(db.meaning_for("missing"), None);
}

#[test]
fn sources_combined() {
    let file = parse_meaning_file("# comment\n\n id = u-1 \nname=bob\nbad line\nempty=\n");
    assert_eq!(file, pairs(&[("id", "u-1"), ("name", "bob")]));
    let env = parse_meaning_pairs("id=u-9; city = paris ;=x;y=");
    assert_eq!(env, pairs(&[("id", "u-9"), ("city", "paris")]));
    let v = LightweightVerifier::from_sources(Some(file), env).unwrap();
    assert!(v.verify_tag_payload("id", "u-9").is_some());
    assert!(v.verify_tag_payload("name", "is bob here").is_some());
    assert!(LightweightVerifier::from_sources(None, Vec::new()).is_none());
    assert!(LightweightVerifier::from_sources(None, pairs(&[("x", "y")])).is_some());
}

#[test]
fn fast_path_hit_and_miss() {
    let v = LightweightVerifier::new(MeaningDb::new(pairs(&[("id", "u-42")])));
    let hit = v.verify_fragment("id\tu-42").unwrap();
    assert_eq!(hit.tag, "id");
    assert_eq!(hit.required, "u-42");
    assert_eq!(hit.mode, MeaningMatchMode::Exact);
    assert!(v.verify_fragment("id\tu-43").is_none());
    assert!(v.verify_fragment("id u-42").is_some());
    assert!(v.verify_fragment("name\tu-42").is_none());
    let c = LightweightVerifier::new(MeaningDb::new(pairs(&[("topic", "rust")])));
    let hit = c.verify_fragment("Topic\twe like rust a lot").unwrap();
    assert_eq!(hit.mode, MeaningMatchMode::Contains);
    assert!(c.verify_fragment("topic\twe like go").is_none());
}

#[test]
fn line_server_check() {
    let v = Verifier::new(MeaningDb::new(pairs(&[("id", "u-42")])));
    assert!(v.verify_tag_payload("free", "anything"));
    assert!(v.verify_tag_payload("id", "u-42"));
    assert!(!v.verify_tag_payload("id", "u-7"));
}

#[test]
fn normalize_after_lowering() {
    let l: Vec<char> = "id".chars().collect();
    assert_eq!(normalize_lowered(&l).as_deref(), Some("id"));
    let l: Vec<char> = "--user  input--".chars().collect();
    assert_eq!(normalize_lowered(&l).as_deref(), Some("user-input"));
    let l: Vec<char> = "ID".chars().collect();
    assert_eq!(normalize_lowered(&l).as_deref(), Some("ID"));
    assert_eq!(normalize_lowered(&Vec::new()), None);
}
