use tuff_db::tags::{normalize_tags, sort_unique_tags, TagBits};

fn bits(t: &[&str]) -> TagBits {
    TagBits { tags: t.iter().map(|s| s.to_string()).collect() }
}

#[test]
fn canonical_form() {
    let c = bits(&[" Rust ", "go", "", "RUST", "  ", "Ada"]).canonical();
    assert_eq!(c.tags, vec!["ada".to_string(), "go".to_string(), "rust".to_string()]);
    assert_eq!(bits(&[" Rust ", "go", "", "RUST", "Ada"]).to_key(), "ada|go|rust");
    assert_eq!(bits(&[]).to_key(), "");
    assert_eq!(bits(&["", " "]).to_key(), "");
}

#[test]
fn canonical_is_idempotent() {
    let t = bits(&["B", " a ", "b", "Ä"]);
    let c = t.canonical();
    assert_eq!(c.canonical().tags, c.tags);
    assert_eq!(c.to_key(), t.to_key());
}

#[test]
fn key_ignores_order_case_duplicates_whitespace() {
    let p = bits(&["alpha", "Beta", "gamma"]);
    let q = bits(&[" GAMMA", "beta ", "Alpha", "alpha"]);
    assert_eq!(p.to_key(), q.to_key());
    assert_eq!(p.to_key(), "alpha|beta|gamma");
}

#[test]
fn generator_tags_keep_case() {
    let t = normalize_tags(vec![" b ".into(), "A".into(), "b".into(), "".into()]);
    assert_eq!(t.tags, vec!["A".to_string(), "b".to_string()]);
}

#[test]
fn sorted_unique_tags() {
    let t: Vec<String> = vec!["b".into(), "a".into(), "".into(), "b".into(), "B".into()];
    assert_eq!(sort_unique_tags(&t), vec!["B".to_string(), "a".to_string(), "b".to_string()]);
}
