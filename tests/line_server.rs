use tuff_db::line_server::{is_user_input, should_flush_buffer, valid_api_key, LineSession};
use tuff_db::meaning::{MeaningDb, Verifier};

fn meaning_check() -> Verifier {
    Verifier::new(MeaningDb::new(vec![("id".to_string(), "u-42".to_string())]))
}

#[test]
fn user_tags() {
    assert!(is_user_input("user"));
    assert!(is_user_input(" USER-Input "));
    assert!(is_user_input("Input"));
    assert!(!is_user_input("users"));
    assert!(!is_user_input("model"));
}

#[test]
fn flush_rules() {
    assert!(!should_flush_buffer(""));
    assert!(!should_flush_buffer("   "));
    assert!(should_flush_buffer("done. "));
    assert!(should_flush_buffer("終わり。"));
    assert!(should_flush_buffer("really?"));
    assert!(!should_flush_buffer("not yet"));
    assert!(should_flush_buffer(&"a".repeat(180)));
    assert!(!should_flush_buffer(&"a".repeat(179)));
    assert!(!should_flush_buffer(&"語".repeat(60)));
    assert!(!should_flush_buffer(&"語".repeat(179)));
    assert!(should_flush_buffer(&"語".repeat(180)));
}

#[test]
fn api_keys() {
    assert!(valid_api_key(" sk-real "));
    assert!(!valid_api_key("   "));
    assert!(!valid_api_key("sk-..."));
}

#[test]
fn session_coalesces_until_sentence_end() {
    let v = meaning_check();
    let mut s = LineSession::new();
    let step = s.on_line("note\thello", &v);
    assert!(step.appends.is_empty() && !step.disconnect);
    let step = s.on_line("note world.", &v);
    assert_eq!(step.appends, vec![("note".to_string(), "hello world.".to_string())]);
    assert!(!step.disconnect);
    let step = s.on_line("note\ttail", &v);
    assert!(step.appends.is_empty());
    let step = s.on_line("other\tx", &v);
    assert_eq!(step.appends, vec![("note".to_string(), "tail".to_string())]);
    let step = s.on_line("user\thi", &v);
    assert_eq!(step.appends, vec![("other".to_string(), "x".to_string())]);
    assert!(s.on_close(&v).is_empty());
}

#[test]
fn session_disconnects_on_mismatch_and_bad_tag() {
    let v = meaning_check();
    let mut s = LineSession::new();
    assert!(s.on_line("id\tu-7.", &v).disconnect);
    let mut s = LineSession::new();
    assert!(s.on_line("id\tu-42", &v).appends.is_empty());
    assert_eq!(s.on_close(&v), vec![("id".to_string(), "u-42".to_string())]);
    let mut s = LineSession::new();
    let step = s.on_line("!!!\tpayload", &v);
    assert!(step.disconnect && step.appends.is_empty());
    let mut s = LineSession::new();
    assert!(!s.on_line("   ", &v).disconnect);
    s.on_line("note\tunfinished", &v);
    assert_eq!(s.on_close(&v), vec![("note".to_string(), "unfinished".to_string())]);
}
