use chainbot::chain::Chain;

fn tok(s: &str) -> Option<String> {
    Some(s.to_string())
}

#[test]
fn fresh_chain_has_exact_text_form() {
    assert_eq!(Chain::new().save(), "(~)");
}

#[test]
fn fed_chain_has_exact_text_form() {
    let mut c = Chain::new();
    c.feed("a b a");
    assert_eq!(c.save(), "(~#1:a:1)(#1:a#1:b:1~:1)(#1:b#1:a:1)");
}

#[test]
fn load_accepts_what_save_wrote() {
    let c = Chain::load("(~#1:a:1)(#1:a#1:b:1~:1)(#1:b#1:a:1)").unwrap();
    assert_eq!(c.transition_count(&tok("a"), &tok("b")), 1);
    assert_eq!(c.save(), "(~#1:a:1)(#1:a#1:b:1~:1)(#1:b#1:a:1)");
}

#[test]
fn round_trip_keeps_tokens_with_reserved_characters() {
    let mut c = Chain::new();
    c.feed("a(b #1:~ )c:9");
    let text = c.save();
    let d = Chain::load(&text).unwrap();
    assert_eq!(d.save(), text);
    assert_eq!(d.transition_count(&tok("a(b"), &tok("#1:~")), 1);
    assert_eq!(d.transition_count(&tok("#1:~"), &tok(")c:9")), 1);
}

#[test]
fn load_rejects_plain_garbage() {
    assert!(Chain::load("garbage").is_err());
}

#[test]
fn load_rejects_truncated_record() {
    assert!(Chain::load("(~").is_err());
}

#[test]
fn load_rejects_record_without_state() {
    assert!(Chain::load("()").is_err());
}

#[test]
fn load_rejects_zero_count() {
    assert!(Chain::load("(~#1:a:0)").is_err());
}

#[test]
fn load_rejects_padded_count() {
    assert!(Chain::load("(~#1:a:01)").is_err());
}

#[test]
fn load_rejects_duplicate_state() {
    assert!(Chain::load("(~)(~)").is_err());
}

#[test]
fn load_rejects_missing_start_state() {
    assert!(Chain::load("(#1:a~:1)").is_err());
}

#[test]
fn load_rejects_dangling_next_token() {
    assert!(Chain::load("(~#1:b:1)").is_err());
}

#[test]
fn load_rejects_empty_non_start_distribution() {
    assert!(Chain::load("(~#1:a:1)(#1:a)").is_err());
}

#[test]
fn load_accepts_the_empty_token() {
    let mut c = Chain::new();
    c.feed("");
    let text = c.save();
    assert_eq!(text, "(~#0::1)(#0:~:1)");
    let d = Chain::load(&text).unwrap();
    assert_eq!(d.transition_count(&None, &tok("")), 1);
}

#[test]
fn load_rejects_trailing_garbage() {
    assert!(Chain::load("(~)x").is_err());
}

#[test]
fn load_rejects_padded_length_prefix() {
    assert!(Chain::load("(~#01:a:1)").is_err());
}
