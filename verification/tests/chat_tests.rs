use voxelith::chat::Chat;

#[test]
fn default_chat_is_closed_and_empty() {
    let c = Chat::default();
    assert!(!c.is_open());
    assert_eq!(c.input(), "");
    assert!(c.recent_lines().is_empty());
}

#[test]
fn open_type_submit() {
    let mut c = Chat::default();
    c.open();
    assert!(c.is_open());
    c.type_str("  hello ");
    assert_eq!(c.input(), "  hello ");
    let line = c.submit();
    assert_eq!(line.as_deref(), Some("hello"));
    assert!(!c.is_open());
    assert_eq!(c.input(), "");
}

#[test]
fn blank_submit_sends_nothing() {
    let mut c = Chat::default();
    c.open();
    c.type_str("   ");
    assert_eq!(c.submit(), None);
    assert!(!c.is_open());
}

#[test]
fn open_with_prefix_and_close() {
    let mut c = Chat::default();
    c.open_with("/");
    assert!(c.is_open());
    assert_eq!(c.input(), "/");
    c.type_str("tp 1 2 3");
    assert_eq!(c.input(), "/tp 1 2 3");
    c.close();
    assert!(!c.is_open());
    assert_eq!(c.input(), "");
}

#[test]
fn control_characters_are_ignored() {
    let mut c = Chat::default();
    c.open();
    c.type_str("a\nb\u{7f}c\td");
    assert_eq!(c.input(), "abcd");
}

#[test]
fn input_is_capped_at_200_bytes() {
    let mut c = Chat::default();
    c.open();
    c.type_str(&"x".repeat(250));
    assert_eq!(c.input().len(), 200);
    let mut d = Chat::default();
    d.type_str(&"x".repeat(199));
    d.type_str("éé");
    assert_eq!(d.input().len(), 201);
    assert!(d.input().ends_with('é'));
}

#[test]
fn backspace_removes_one_character() {
    let mut c = Chat::default();
    c.open();
    c.type_str("abé");
    c.backspace();
    assert_eq!(c.input(), "ab");
    c.backspace();
    c.backspace();
    c.backspace();
    assert_eq!(c.input(), "");
    assert!(c.is_open());
}

#[test]
fn history_keeps_the_newest_fifty() {
    let mut c = Chat::default();
    for i in 0..60 {
        c.push(format!("m{}", i));
    }
    let lines: Vec<String> = c.recent_lines().iter().map(|l| l.0.clone()).collect();
    assert_eq!(lines.len(), 10);
    assert_eq!(lines[0], "m59");
    assert_eq!(lines[9], "m50");
}

#[test]
fn recent_lines_newest_first() {
    let mut c = Chat::default();
    c.push("one".to_string());
    c.push("two".to_string());
    c.push("three".to_string());
    let lines: Vec<&str> = c.recent_lines().iter().map(|l| l.0.as_str()).collect();
    assert_eq!(lines, vec!["three", "two", "one"]);
    assert!(c.recent_lines()[0].1 >= c.recent_lines()[2].1);
}

#[test]
fn push_does_not_touch_the_input() {
    let mut c = Chat::default();
    c.open();
    c.type_str("typing");
    c.push("server says hi".to_string());
    assert_eq!(c.input(), "typing");
    assert!(c.is_open());
}

#[test]
fn backspace_undoes_a_typed_character() {
    let mut c = Chat::default();
    c.open();
    c.type_str("ab");
    c.type_str("é");
    c.backspace();
    assert_eq!(c.input(), "ab");
}
