use ups::debug::{debug_log, DebugBuffer};

#[test]
fn buffer_collects_text() {
    let mut b = DebugBuffer::new();
    assert_eq!(b.as_str(), "");
    b.write_str("fat ");
    b.write_str("ok");
    assert_eq!(b.as_str(), "fat ok");
    b.clear();
    assert_eq!(b.as_str(), "");
}

#[test]
fn buffer_truncates_at_capacity() {
    let mut b = DebugBuffer::new();
    let long = "x".repeat(1500);
    b.write_str(&long);
    assert_eq!(b.as_str().len(), 1024);
    b.write_str("more");
    assert_eq!(b.as_str().len(), 1024);
}

#[test]
fn buffer_reports_split_character() {
    let mut b = DebugBuffer::new();
    b.write_str(&"a".repeat(1023));
    b.write_str("é");
    assert_eq!(b.as_str(), "[Invalid UTF-8]");
}

#[test]
fn log_replaces_message() {
    let mut b = DebugBuffer::new();
    b.write_str("old");
    debug_log(&mut b, "new message");
    assert_eq!(b.as_str(), "new message");
}
