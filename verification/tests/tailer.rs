use nginx_tail::tailer::LineAccumulator;

#[test]
fn test_feed_whole_lines() {
    let mut acc = LineAccumulator::new();
    let lines = acc.feed(b"line 1\nline 2\n");
    assert_eq!(lines, ["line 1", "line 2"]);
    assert!(acc.pending.is_empty());
}

#[test]
fn test_feed_partial_then_completed_line() {
    let mut acc = LineAccumulator::new();
    let lines = acc.feed(b"line 4...");
    assert!(lines.is_empty());
    assert_eq!(acc.pending, b"line 4...");
    let lines = acc.feed(b" and a bit\n");
    assert_eq!(lines, ["line 4... and a bit"]);
    assert!(acc.pending.is_empty());
}

#[test]
fn test_feed_several_lines_and_a_remainder() {
    let mut acc = LineAccumulator::new();
    let lines = acc.feed(b"line 7\nline 8\nline 9\nline 0");
    assert_eq!(lines, ["line 7", "line 8", "line 9"]);
    assert_eq!(acc.pending, b"line 0");
    let lines = acc.feed(b"\n");
    assert_eq!(lines, ["line 0"]);
}

#[test]
fn test_feed_decodes_invalid_bytes_lossily() {
    let mut acc = LineAccumulator::new();
    let lines = acc.feed(&[b'a', 0xff, b'b', b'\n']);
    assert_eq!(lines, ["a\u{fffd}b"]);
}

#[test]
fn test_clear_drops_unterminated_bytes() {
    let mut acc = LineAccumulator::new();
    let _ = acc.feed(b"half a li");
    acc.clear();
    let lines = acc.feed(b"ne\n");
    assert_eq!(lines, ["ne"]);
}
