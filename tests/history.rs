use histdedup::{
    assign_timestamps, deduplicate, format_history, insert_if_unique, parse_command,
    reconstruct_entries, split_lines, unique_commands, HeaderMatcher, HistoryError,
};

fn matcher() -> HeaderMatcher {
    HeaderMatcher::new().expect("header rule compiles")
}

fn bytes(s: &str) -> Vec<u8> {
    s.as_bytes().to_vec()
}

fn text(v: &[u8]) -> String {
    String::from_utf8(v.to_vec()).unwrap()
}

#[test]
fn duplicate_command_is_dropped_and_order_kept() {
    let m = matcher();
    let input = ": 1700000000:0;echo a\n: 1700000001:0;echo b\n: 1700000002:0;echo a\n";
    let out = deduplicate(&m, input.as_bytes(), 1800000000).unwrap();
    assert_eq!(text(&out), ": 1800000000:0;echo a\n: 1800000001:0;echo b\n");
}

#[test]
fn multi_line_command_is_one_entry() {
    let m = matcher();
    let input = ": 1700000000:0;docker run \\\n  -d \\\n  hello-world\n: 1700000001:0;echo a\n";
    let cmds = unique_commands(&m, input.as_bytes()).unwrap();
    assert_eq!(cmds, vec![bytes("docker run \\\n  -d \\\n  hello-world"), bytes("echo a")]);
    let out = deduplicate(&m, input.as_bytes(), 1800000000).unwrap();
    assert_eq!(
        text(&out),
        ": 1800000000:0;docker run \\\n  -d \\\n  hello-world\n: 1800000001:0;echo a\n"
    );
}

#[test]
fn empty_input_gives_empty_output() {
    let m = matcher();
    let out = deduplicate(&m, b"", 1800000000).unwrap();
    assert!(out.is_empty());
}

#[test]
fn second_run_removes_nothing_more() {
    let m = matcher();
    let input = ": 1700000000:0;ls\n: 1700000001:0;cd /\n: 1700000002:0;ls\n: 1700000003:0;a \\\nb\n";
    let first = deduplicate(&m, input.as_bytes(), 1800000000).unwrap();
    let second = deduplicate(&m, &first, 1900000000).unwrap();
    assert_eq!(
        unique_commands(&m, &first).unwrap(),
        unique_commands(&m, &second).unwrap()
    );
    assert_eq!(unique_commands(&m, &second).unwrap(), vec![bytes("ls"), bytes("cd /"), bytes("a \\\nb")]);
}

#[test]
fn count_is_number_of_distinct_commands() {
    let m = matcher();
    let input = ": 1700000000:0;a\n: 1700000001:0;b\n: 1700000002:0;a\n: 1700000003:0;a\n: 1700000004:0;c\n: 1700000005:0;b\n";
    let cmds = unique_commands(&m, input.as_bytes()).unwrap();
    assert_eq!(cmds.len(), 3);
    assert_eq!(cmds, vec![bytes("a"), bytes("b"), bytes("c")]);
}

#[test]
fn timestamps_rise_by_one() {
    let cmds = vec![bytes("x"), bytes("y"), bytes("z")];
    let es = assign_timestamps(&cmds, 1700000000);
    let ts: Vec<u64> = es.iter().map(|e| e.timestamp).collect();
    assert_eq!(ts, vec![1700000000, 1700000001, 1700000002]);
    assert_eq!(es[2].body, bytes("z"));
}

#[test]
fn format_writes_header_body_and_line_feed() {
    let es = assign_timestamps(&vec![bytes("a\nb"), bytes("")], 7);
    assert_eq!(text(&format_history(&es)), ": 7:0;a\nb\n: 8:0;\n");
}

#[test]
fn last_timestamp_may_be_the_largest() {
    let m = matcher();
    let input = ": 1700000000:0;a\n: 1700000001:0;b\n";
    let out = deduplicate(&m, input.as_bytes(), u64::MAX - 1).unwrap();
    assert_eq!(
        text(&out),
        format!(": {}:0;a\n: {}:0;b\n", u64::MAX - 1, u64::MAX)
    );
}

#[test]
fn timestamp_overflow_is_refused() {
    let m = matcher();
    let input = ": 1700000000:0;a\n: 1700000001:0;b\n";
    assert_eq!(deduplicate(&m, input.as_bytes(), u64::MAX), Err(HistoryError::ClockUnavailable));
}

#[test]
fn entry_without_separator_is_malformed() {
    let m = matcher();
    let input = "no header here\n: 1700000000:0;echo a\n";
    assert_eq!(unique_commands(&m, input.as_bytes()), Err(HistoryError::MalformedEntry));
    assert_eq!(deduplicate(&m, input.as_bytes(), 1), Err(HistoryError::MalformedEntry));
}

#[test]
fn parse_command_strips_header() {
    assert_eq!(parse_command(b": 1718500660:0;cargo build -r"), Some(bytes("cargo build -r")));
    assert_eq!(parse_command(b": 1718500660123:1;ls"), Some(bytes("ls")));
    assert_eq!(parse_command(b": 1718500660:0;"), Some(vec![]));
    assert_eq!(parse_command(b"echo a:b;"), None);
    assert_eq!(parse_command(b"x:1;a"), None);
    assert_eq!(parse_command(b": 17x0:0;a"), None);
    assert_eq!(parse_command(b":\t1700000000:0;a"), Some(bytes("a")));
    assert_eq!(parse_command(b""), None);
}

#[test]
fn insert_if_unique_keeps_first() {
    let mut v: Vec<Vec<u8>> = Vec::new();
    assert_eq!(insert_if_unique(b": 1700000000:0;ls", &mut v), Ok(()));
    assert_eq!(insert_if_unique(b": 1700000005:0;pwd", &mut v), Ok(()));
    assert_eq!(insert_if_unique(b": 1700000009:0;ls", &mut v), Ok(()));
    assert_eq!(v, vec![bytes("ls"), bytes("pwd")]);
    assert_eq!(insert_if_unique(b"garbage", &mut v), Err(HistoryError::MalformedEntry));
    assert_eq!(v.len(), 2);
}

#[test]
fn header_rule_accepts_and_refuses() {
    let m = matcher();
    assert!(m.matches(b": 1700000000:0;ls"));
    assert!(m.matches(b": 1700000000123:0;ls"));
    assert!(m.matches(b":\t1700000000:1;ls"));
    assert!(!m.matches(b": 170000000:0;ls"));
    assert!(!m.matches(b": 17000000001234:0;ls"));
    assert!(!m.matches(b"  -d \\"));
    assert!(!m.matches(b"x: 1700000000:0;ls"));
}

#[test]
fn split_lines_drops_final_line_feed_only() {
    assert_eq!(split_lines(b"a\n\nb\n"), vec![bytes("a"), bytes(""), bytes("b")]);
    assert_eq!(split_lines(b"a\nb"), vec![bytes("a"), bytes("b")]);
    assert_eq!(split_lines(b"\n"), vec![bytes("")]);
    assert!(split_lines(b"").is_empty());
}

#[test]
fn trailing_backslash_without_continuation_ends_at_next_header() {
    let m = matcher();
    let lines = split_lines(b": 1700000000:0;echo \\\n: 1700000001:0;ls\n");
    let raw = reconstruct_entries(&m, &lines);
    assert_eq!(raw, vec![bytes(": 1700000000:0;echo \\"), bytes(": 1700000001:0;ls")]);
}

#[test]
fn continuation_without_backslash_still_joins() {
    let m = matcher();
    let lines = split_lines(b": 1700000000:0;echo a\nplain\n");
    let raw = reconstruct_entries(&m, &lines);
    assert_eq!(raw, vec![bytes(": 1700000000:0;echo a\nplain")]);
}

#[test]
fn leading_lines_before_first_header_are_malformed() {
    let m = matcher();
    let input = "x:1;first\nsecond\n: 1700000000:0;ls\n";
    assert_eq!(unique_commands(&m, input.as_bytes()), Err(HistoryError::MalformedEntry));
    assert_eq!(unique_commands(&m, b"x:1;a"), Err(HistoryError::MalformedEntry));
    assert_eq!(unique_commands(&m, b"echo x\n: 1700000000:0;ls\n"), Err(HistoryError::MalformedEntry));
}
