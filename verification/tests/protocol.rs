use shellsuggest::protocol::{
    encode_client_message, encode_daemon_message, escape_field_into, parse_client_message,
    parse_daemon_message, unescape_field, ClientMessage, CycleDirection, DaemonMessage,
};

#[test]
fn test_suggest_message_roundtrip() {
    let msg = ClientMessage::Suggest {
        request_id: 42,
        buffer: "cd sr".into(),
        cursor: 5,
        cwd: "/Users/me/project".into(),
        session_id: "abc123".into(),
        last_command: None,
    };
    let line = encode_client_message(&msg);
    let parsed = parse_client_message(&line).unwrap();
    assert_eq!(msg, parsed);
}

#[test]
fn test_record_message_roundtrip() {
    let msg = ClientMessage::Record {
        command: "cd src".into(),
        cwd: "/Users/me/project".into(),
        exit_code: 0,
        duration_ms: 12,
        session_id: "abc123".into(),
    };
    let line = encode_client_message(&msg);
    let parsed = parse_client_message(&line).unwrap();
    assert_eq!(msg, parsed);
}

#[test]
fn test_cycle_message_roundtrip() {
    let msg = ClientMessage::Cycle {
        session_id: "abc123".into(),
        direction: CycleDirection::Next,
    };
    let line = encode_client_message(&msg);
    let parsed = parse_client_message(&line).unwrap();
    assert_eq!(msg, parsed);
}

#[test]
fn test_feedback_message_roundtrip() {
    let msg = ClientMessage::Feedback {
        command: "echo hello".into(),
        source: "history".into(),
        score: "0.75".into(),
        accepted: true,
        session_id: "abc123".into(),
    };
    let line = encode_client_message(&msg);
    let parsed = parse_client_message(&line).unwrap();
    assert_eq!(msg, parsed);
}

#[test]
fn test_suggestion_response_roundtrip() {
    let msg = DaemonMessage::Suggestion {
        request_id: 42,
        candidate_count: 3,
        candidate_index: 1,
        source: "cwd_history".into(),
        score: "0.91".into(),
        text: "cd src/components".into(),
    };
    let line = encode_daemon_message(&msg);
    let parsed = parse_daemon_message(&line).unwrap();
    assert_eq!(msg, parsed);
}

#[test]
fn test_protocol_escapes_special_characters() {
    let msg = ClientMessage::Suggest {
        request_id: 7,
        buffer: "echo one\\ttwo\nthree\tfour".into(),
        cursor: 5,
        cwd: "/home".into(),
        session_id: "s1".into(),
        last_command: Some("printf '\\n'".into()),
    };
    let line = encode_client_message(&msg);
    let parsed = parse_client_message(&line).unwrap();
    assert_eq!(msg, parsed);
}

#[test]
fn test_parse_rejects_unknown_escape() {
    let err = parse_daemon_message("e\t0\tbad\\xescape").unwrap_err();
    assert!(err.to_string().contains("unsupported escape sequence"));
}

#[test]
fn frames_are_written_field_by_field() {
    let suggest = ClientMessage::Suggest {
        request_id: 1,
        buffer: "ls\t".into(),
        cursor: 3,
        cwd: "/a\\b".into(),
        session_id: "s".into(),
        last_command: None,
    };
    assert_eq!(encode_client_message(&suggest), "s\t1\t3\ts\t/a\\\\b\tls\\t\t");
    let cycle = ClientMessage::Cycle {
        session_id: "s".into(),
        direction: CycleDirection::Prev,
    };
    assert_eq!(encode_client_message(&cycle), "c\ts\tp");
    let record = ClientMessage::Record {
        command: "false".into(),
        cwd: "/".into(),
        exit_code: -1,
        duration_ms: 20,
        session_id: "s".into(),
    };
    assert_eq!(parse_client_message(&encode_client_message(&record)).unwrap(), record);
    assert_eq!(encode_daemon_message(&DaemonMessage::Ack { request_id: 9 }), "a\t9");
}

#[test]
fn a_frame_is_one_line() {
    let error = DaemonMessage::Error {
        message: "line one\nline two\r".into(),
        request_id: 3,
    };
    let line = encode_daemon_message(&error);
    assert!(!line.contains('\n'));
    assert!(!line.contains('\r'));
    assert_eq!(parse_daemon_message(&line).unwrap(), error);
}

#[test]
fn malformed_frames_are_refused_with_a_reason() {
    let reason = |line: &str| parse_client_message(line).unwrap_err().to_string();
    assert!(reason("x\t1").contains("unknown client message type: x"));
    assert!(reason("s\tone\t0\ts\t/\tls\t").contains("request_id"));
    assert!(reason("s\t1\t-1\ts\t/\tls\t").contains("cursor"));
    assert!(reason("c\ts\tsideways").contains("sideways"));
    assert!(reason("f\t2\t0.5\ts\th\tls").contains("2"));
    assert!(reason("f\t1\tmuch\ts\th\tls").contains("score"));
    assert!(reason("r\tabc\t1\ts\t/\tls").contains("exit_code"));
    assert!(reason("c\ts").contains("cycle"));
    assert!(reason("s\t1\t0\ts\t/\tls\\").contains("unterminated escape sequence"));
    assert!(parse_daemon_message("z").is_err());
}

#[test]
fn an_escaped_field_reads_back() {
    for value in ["", "plain", "a\tb\nc\rd\\e", "\\t", "naïve ✓"] {
        let mut escaped = String::new();
        escape_field_into(&mut escaped, value);
        assert!(!escaped.contains(['\t', '\n', '\r']));
        assert_eq!(unescape_field(&escaped).unwrap(), value);
    }
    let mut escaped = String::from("s\t");
    escape_field_into(&mut escaped, "a\tb");
    assert_eq!(escaped, "s\ta\\tb");
    let reason = |value: &str| unescape_field(value).unwrap_err().to_string();
    assert_eq!(reason("a\\"), "unterminated escape sequence");
    assert_eq!(reason("a\\q"), "unsupported escape sequence: \\q");
}
