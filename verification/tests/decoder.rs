use mini1::command::Command;
use mini1::resp::{encode_request, parse_timeout_millis, parse_uint_capped, usize_to_string};
use mini1::utils::parse_request;

fn req(parts: &[&str]) -> String {
    let mut s = format!("*{}\r\n", parts.len());
    for p in parts {
        s.push_str(&format!("${}\r\n{}\r\n", p.len(), p));
    }
    s
}

#[test]
fn decodes_set_request() {
    let (cmd, parts) = parse_request(&req(&["SET", "k", "v"])).unwrap();
    assert!(matches!(cmd, Command::SetValue(ref k, ref v) if k == "k" && v == "v"));
    assert_eq!(parts, vec!["k".to_string(), "v".to_string()]);
}

#[test]
fn decodes_get_request_case_insensitively() {
    let (cmd, _) = parse_request(&req(&["get", "k"])).unwrap();
    assert!(matches!(cmd, Command::Get(ref k) if k == "k"));
    let (cmd, _) = parse_request(&req(&["GeT", "k"])).unwrap();
    assert!(matches!(cmd, Command::Get(ref k) if k == "k"));
}

#[test]
fn decodes_ping_with_and_without_message() {
    let (cmd, _) = parse_request(&req(&["PING"])).unwrap();
    assert!(matches!(cmd, Command::Ping(None)));
    let (cmd, _) = parse_request(&req(&["ping", "hello"])).unwrap();
    assert!(matches!(cmd, Command::Ping(Some(ref m)) if m == "hello"));
}

#[test]
fn decodes_exists_and_push_requests() {
    let (cmd, _) = parse_request(&req(&["EXISTS", "a", "b", "a"])).unwrap();
    assert!(matches!(cmd, Command::Exists(ref ks) if ks.len() == 3));
    let (cmd, _) = parse_request(&req(&["RPUSH", "L", "x", "y"])).unwrap();
    assert!(
        matches!(cmd, Command::Rpush(ref k, ref vs) if k == "L" && vs == &vec!["x".to_string(), "y".to_string()])
    );
    let (cmd, _) = parse_request(&req(&["LPUSH", "L2", "x", "y"])).unwrap();
    assert!(matches!(cmd, Command::Lpush(ref k, ref vs) if k == "L2" && vs.len() == 2));
}

#[test]
fn decodes_blpop_with_timeout_in_millis() {
    let (cmd, _) = parse_request(&req(&["BLPOP", "k", "0.3"])).unwrap();
    assert!(matches!(cmd, Command::BLPOP(ref ks, 300) if ks == &vec!["k".to_string()]));
    let (cmd, _) = parse_request(&req(&["BRPOP", "a", "b", "1"])).unwrap();
    assert!(matches!(cmd, Command::BRPOP(ref ks, 1000) if ks.len() == 2));
}

#[test]
fn rejects_select_index_above_limit() {
    // An index one past MAX_DATABASES is refused.
    assert!(matches!(parse_request(&req(&["SELECT", "16"])), Err("Invalid database index")));
    assert!(matches!(parse_request(&req(&["SELECT", "abc"])), Err("Invalid database index")));
    assert!(matches!(
        parse_request(&req(&["SELECT", "15"])),
        Ok((Command::Select(15), _))
    ));
}

#[test]
fn rejects_malformed_framing() {
    assert!(matches!(parse_request(""), Err("Empty request")));
    assert!(matches!(parse_request("*0\r\n"), Err("Empty request")));
    assert!(matches!(parse_request("PING\r\n"), Err("Invalid request format")));
    assert!(matches!(parse_request("*x\r\n"), Err("Invalid request format")));
    // Declared length disagrees with the argument.
    assert!(matches!(parse_request("*1\r\n$5\r\nPING\r\n"), Err("Invalid request format")));
    // Missing length line.
    assert!(matches!(parse_request("*2\r\n$4\r\nPING\r\n"), Err("Invalid request format")));
}

#[test]
fn rejects_arity_violations() {
    assert!(matches!(parse_request(&req(&["GET"])), Err("Syntax error. Usage: GET <key>")));
    assert!(matches!(parse_request(&req(&["SET", "k"])), Err("Syntax error. Usage: SET <key> <value>")));
    assert!(matches!(parse_request(&req(&["EXISTS"])), Err("Syntax error. Usage: EXISTS <key> [<key> ...]")));
    assert!(matches!(parse_request(&req(&["RPUSH", "L"])), Err("Syntax error. Usage: RPUSH <key> <value> [<value> ...]")));
    assert!(matches!(parse_request(&req(&["BLPOP", "k"])), Err("Syntax error. Usage: BLPOP <key> <value> [<value> ...]")));
    assert!(matches!(parse_request(&req(&["FLUSH"])), Err("Unsupported command")));
}

#[test]
fn rejects_too_many_keys_and_bad_timeouts() {
    assert!(matches!(parse_request(&req(&["BLPOP", "a", "b", "c", "d", "e", "f", "1"])), Err("Exceeded maximum number of keys (5)")));
    // Five keys plus the timeout are accepted.
    assert!(parse_request(&req(&["BLPOP", "a", "b", "c", "d", "e", "1"])).is_ok());
    assert!(matches!(parse_request(&req(&["BLPOP", "k", "soon"])), Err("Invalid timeout")));
    assert!(matches!(parse_request(&req(&["BRPOP", "k", "-1"])), Err("Invalid timeout")));
}

#[test]
fn request_round_trip_on_encoded_arguments() {
    // Encoding an argument list and decoding it again yields the same
    // command and raw arguments.
    let args = vec!["SET".to_string(), "key".to_string(), "value".to_string()];
    let encoded = encode_request(&args);
    assert_eq!(encoded, "*3\r\n$3\r\nSET\r\n$3\r\nkey\r\n$5\r\nvalue\r\n");
    let (cmd, parts) = parse_request(&encoded).unwrap();
    assert!(matches!(cmd, Command::SetValue(ref k, ref v) if k == "key" && v == "value"));
    assert_eq!(parts, vec!["key".to_string(), "value".to_string()]);
}

#[test]
fn renders_decimals() {
    assert_eq!(usize_to_string(0), "0");
    assert_eq!(usize_to_string(7), "7");
    assert_eq!(usize_to_string(5210), "5210");
}

#[test]
fn parses_unsigned_decimals_up_to_a_cap() {
    assert_eq!(parse_uint_capped("15", 15), Some(15));
    assert_eq!(parse_uint_capped("16", 15), None);
    assert_eq!(parse_uint_capped("+3", 15), Some(3));
    assert_eq!(parse_uint_capped("", 15), None);
    assert_eq!(parse_uint_capped("1a", 15), None);
}

#[test]
fn parses_timeouts_to_millis() {
    assert_eq!(parse_timeout_millis("1"), Some(1000));
    assert_eq!(parse_timeout_millis("0.3"), Some(300));
    assert_eq!(parse_timeout_millis("1.5"), Some(1500));
    assert_eq!(parse_timeout_millis("2."), Some(2000));
    assert_eq!(parse_timeout_millis(".25"), Some(250));
    assert_eq!(parse_timeout_millis("0.1239"), Some(123));
    assert_eq!(parse_timeout_millis("+2"), Some(2000));
    assert_eq!(parse_timeout_millis("0"), Some(0));
    assert_eq!(parse_timeout_millis("-1"), None);
    assert_eq!(parse_timeout_millis("."), None);
    assert_eq!(parse_timeout_millis("abc"), None);
}

#[test]
fn frames_count_bytes_not_characters() {
    // A two-byte UTF-8 character is declared with its byte length.
    let encoded = req(&["SET", "clé", "café"]);
    assert_eq!(encoded, "*3\r\n$3\r\nSET\r\n$4\r\ncl\u{e9}\r\n$5\r\ncaf\u{e9}\r\n");
    let (cmd, _) = parse_request(&encoded).unwrap();
    assert!(matches!(cmd, Command::SetValue(ref k, ref v) if k == "clé" && v == "café"));
    // Declaring the character count instead is a framing error.
    assert!(matches!(
        parse_request("*2\r\n$3\r\nGET\r\n$3\r\ncl\u{e9}\r\n"),
        Err("Invalid request format")
    ));
}
