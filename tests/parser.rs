use base64::Engine;
use osc_parser::{interpret, text_event, OscEvent, OscParser};

fn encode(text: &str) -> String {
    base64::engine::general_purpose::STANDARD.encode(text)
}

fn feed_all(nonce: &str, input: &[u8]) -> Vec<OscEvent> {
    let mut parser = OscParser::new(nonce.to_string());
    parser.feed(input)
}

#[test]
fn test_prompt_start() {
    let mut parser = OscParser::new("test123".to_string());
    let input = b"\x1b]133;A;vibe=test123\x07";
    let events = parser.feed(input);
    assert_eq!(events.len(), 1);
    assert!(matches!(events[0], OscEvent::PromptStart));
}

#[test]
fn test_command_end() {
    let mut parser = OscParser::new("test123".to_string());
    let input = b"\x1b]133;D;0;vibe=test123\x07";
    let events = parser.feed(input);
    assert_eq!(events.len(), 1);
    if let OscEvent::CommandEnd(code) = events[0] {
        assert_eq!(code, 0);
    } else {
        panic!("Expected CommandEnd event");
    }
}

#[test]
fn command_start_event() {
    let events = feed_all("n1", b"\x1b]133;C;vibe=n1\x07");
    assert_eq!(events, vec![OscEvent::CommandStart]);
}

#[test]
fn command_end_codes() {
    assert_eq!(feed_all("n1", b"\x1b]133;D;127;vibe=n1\x07"), vec![OscEvent::CommandEnd(127)]);
    assert_eq!(feed_all("n1", b"\x1b]133;D;-1;vibe=n1\x07"), vec![OscEvent::CommandEnd(-1)]);
    assert_eq!(feed_all("n1", b"\x1b]133;D;+5;vibe=n1\x07"), vec![OscEvent::CommandEnd(5)]);
    assert_eq!(
        feed_all("n1", b"\x1b]133;D;-2147483648;vibe=n1\x07"),
        vec![OscEvent::CommandEnd(i32::MIN)]
    );
    assert_eq!(
        feed_all("n1", b"\x1b]133;D;2147483647;vibe=n1\x07"),
        vec![OscEvent::CommandEnd(i32::MAX)]
    );
}

#[test]
fn command_end_bad_code_is_dropped() {
    assert!(feed_all("n1", b"\x1b]133;D;2147483648;vibe=n1\x07").is_empty());
    assert!(feed_all("n1", b"\x1b]133;D;12x;vibe=n1\x07").is_empty());
    assert!(feed_all("n1", b"\x1b]133;D;;vibe=n1\x07").is_empty());
    assert!(feed_all("n1", b"\x1b]133;D;-;vibe=n1\x07").is_empty());
}

#[test]
fn command_end_without_code_field_defaults_to_zero() {
    // The field after `D` is the tag, not an exit code.
    assert_eq!(feed_all("n1", b"\x1b]133;D;vibe=n1\x07"), vec![OscEvent::CommandEnd(0)]);
    assert_eq!(feed_all("n1", b"\x1b]133;D;vibe=n1\x1b\\"), vec![OscEvent::CommandEnd(0)]);
    assert_eq!(feed_all("n1", b"\x1b]133;D;vibe=x;vibe=n1\x07"), vec![OscEvent::CommandEnd(0)]);
    // A field that merely holds `vibe=` later is still read as a code.
    assert!(feed_all("n1", b"\x1b]133;D;xvibe=n1\x07").is_empty());
}

#[test]
fn command_end_without_further_field_defaults_to_zero() {
    assert_eq!(feed_all("n1", b"\x1b]133;Dvibe=n1\x07"), vec![OscEvent::CommandEnd(0)]);
}

#[test]
fn command_text_event() {
    let input = format!("\x1b]133;VIBE;CMD;{};vibe=n1\x07", encode("ls -la | grep é"));
    assert_eq!(
        feed_all("n1", input.as_bytes()),
        vec![OscEvent::CommandText("ls -la | grep é".to_string())]
    );
    let empty = format!("\x1b]133;VIBE;CMD;{};vibe=n1\x07", encode(""));
    assert_eq!(feed_all("n1", empty.as_bytes()), vec![OscEvent::CommandText(String::new())]);
}

#[test]
fn command_text_malformed_is_dropped() {
    assert!(feed_all("n1", b"\x1b]133;VIBE;CMD;!!!;vibe=n1\x07").is_empty());
    // Decodes to the bytes ff fe, which are not UTF-8.
    assert!(feed_all("n1", b"\x1b]133;VIBE;CMD;//4=;vibe=n1\x07").is_empty());
    // Padding is required.
    assert!(feed_all("n1", b"\x1b]133;VIBE;CMD;bHM;vibe=n1\x07").is_empty());
    assert!(feed_all("n1", b"\x1b]133;VIBE;CMD\x07vibe=n1").is_empty());
}

#[test]
fn wrong_or_missing_nonce_is_dropped() {
    assert!(feed_all("n1", b"\x1b]133;A;vibe=other\x07").is_empty());
    assert!(feed_all("n1", b"\x1b]133;A\x07").is_empty());
    assert!(feed_all("n1", b"\x1b]133;C;vibe=\x07").is_empty());
}

#[test]
fn foreign_sequences_are_dropped() {
    assert!(feed_all("n1", b"\x1b]0;title vibe=n1\x07").is_empty());
    assert!(feed_all("n1", b"\x1b]133;B;vibe=n1\x07").is_empty());
    assert!(feed_all("n1", b"\x1b]133\x07").is_empty());
}

#[test]
fn plain_bytes_yield_nothing() {
    let mut parser = OscParser::new("n1".to_string());
    assert!(parser.feed(b"hello world\r\n\x07]133;A;vibe=n1").is_empty());
    assert!(parser.feed(b"").is_empty());
    // The parser is still in its normal state: a full sequence is recognised.
    assert_eq!(parser.feed(b"\x1b]133;A;vibe=n1\x07"), vec![OscEvent::PromptStart]);
}

#[test]
fn string_terminator_matches_bell() {
    let bel = feed_all("n1", b"\x1b]133;D;3;vibe=n1\x07");
    let st = feed_all("n1", b"\x1b]133;D;3;vibe=n1\x1b\\");
    assert_eq!(bel, vec![OscEvent::CommandEnd(3)]);
    assert_eq!(st, bel);
}

#[test]
fn chunked_input_matches_whole_input() {
    let cmd = format!("\x1b]133;VIBE;CMD;{};vibe=n1\x1b\\", encode("make test"));
    let mut whole = b"out\x1b]133;A;vibe=n1\x07text\x1b]133;C;vibe=n1\x07".to_vec();
    whole.extend_from_slice(cmd.as_bytes());
    whole.extend_from_slice(b"\x1b]133;D;1;vibe=n1\x1b\\");
    let expected = feed_all("n1", &whole);
    assert_eq!(
        expected,
        vec![
            OscEvent::PromptStart,
            OscEvent::CommandStart,
            OscEvent::CommandText("make test".to_string()),
            OscEvent::CommandEnd(1),
        ]
    );
    for cut in 0..=whole.len() {
        let mut parser = OscParser::new("n1".to_string());
        let mut got = parser.feed(&whole[..cut]);
        got.extend(parser.feed(&whole[cut..]));
        assert_eq!(got, expected);
    }
    let mut parser = OscParser::new("n1".to_string());
    let mut got = Vec::new();
    for b in &whole {
        got.extend(parser.feed(std::slice::from_ref(b)));
    }
    assert_eq!(got, expected);
}

#[test]
fn dropped_escape_does_not_rearm() {
    assert!(feed_all("n1", b"\x1b\x1b]133;A;vibe=n1\x07").is_empty());
}

#[test]
fn first_payload_byte_is_always_kept() {
    // A BEL right after `ESC ]` is payload, not a terminator.
    assert!(feed_all("n1", b"\x1b]\x07133;A;vibe=n1\x07").is_empty());
}

#[test]
fn invalid_bytes_outside_fields_are_tolerated() {
    assert_eq!(
        feed_all("n1", b"\x1b]133;A;vibe=n1;\xff\xfe\x07"),
        vec![OscEvent::PromptStart]
    );
    // Invalid bytes are read as the replacement character, which a nonce may hold.
    assert!(feed_all("n\u{fffd}", b"\x1b]133;A;vibe=n\xff\x07").len() == 1);
}

#[test]
fn interpret_on_text() {
    let text: Vec<char> = "133;D;42;vibe=k".chars().collect();
    let nonce: Vec<char> = "k".chars().collect();
    assert_eq!(interpret(&text, &nonce), Some(OscEvent::CommandEnd(42)));
    let other: Vec<char> = "j".chars().collect();
    assert_eq!(interpret(&text, &other), None);
}

#[test]
fn text_event_on_bytes() {
    assert_eq!(
        text_event(Some(b"echo hi".to_vec())),
        Some(OscEvent::CommandText("echo hi".to_string()))
    );
    assert_eq!(text_event(Some(vec![0xc3])), None);
    assert_eq!(text_event(None), None);
}

#[test]
fn tag_is_found_anywhere_in_payload() {
    // The tag is a substring: a longer nonce that starts with ours still carries it.
    assert_eq!(feed_all("n1", b"\x1b]133;A;vibe=n12\x07"), vec![OscEvent::PromptStart]);
    assert_eq!(feed_all("n1", b"\x1b]133;C;x=vibe=n1;y\x07"), vec![OscEvent::CommandStart]);
}

#[test]
fn terminator_split_across_calls() {
    let mut parser = OscParser::new("n1".to_string());
    assert!(parser.feed(b"\x1b").is_empty());
    assert!(parser.feed(b"]133;A;vibe=n1\x1b").is_empty());
    assert_eq!(parser.feed(b"\\"), vec![OscEvent::PromptStart]);
}
