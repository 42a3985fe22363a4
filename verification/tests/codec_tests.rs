use broadcast_core::codec::event_data;
use broadcast_core::decode::parse_event_data;
use broadcast_core::msg::{Msg, Paste, UserMsg};

fn sample_msg() -> UserMsg {
    UserMsg {
        nick: String::from("alice"),
        custom_nick_color: Some(String::from("#ff0000")),
        msg: String::from("hello there"),
        time: 1600000000,
    }
}

fn sample_paste() -> Paste {
    Paste {
        id: 42,
        filename: Some(String::from("notes.txt")),
        content: Some(String::from("line one\nline two")),
        creation_date: 1600000001,
    }
}

#[test]
fn ping_frame_is_exact() {
    let frame = event_data(&Msg::Ping);
    assert_eq!(frame, "data: {\"type\":\"Ping\"}\n\n");
}

#[test]
fn message_frame_is_exact() {
    let um = UserMsg {
        nick: String::from("alice"),
        custom_nick_color: None,
        msg: String::from("hi"),
        time: 5,
    };
    let frame = event_data(&Msg::user_msg(um));
    assert_eq!(
        frame,
        "data: {\"type\":\"Message\",\"data\":{\"nick\":\"alice\",\"custom_nick_color\":null,\"msg\":\"hi\",\"time\":\"1970-01-01T00:00:05Z\"}}\n\n"
    );
}

#[test]
fn connected_frame_of_empty_history_is_exact() {
    let frame = event_data(&Msg::connected(&Vec::new()));
    assert_eq!(frame, "data: {\"type\":\"Connected\",\"data\":[]}\n\n");
}

#[test]
fn nick_and_color_change_frames_are_exact() {
    assert_eq!(
        event_data(&Msg::nick_change_msg(String::from("bob"))),
        "data: {\"type\":\"NickChange\",\"data\":\"bob\"}\n\n"
    );
    assert_eq!(
        event_data(&Msg::color_change_msg(String::from("#00ff00"))),
        "data: {\"type\":\"ColorChange\",\"data\":\"#00ff00\"}\n\n"
    );
}

#[test]
fn negative_ids_are_encoded_with_sign() {
    let p = Paste { id: -7, filename: None, content: None, creation_date: 0 };
    let frame = event_data(&Msg::paste_msg(p));
    assert_eq!(
        frame,
        "data: {\"type\":\"Paste\",\"data\":{\"id\":-7,\"filename\":null,\"content\":null,\"creation_date\":\"1970-01-01T00:00:00Z\"}}\n\n"
    );
}

#[test]
fn string_escaping_is_exact() {
    let um = UserMsg {
        nick: String::from("a\"b\\c"),
        custom_nick_color: None,
        msg: String::from("line\nbreak\ttab"),
        time: 0,
    };
    let frame = event_data(&Msg::user_msg(um));
    assert_eq!(
        frame,
        "data: {\"type\":\"Message\",\"data\":{\"nick\":\"a\\\"b\\\\c\",\"custom_nick_color\":null,\"msg\":\"line\\u000abreak\\u0009tab\",\"time\":\"1970-01-01T00:00:00Z\"}}\n\n"
    );
}

#[test]
fn roundtrip_ping() {
    let frame = event_data(&Msg::Ping);
    assert_eq!(parse_event_data(&frame), Some(Msg::Ping));
}

#[test]
fn roundtrip_message() {
    let m = Msg::Message(sample_msg());
    let frame = event_data(&m);
    assert_eq!(parse_event_data(&frame), Some(m));
}

#[test]
fn roundtrip_connected_with_history() {
    let history = vec![
        sample_msg(),
        UserMsg {
            nick: String::from("bob"),
            custom_nick_color: None,
            msg: String::from("quote \" backslash \\ done"),
            time: 3,
        },
    ];
    let m = Msg::Connected(history);
    let frame = event_data(&m);
    assert_eq!(parse_event_data(&frame), Some(m));
}

#[test]
fn roundtrip_connected_empty() {
    let m = Msg::Connected(Vec::new());
    let frame = event_data(&m);
    assert_eq!(parse_event_data(&frame), Some(m));
}

#[test]
fn roundtrip_paste() {
    let m = Msg::Paste(sample_paste());
    let frame = event_data(&m);
    assert_eq!(parse_event_data(&frame), Some(m));
}

#[test]
fn roundtrip_paste_extremes() {
    let p = Paste {
        id: i64::MIN,
        filename: Some(String::new()),
        content: None,
        creation_date: 253402300799,
    };
    let m = Msg::Paste(p);
    let frame = event_data(&m);
    assert_eq!(parse_event_data(&frame), Some(m));
}

#[test]
fn roundtrip_nick_change() {
    let m = Msg::NickChange(String::from("new\u{1}nick \u{263a}"));
    let frame = event_data(&m);
    assert_eq!(parse_event_data(&frame), Some(m));
}

#[test]
fn roundtrip_color_change() {
    let m = Msg::ColorChange(String::from("#123456"));
    let frame = event_data(&m);
    assert_eq!(parse_event_data(&frame), Some(m));
}

#[test]
fn parse_rejects_non_frames() {
    assert_eq!(parse_event_data(""), None);
    assert_eq!(parse_event_data("data: "), None);
    assert_eq!(parse_event_data("data: {\"type\":\"Ping\"}"), None);
    assert_eq!(parse_event_data("{\"type\":\"Ping\"}\n\n"), None);
    assert_eq!(parse_event_data("data: {\"type\":\"Pong\"}\n\n"), None);
    assert_eq!(parse_event_data("data: {\"type\":\"Ping\"}\n\nx"), None);
}

#[test]
fn frames_carry_valid_json() {
    let frames = vec![
        event_data(&Msg::Ping),
        event_data(&Msg::user_msg(sample_msg())),
        event_data(&Msg::paste_msg(sample_paste())),
        event_data(&Msg::connected(&vec![sample_msg()])),
        event_data(&Msg::nick_change_msg(String::from("bob"))),
        event_data(&Msg::color_change_msg(String::from("#00ff00"))),
    ];
    for frame in frames {
        let json = frame
            .strip_prefix("data: ")
            .and_then(|rest| rest.strip_suffix("\n\n"))
            .expect("frame framing");
        let value: serde_json::Value = serde_json::from_str(json).expect("frame body is JSON");
        assert!(value.get("type").is_some());
    }
}

#[test]
fn message_json_fields_match_payload() {
    let frame = event_data(&Msg::user_msg(sample_msg()));
    let json = frame
        .strip_prefix("data: ")
        .and_then(|rest| rest.strip_suffix("\n\n"))
        .unwrap();
    let value: serde_json::Value = serde_json::from_str(json).unwrap();
    assert_eq!(value.get("type").unwrap().as_str(), Some("Message"));
    let data = value.get("data").unwrap();
    assert_eq!(data.get("nick").unwrap().as_str(), Some("alice"));
    assert_eq!(data.get("custom_nick_color").unwrap().as_str(), Some("#ff0000"));
    assert_eq!(data.get("msg").unwrap().as_str(), Some("hello there"));
    assert_eq!(data.get("time").unwrap().as_str(), Some("2020-09-13T12:26:40Z"));
}

#[test]
fn control_characters_survive_json_encoding() {
    let um = UserMsg {
        nick: String::from("n"),
        custom_nick_color: None,
        msg: String::from("a\nb\rc\0d"),
        time: 0,
    };
    let frame = event_data(&Msg::user_msg(um));
    let json = frame
        .strip_prefix("data: ")
        .and_then(|rest| rest.strip_suffix("\n\n"))
        .unwrap();
    let value: serde_json::Value = serde_json::from_str(json).unwrap();
    assert_eq!(
        value.get("data").unwrap().get("msg").unwrap().as_str(),
        Some("a\nb\rc\0d")
    );
}

#[test]
fn timestamps_render_as_rfc3339() {
    let cases: Vec<(u64, &str)> = vec![
        (5, "1970-01-01T00:00:05Z"),
        (1600000001, "2020-09-13T12:26:41Z"),
        (1582934400, "2020-02-29T00:00:00Z"),
        (4107542400, "2100-03-01T00:00:00Z"),
        (253402300799, "9999-12-31T23:59:59Z"),
    ];
    for (ts, expected) in cases {
        let um = UserMsg {
            nick: String::from("n"),
            custom_nick_color: None,
            msg: String::from("m"),
            time: ts,
        };
        let frame = event_data(&Msg::user_msg(um));
        assert!(frame.contains(expected), "{} not rendered as {}", ts, expected);
        match parse_event_data(&frame) {
            Some(Msg::Message(back)) => assert_eq!(back.time, ts),
            other => panic!("round trip failed: {:?}", other),
        }
    }
}
