use gap_core::codec::{decode, encode};
use gap_core::schema::{DecodeError, Intent, Item, Mon, Msg, Nearby, Player, State, UiState};

fn round_trips(m: Msg) {
    let text = encode(&m);
    let back = decode(text.as_str()).expect("canonical text must decode");
    assert_eq!(back, m);
}

#[test]
fn round_trip_move_to_edge_values() {
    round_trips(Msg::Intent {
        seq: 7,
        data: Intent::MoveTo { x: i32::MIN, y: i32::MAX, target_tick: None },
    });
    round_trips(Msg::Intent {
        seq: 0,
        data: Intent::MoveTo { x: 10, y: 20, target_tick: Some(u64::MAX) },
    });
    round_trips(Msg::Intent {
        seq: u64::MAX,
        data: Intent::MoveTo { x: 0, y: -1, target_tick: Some(0) },
    });
}

#[test]
fn round_trip_every_intent_variant() {
    round_trips(Msg::Intent { seq: 1, data: Intent::UsePotion { slot: Some(2) } });
    round_trips(Msg::Intent { seq: 2, data: Intent::UsePotion { slot: None } });
    round_trips(Msg::Intent { seq: 3, data: Intent::Say { text: String::from("hello") } });
    round_trips(Msg::Intent { seq: 4, data: Intent::Stop {} });
}

#[test]
fn round_trip_say_with_escapes() {
    let texts = [
        "quote \" backslash \\ done",
        "line\nbreak\r\ttab",
        "",
        "unicode: héllo ☃",
    ];
    for t in texts {
        round_trips(Msg::Intent { seq: 9, data: Intent::Say { text: String::from(t) } });
    }
}

#[test]
fn round_trip_other_messages() {
    round_trips(Msg::Hello { version: String::from("0.2.0"), agent: Some(String::from("poc")) });
    round_trips(Msg::Hello { version: String::from("1.0.0"), agent: None });
    round_trips(Msg::Ack { seq: 5, tick: 1234 });
    round_trips(Msg::Error { seq: Some(8), reason: String::from("bad slot") });
    round_trips(Msg::Error { seq: None, reason: String::from("oops") });
    round_trips(Msg::Ping);
    round_trips(Msg::Pong);
}

#[test]
fn encode_ack_exact_text() {
    let text = encode(&Msg::Ack { seq: 5, tick: 9 });
    assert_eq!(text, "{\"type\":\"ack\",\"seq\":5,\"tick\":9}");
}

#[test]
fn encode_hello_exact_text() {
    let text = encode(&Msg::Hello {
        version: String::from("0.2.0"),
        agent: Some(String::from("poc")),
    });
    assert_eq!(text, "{\"type\":\"hello\",\"version\":\"0.2.0\",\"agent\":\"poc\"}");
    let text2 = encode(&Msg::Hello { version: String::from("0.2.0"), agent: None });
    assert_eq!(text2, "{\"type\":\"hello\",\"version\":\"0.2.0\",\"agent\":null}");
}

#[test]
fn encode_intent_exact_text() {
    let text = encode(&Msg::Intent {
        seq: 5,
        data: Intent::MoveTo { x: 10, y: 20, target_tick: None },
    });
    assert_eq!(
        text,
        "{\"type\":\"intent\",\"seq\":5,\"data\":{\"cmd\":\"move_to\",\"x\":10,\"y\":20,\"targetTick\":null}}"
    );
}

#[test]
fn encode_state_exact_text() {
    let state = State {
        player: Player {
            hp: 72,
            hp_max: 100,
            mana: 40,
            mana_max: 90,
            pos: [48, 52],
            level: 1,
            in_town: true,
        },
        nearby: Nearby {
            monsters: vec![Mon { id: 1, kind: String::from("SK"), pos: [51, 54], hp_percent: 60 }],
            items: vec![Item { id: 101, pos: [45, 50] }],
            other_players: vec![()],
        },
        ui_state: UiState { in_menu: false, in_store: false, can_act: true },
    };
    let text = encode(&Msg::State { tick: 1, tick_rate: 30, data: state });
    assert_eq!(
        text,
        "{\"type\":\"state\",\"tick\":1,\"tick_rate\":30,\"data\":{\"player\":{\"hp\":72,\"hp_max\":100,\"mana\":40,\"mana_max\":90,\"pos\":[48,52],\"level\":1,\"in_town\":true},\"nearby\":{\"monsters\":[{\"id\":1,\"kind\":\"SK\",\"pos\":[51,54],\"hp_percent\":60}],\"items\":[{\"id\":101,\"pos\":[45,50]}],\"other_players\":[null]},\"ui_state\":{\"in_menu\":false,\"in_store\":false,\"can_act\":true}}}"
    );
}

#[test]
fn decode_canonical_texts() {
    assert_eq!(decode("{\"type\":\"ping\"}"), Ok(Msg::Ping));
    assert_eq!(decode("{\"type\":\"pong\"}"), Ok(Msg::Pong));
    assert_eq!(
        decode("{\"type\":\"ack\",\"seq\":5,\"tick\":9}"),
        Ok(Msg::Ack { seq: 5, tick: 9 })
    );
    assert_eq!(
        decode("{\"type\":\"error\",\"seq\":null,\"reason\":\"oops\"}"),
        Ok(Msg::Error { seq: None, reason: String::from("oops") })
    );
    assert_eq!(
        decode("{\"type\":\"intent\",\"seq\":5,\"data\":{\"cmd\":\"move_to\",\"x\":10,\"y\":20,\"targetTick\":null}}"),
        Ok(Msg::Intent { seq: 5, data: Intent::MoveTo { x: 10, y: 20, target_tick: None } })
    );
    assert_eq!(
        decode("{\"type\":\"intent\",\"seq\":1,\"data\":{\"cmd\":\"say\",\"text\":\"a\\\"b\"}}"),
        Ok(Msg::Intent { seq: 1, data: Intent::Say { text: String::from("a\"b") } })
    );
}

#[test]
fn decode_rejects_malformed_text() {
    let bad = [
        "",
        "{",
        "not json at all",
        "{\"type\":\"zap\"}",
        "{\"type\":\"ack\",\"seq\":,\"tick\":9}",
        "{\"type\":\"ack\",\"seq\":01,\"tick\":9}",
        "{\"type\":\"ack\",\"tick\":9,\"seq\":5}",
        "{\"type\":\"intent\",\"seq\":5,\"data\":{\"cmd\":\"warp\"}}",
        "{\"type\":\"ping\"} ",
        "{\"type\":\"ping\"}{\"type\":\"ping\"}",
    ];
    for t in bad {
        assert_eq!(decode(t), Err(DecodeError::Malformed), "input: {t:?}");
    }
}

#[test]
fn decode_rejects_unescaped_control_characters() {
    assert_eq!(
        decode("{\"type\":\"error\",\"seq\":null,\"reason\":\"a\nb\"}"),
        Err(DecodeError::Malformed)
    );
}

#[test]
fn round_trip_state_message() {
    let state = State {
        player: Player {
            hp: 72,
            hp_max: 100,
            mana: 40,
            mana_max: 90,
            pos: [-3, 52],
            level: 1,
            in_town: false,
        },
        nearby: Nearby {
            monsters: vec![
                Mon { id: 1, kind: String::from("SK"), pos: [51, 54], hp_percent: 60 },
                Mon { id: 2, kind: String::from("zombie \"Z\""), pos: [0, -9], hp_percent: 0 },
            ],
            items: vec![Item { id: 101, pos: [45, 50] }, Item { id: 102, pos: [1, 2] }],
            other_players: vec![(), ()],
        },
        ui_state: UiState { in_menu: true, in_store: false, can_act: true },
    };
    let m = Msg::State { tick: 77, tick_rate: 30, data: state };
    let text = encode(&m);
    assert_eq!(decode(text.as_str()), Ok(m));
}

#[test]
fn round_trip_state_message_empty_lists() {
    let state = State {
        player: Player {
            hp: 72,
            hp_max: 100,
            mana: 40,
            mana_max: 90,
            pos: [48, 52],
            level: 1,
            in_town: true,
        },
        nearby: Nearby { monsters: vec![], items: vec![], other_players: vec![] },
        ui_state: UiState { in_menu: false, in_store: false, can_act: false },
    };
    let m = Msg::State { tick: 0, tick_rate: 30, data: state };
    let text = encode(&m);
    assert_eq!(decode(text.as_str()), Ok(m));
}
