use gap_core::codec::encode;
use gap_core::handler::{Action, Conn, ConnEvent, ConnState, BROADCAST_INTERVAL_MS};
use gap_core::schema::{Intent, Msg, Nearby, Player, State, UiState};

fn empty_state() -> State {
    State {
        player: Player {
            hp: 72,
            hp_max: 100,
            mana: 40,
            mana_max: 90,
            pos: [48, 52],
            level: 1,
            in_town: true,
        },
        nearby: Nearby { monsters: vec![], items: vec![], other_players: vec![] },
        ui_state: UiState { in_menu: false, in_store: false, can_act: true },
    }
}

fn open_conn() -> Conn {
    let mut c = Conn::new(0);
    let hello = c.step(ConnEvent::Established);
    assert_eq!(hello.len(), 1);
    assert_eq!(
        hello[0],
        Action::Send(Msg::Hello { version: String::from("0.2.0"), agent: Some(String::from("poc")) })
    );
    assert_eq!(c.state, ConnState::Greeted);
    let none = c.step(ConnEvent::LoopEntered);
    assert!(none.is_empty());
    assert_eq!(c.state, ConnState::Active);
    c
}

#[test]
fn intent_frame_gets_exactly_one_ack() {
    let mut c = open_conn();
    let frame = encode(&Msg::Intent {
        seq: 5,
        data: Intent::MoveTo { x: 10, y: 20, target_tick: None },
    });
    let actions = c.step(ConnEvent::Frame { text: frame, tick: 42 });
    assert_eq!(
        actions,
        vec![
            Action::PushIntent(Intent::MoveTo { x: 10, y: 20, target_tick: None }),
            Action::Send(Msg::Ack { seq: 5, tick: 42 }),
        ]
    );
    let acks = actions
        .iter()
        .filter(|a| matches!(a, Action::Send(Msg::Ack { .. })))
        .count();
    assert_eq!(acks, 1);
}

#[test]
fn malformed_frame_is_silently_discarded() {
    let mut c = open_conn();
    let actions = c.step(ConnEvent::Frame { text: String::from("{nonsense"), tick: 3 });
    assert!(actions.is_empty());
    assert_eq!(c.state, ConnState::Active);
}

#[test]
fn non_intent_message_is_ignored() {
    let mut c = open_conn();
    let frame = encode(&Msg::Pong);
    let actions = c.step(ConnEvent::Frame { text: frame, tick: 3 });
    assert!(actions.is_empty());
}

#[test]
fn broadcast_cadence_and_increasing_ticks() {
    // A connection open for 100 ms with no inbound traffic fires its
    // deadline at 0, 33 and 66: at least two state messages, each with a
    // larger tick and the same rate.
    let mut c = open_conn();
    let mut sent: Vec<Msg> = Vec::new();
    let mut tick: u64 = 10;
    for _ in 0..3 {
        let due = c.deadline;
        assert!(due <= 100);
        let actions = c.step(ConnEvent::BroadcastDue {
            tick,
            tick_rate: 30,
            data: empty_state(),
        });
        assert_eq!(c.deadline, due + BROADCAST_INTERVAL_MS);
        assert_eq!(actions.len(), 1);
        match &actions[0] {
            Action::Send(m) => sent.push(m.clone()),
            other => panic!("unexpected action {other:?}"),
        }
        tick += 1;
    }
    assert!(sent.len() >= 2);
    let mut last: Option<u64> = None;
    for m in &sent {
        match m {
            Msg::State { tick, tick_rate, .. } => {
                assert_eq!(*tick_rate, 30);
                if let Some(prev) = last {
                    assert!(*tick > prev);
                }
                last = Some(*tick);
            },
            other => panic!("unexpected message {other:?}"),
        }
    }
}

#[test]
fn two_connections_are_independent() {
    let mut a = open_conn();
    let mut b = open_conn();
    // closing one must not affect delivery to the other
    let none = a.step(ConnEvent::InboundClosed);
    assert!(none.is_empty());
    assert_eq!(a.state, ConnState::Closed);
    let actions = b.step(ConnEvent::BroadcastDue { tick: 1, tick_rate: 30, data: empty_state() });
    assert_eq!(actions.len(), 1);
    assert_eq!(b.state, ConnState::Active);
}

#[test]
fn send_failure_closes_the_connection() {
    let mut c = open_conn();
    let none = c.step(ConnEvent::SendFailed);
    assert!(none.is_empty());
    assert_eq!(c.state, ConnState::Closed);
}
