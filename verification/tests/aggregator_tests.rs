use gap_core::aggregator::coalesce;
use gap_core::schema::Intent;

fn mv(x: i32, y: i32) -> Intent {
    Intent::MoveTo { x, y, target_tick: None }
}

#[test]
fn coalesce_keeps_potion_and_last_move() {
    let buf = vec![mv(1, 1), Intent::UsePotion { slot: Some(2) }, mv(2, 2), mv(3, 3)];
    let out = coalesce(buf);
    assert_eq!(out, vec![Intent::UsePotion { slot: Some(2) }, mv(3, 3)]);
}

#[test]
fn coalesce_orders_others_then_critical_then_move() {
    let buf = vec![
        mv(1, 1),
        Intent::Say { text: String::from("hi") },
        Intent::Stop {},
        Intent::Say { text: String::from("bye") },
        Intent::UsePotion { slot: None },
        mv(9, 9),
    ];
    let out = coalesce(buf);
    assert_eq!(
        out,
        vec![
            Intent::Say { text: String::from("hi") },
            Intent::Say { text: String::from("bye") },
            Intent::Stop {},
            Intent::UsePotion { slot: None },
            mv(9, 9),
        ]
    );
}

#[test]
fn coalesce_empty_buffer_is_empty() {
    let out = coalesce(Vec::new());
    assert!(out.is_empty());
}

#[test]
fn coalesce_no_move_keeps_all_critical() {
    let buf = vec![Intent::Stop {}, Intent::UsePotion { slot: Some(1) }, Intent::Stop {}];
    let out = coalesce(buf);
    assert_eq!(
        out,
        vec![Intent::Stop {}, Intent::UsePotion { slot: Some(1) }, Intent::Stop {}]
    );
}

#[test]
fn buffer_accepts_while_downstream_stalls() {
    // While the output channel is full, connections keep pushing into the
    // shared buffer without error; when the channel drains, the next sweep
    // forwards everything still owed.
    let mut buffer: Vec<Intent> = Vec::new();
    buffer.push(mv(1, 1));
    buffer.push(Intent::UsePotion { slot: Some(3) });
    // downstream stalled: nothing taken, producers continue
    buffer.push(mv(2, 2));
    buffer.push(Intent::Say { text: String::from("still here") });
    let taken = std::mem::take(&mut buffer);
    assert!(buffer.is_empty());
    let out = coalesce(taken);
    assert_eq!(
        out,
        vec![
            Intent::Say { text: String::from("still here") },
            Intent::UsePotion { slot: Some(3) },
            mv(2, 2),
        ]
    );
}
