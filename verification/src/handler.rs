//! Per-connection protocol state machine. The transport loop outside feeds
//! events in (an accepted handshake, an inbound frame with the tick read at
//! that moment, an elapsed broadcast deadline with a fresh snapshot, a
//! close) and performs the returned actions: pushing an intent into the
//! shared buffer and sending messages back to this connection's client.

use vstd::prelude::*;
use crate::schema::Intent;
use crate::schema::Msg;
use crate::schema::State;
use crate::schema::intent_eqv;
use crate::codec::decode;
use crate::codec::whole_msg;

verus! {

/// Milliseconds between two scheduled broadcasts to one connection.
pub const BROADCAST_INTERVAL_MS: u64 = 33;

/// Lifecycle of one connection; all transitions are one-way.
#[derive(Clone, Copy, Debug, PartialEq, Eq, Structural)]
pub enum ConnState {
    Handshaking,
    Greeted,
    Active,
    Closed,
}

/// What the transport loop observed for this connection.
#[derive(Clone, Debug, PartialEq)]
pub enum ConnEvent {
    /// The transport handshake finished.
    Established,
    /// The select loop is entered after the greeting was sent.
    LoopEntered,
    /// An inbound text frame arrived; `tick` is the simulation tick read at
    /// the moment of acknowledgment.
    Frame { text: String, tick: u64 },
    /// The broadcast deadline elapsed; the fields are a fresh snapshot.
    BroadcastDue { tick: u64, tick_rate: u32, data: State },
    /// The inbound stream closed or failed.
    InboundClosed,
    /// An outbound send failed.
    SendFailed,
}

/// What the transport loop must do next, in order.
#[derive(Clone, Debug, PartialEq)]
pub enum Action {
    /// Append this intent to the shared intent buffer.
    PushIntent(Intent),
    /// Encode this message and send it to this connection's client.
    Send(Msg),
}

/// Which events may reach which state: the loop drives each connection
/// through `Handshaking`, `Greeted`, `Active`, and `Closed` in that order.
pub open spec fn event_allowed(st: ConnState, ev: ConnEvent) -> bool {
    match ev {
        ConnEvent::Established => st == ConnState::Handshaking,
        ConnEvent::LoopEntered => st == ConnState::Greeted,
        ConnEvent::Frame { .. } => st == ConnState::Active,
        ConnEvent::BroadcastDue { .. } => st == ConnState::Active,
        ConnEvent::InboundClosed => true,
        ConnEvent::SendFailed => true,
    }
}

/// The state after an event: greeting follows the handshake, the loop makes
/// the connection active, closing is terminal for either direction.
pub open spec fn next_state(ev: ConnEvent) -> ConnState {
    match ev {
        ConnEvent::Established => ConnState::Greeted,
        ConnEvent::LoopEntered => ConnState::Active,
        ConnEvent::Frame { .. } => ConnState::Active,
        ConnEvent::BroadcastDue { .. } => ConnState::Active,
        ConnEvent::InboundClosed => ConnState::Closed,
        ConnEvent::SendFailed => ConnState::Closed,
    }
}

/// Exactly which actions each event produces. The handshake sends one
/// greeting. A frame that is one canonical intent message pushes that
/// intent and sends exactly one acknowledgment echoing its sequence number
/// with the tick read at receipt; any other frame is silently discarded. An
/// elapsed deadline sends exactly one state broadcast carrying the fresh
/// snapshot. Everything else does nothing.
pub open spec fn step_actions_ok(ev: ConnEvent, actions: Seq<Action>) -> bool {
    match ev {
        ConnEvent::Established => actions.len() == 1 && (actions[0] matches Action::Send(m) && (
        m matches Msg::Hello { version, agent } && version@ == "0.2.0"@ && (agent matches Some(a)
            && a@ == "poc"@))),
        ConnEvent::LoopEntered => actions == Seq::<Action>::empty(),
        ConnEvent::InboundClosed => actions == Seq::<Action>::empty(),
        ConnEvent::SendFailed => actions == Seq::<Action>::empty(),
        ConnEvent::Frame { text, tick } => (forall|sq: u64, d: Intent|
            #[trigger] whole_msg(text@, Msg::Intent { seq: sq, data: d }) ==> actions.len() == 2
                && (actions[0] matches Action::PushIntent(di) && intent_eqv(di, d)) && (
            actions[1] matches Action::Send(am) && am == Msg::Ack { seq: sq, tick: tick })) && ((
        !(exists|sq: u64, d: Intent|
            #[trigger] whole_msg(
                text@,
                Msg::Intent { seq: sq, data: d },
            ))) ==> actions == Seq::<Action>::empty()),
        ConnEvent::BroadcastDue { tick, tick_rate, data } => actions == seq![
            Action::Send(Msg::State { tick: tick, tick_rate: tick_rate, data: data }),
        ],
    }
}

/// One client connection: its lifecycle state and the next scheduled
/// broadcast deadline, in milliseconds of the loop's clock.
pub struct Conn {
    pub state: ConnState,
    pub deadline: u64,
}

impl Conn {
    /// A fresh connection: handshaking, with the first broadcast scheduled
    /// at the accept time itself.
    pub fn new(now: u64) -> (c: Conn)
        ensures
            c.state == ConnState::Handshaking,
            c.deadline == now,
    {
        Conn { state: ConnState::Handshaking, deadline: now }
    }

    /// Feed one event through the state machine and collect the actions the
    /// loop must perform, as `step_actions_ok` states them. On an elapsed
    /// deadline the next one is scheduled one fixed interval after the
    /// previous scheduled deadline, not after the current instant, so the
    /// broadcast cadence does not drift under load.
    pub fn step(&mut self, ev: ConnEvent) -> (actions: Vec<Action>)
        requires
            event_allowed(old(self).state, ev),
            (ev matches ConnEvent::BroadcastDue { .. }) ==> old(self).deadline
                + BROADCAST_INTERVAL_MS <= u64::MAX,
        ensures
            final(self).state == next_state(ev),
            final(self).deadline == (if ev matches ConnEvent::BroadcastDue { .. } {
                old(self).deadline + BROADCAST_INTERVAL_MS
            } else {
                old(self).deadline as int
            }),
            step_actions_ok(ev, actions@),
    {
        let mut actions: Vec<Action> = Vec::new();
        match ev {
            ConnEvent::Established => {
                self.state = ConnState::Greeted;
                let hello = Msg::Hello {
                    version: new_version_string(),
                    agent: Some(new_agent_string()),
                };
                actions.push(Action::Send(hello));
            },
            ConnEvent::LoopEntered => {
                self.state = ConnState::Active;
            },
            ConnEvent::Frame { text, tick } => {
                match decode(text.as_str()) {
                    Ok(Msg::Intent { seq, data }) => {
                        actions.push(Action::PushIntent(data));
                        actions.push(Action::Send(Msg::Ack { seq, tick }));
                        proof {
                            assert(whole_msg(text@, Msg::Intent { seq: seq, data: data }));
                        }
                    },
                    Ok(other) => {
                        proof {
                            assert forall|sq: u64, d: Intent|
                                #[trigger] whole_msg(
                                    text@,
                                    Msg::Intent { seq: sq, data: d },
                                ) implies false by {}
                        }
                    },
                    Err(_) => {
                        proof {
                            assert forall|sq: u64, d: Intent|
                                #[trigger] whole_msg(
                                    text@,
                                    Msg::Intent { seq: sq, data: d },
                                ) implies false by {}
                        }
                    },
                }
            },
            ConnEvent::BroadcastDue { tick, tick_rate, data } => {
                self.deadline = self.deadline + BROADCAST_INTERVAL_MS;
                actions.push(Action::Send(Msg::State { tick, tick_rate, data }));
                proof {
                    assert(actions@ =~= seq![
                        Action::Send(Msg::State { tick: tick, tick_rate: tick_rate, data: data }),
                    ]);
                }
            },
            ConnEvent::InboundClosed => {
                self.state = ConnState::Closed;
            },
            ConnEvent::SendFailed => {
                self.state = ConnState::Closed;
            },
        }
        actions
    }
}

/// The protocol version the greeting reports.
fn new_version_string() -> (r: String)
    ensures
        r@ == "0.2.0"@,
{
    "0.2.0".to_owned()
}

/// The agent name the greeting reports.
fn new_agent_string() -> (r: String)
    ensures
        r@ == "poc"@,
{
    "poc".to_owned()
}

} // verus!
