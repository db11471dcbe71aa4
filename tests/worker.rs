use arpchat::channel::Channel;
use arpchat::error::ArpchatError;
use arpchat::net::{EtherType, Id};
use arpchat::packet::Packet;
use arpchat::ui::{NetCommand, UICommand, UpdatePresenceKind};
use arpchat::worker::{NetThreadState, Outcome, Timing, Worker};

const A: Id = [0xa; 8];
const B: Id = [0xb; 8];

fn worker(id: Id, mac_last: u8) -> Worker {
    let channel = Channel::from_interface(Some([2, 0, 0, 0, 0, mac_last])).unwrap();
    Worker::new(id, channel, Timing::defaults(), 0)
}

/// Carries every packet of `out` from `from` to `to` over real frames.
fn carry(from: &Worker, out: &Outcome, to: &mut Worker, now: u64) -> Vec<Outcome> {
    let mut results = vec![];
    for p in &out.sends {
        for frame in from.frames(p).unwrap() {
            results.push(to.on_frame(&frame, now));
        }
    }
    results
}

fn events(outs: &[Outcome]) -> Vec<UICommand> {
    outs.iter().flat_map(|o| o.events.clone()).collect()
}

/// A and B both joined: A knows B as "bob", and A is ready.
fn joined_pair() -> (Worker, Worker) {
    let mut a = worker(A, 1);
    let mut b = worker(B, 2);
    b.on_command(NetCommand::UpdateUsername("bob".to_string()));
    let req = a.on_command(NetCommand::UpdateUsername("alice".to_string()));
    let replies = carry(&a, &req, &mut b, 0);
    for r in &replies {
        carry(&b, r, &mut a, 0);
    }
    a.on_packet(Packet::Presence(A, false, "alice".to_string()), 0);
    (a, b)
}

#[test]
fn join_is_reported() {
    let mut a = worker(A, 1);
    let mut b = worker(B, 2);
    assert_eq!(a.state(), NetThreadState::NeedsUsername);
    assert!(b.on_command(NetCommand::UpdateUsername("bob".to_string())).sends == vec![Packet::PresenceReq]);
    let req = a.on_command(NetCommand::UpdateUsername("alice".to_string()));
    assert_eq!(req.sends, vec![Packet::PresenceReq]);
    assert_eq!(a.state(), NetThreadState::NeedsInitialPresence);
    let replies = carry(&a, &req, &mut b, 0);
    let sent: Vec<Packet> = replies.iter().flat_map(|o| o.sends.clone()).collect();
    assert_eq!(sent, vec![Packet::Presence(B, true, "bob".to_string())]);
    let mut got = vec![];
    for r in &replies {
        got.extend(carry(&b, r, &mut a, 0));
    }
    assert_eq!(
        events(&got),
        vec![UICommand::PresenceUpdate(B, "bob".to_string(), false, UpdatePresenceKind::JoinOrReconnect)]
    );
}

#[test]
fn rename_is_reported() {
    let (mut a, _b) = joined_pair();
    let out = a.on_packet(Packet::Presence(B, false, "robert".to_string()), 1);
    assert_eq!(
        out.events,
        vec![UICommand::PresenceUpdate(
            B,
            "robert".to_string(),
            false,
            UpdatePresenceKind::UsernameChange("bob".to_string())
        )]
    );
    let out = a.on_packet(Packet::Presence(B, false, "robert".to_string()), 2);
    assert_eq!(
        out.events,
        vec![UICommand::PresenceUpdate(B, "robert".to_string(), false, UpdatePresenceKind::Boring)]
    );
}

#[test]
fn disconnect_is_reported_at_once() {
    let (mut a, _b) = joined_pair();
    a.on_packet(Packet::Presence(B, false, "robert".to_string()), 1);
    let out = a.on_packet(Packet::Disconnect(B), 2);
    assert_eq!(out.events, vec![UICommand::RemovePresence(B, "robert".to_string())]);
    let again = a.on_packet(Packet::Disconnect(B), 3);
    assert!(again.events.is_empty());
}

#[test]
fn silent_peer_goes_inactive_then_offline() {
    let (mut a, _b) = joined_pair();
    let heard = 20;
    a.on_packet(Packet::Presence(B, false, "robert".to_string()), heard);
    let mut inactive_at = None;
    let mut removed_at = None;
    let mut now = heard;
    while now < heard + 20_000 {
        now += 10;
        for e in a.on_tick(now).events {
            match e {
                UICommand::PresenceUpdate(id, name, true, UpdatePresenceKind::Boring) if id == B => {
                    assert_eq!(name, "robert");
                    inactive_at.get_or_insert(now);
                }
                UICommand::RemovePresence(id, name) if id == B => {
                    assert_eq!(name, "robert");
                    assert!(removed_at.is_none());
                    removed_at = Some(now);
                }
                _ => {}
            }
        }
    }
    let inactive = inactive_at.unwrap() - heard;
    let removed = removed_at.unwrap() - heard;
    assert!(inactive > 5_000 && inactive <= 6_000, "inactive after {inactive}");
    assert!(removed > 15_000 && removed <= 16_000, "removed after {removed}");
    let back = a.on_packet(Packet::Presence(B, false, "robert".to_string()), now);
    assert_eq!(
        back.events,
        vec![UICommand::PresenceUpdate(B, "robert".to_string(), false, UpdatePresenceKind::JoinOrReconnect)]
    );
}

#[test]
fn heartbeats_wait_for_own_echo() {
    let mut a = worker(A, 1);
    a.on_command(NetCommand::UpdateUsername("alice".to_string()));
    for t in 1..40 {
        let out = a.on_tick(t * 500);
        assert!(out.sends.is_empty() && out.events.is_empty());
        a.on_packet(Packet::Presence(B, false, "bob".to_string()), t * 500);
        assert_eq!(a.state(), NetThreadState::NeedsInitialPresence);
    }
    a.on_packet(Packet::Presence(A, true, "alice".to_string()), 20_000);
    assert_eq!(a.state(), NetThreadState::Ready);
    let out = a.on_tick(21_001);
    assert_eq!(out.sends, vec![Packet::Presence(A, false, "alice".to_string())]);
}

#[test]
fn presence_request_answer_depends_on_state() {
    let mut a = worker(A, 1);
    a.on_command(NetCommand::UpdateUsername("alice".to_string()));
    let out = a.on_packet(Packet::PresenceReq, 0);
    assert_eq!(out.sends, vec![Packet::Presence(A, true, "alice".to_string())]);
    a.on_packet(Packet::Presence(A, true, "alice".to_string()), 0);
    let out = a.on_packet(Packet::PresenceReq, 0);
    assert_eq!(out.sends, vec![Packet::Presence(A, false, "alice".to_string())]);
}

#[test]
fn paused_heartbeat_still_ages_peers() {
    let (mut a, _b) = joined_pair();
    let out = a.on_command(NetCommand::PauseHeartbeat(true));
    assert!(out.sends.is_empty() && out.events.is_empty());
    assert!(a.is_paused());
    let out = a.on_tick(6_000);
    assert!(out.sends.is_empty());
    assert!(out
        .events
        .contains(&UICommand::PresenceUpdate(B, "bob".to_string(), true, UpdatePresenceKind::Boring)));
    a.on_command(NetCommand::PauseHeartbeat(false));
    let out = a.on_tick(7_500);
    assert_eq!(out.sends, vec![Packet::Presence(A, false, "alice".to_string())]);
}

#[test]
fn messages_are_named_and_mentions_alert() {
    let (mut a, _b) = joined_pair();
    let out = a.on_packet(
        Packet::Message { author: B, channel: "general".to_string(), message: "hey alice!".to_string() },
        1,
    );
    assert_eq!(
        out.events,
        vec![
            UICommand::AlertUser,
            UICommand::NewMessage(B, "bob".to_string(), "general".to_string(), "hey alice!".to_string(), false),
        ]
    );
    let out = a.on_packet(
        Packet::Message { author: [0xc; 8], channel: "x".to_string(), message: "hello".to_string() },
        1,
    );
    assert_eq!(
        out.events,
        vec![UICommand::NewMessage([0xc; 8], "unknown".to_string(), "x".to_string(), "hello".to_string(), false)]
    );
}

#[test]
fn commands_produce_packets() {
    let mut a = worker(A, 1);
    a.on_command(NetCommand::UpdateUsername("alice".to_string()));
    let out = a.on_command(NetCommand::SendMessage("general".to_string(), "hi".to_string()));
    assert_eq!(
        out.sends,
        vec![Packet::Message { author: A, channel: "general".to_string(), message: "hi".to_string() }]
    );
    assert_eq!(
        out.events,
        vec![UICommand::NewMessage(A, "alice".to_string(), "general".to_string(), "hi".to_string(), true)]
    );
    let out = a.on_command(NetCommand::Reaction([3; 8], '👍'));
    assert_eq!(out.sends, vec![Packet::Reaction([3; 8], '👍')]);
    let out = a.on_command(NetCommand::UpdateUsername("alicia".to_string()));
    assert!(out.sends.is_empty());
    assert_eq!(a.username(), "alicia");
    let out = a.on_command(NetCommand::SetEtherType(EtherType::IPv4));
    assert!(out.sends.is_empty() && !out.terminate);
    let out = a.on_command(NetCommand::SetInterface("eth0".to_string()));
    assert_eq!(out.events, vec![UICommand::Error(ArpchatError::InterfaceAlreadySet)]);
    assert!(out.terminate);
    let out = a.on_command(NetCommand::Terminate);
    assert_eq!(out.sends, vec![Packet::Disconnect(A)]);
    assert!(out.terminate);
}

#[test]
fn roster_lists_known_peers() {
    let (a, _b) = joined_pair();
    let names: Vec<(Id, String)> = a.online().iter().map(|p| (p.id, p.username.clone())).collect();
    assert_eq!(names, vec![(B, "bob".to_string()), (A, "alice".to_string())]);
    assert_eq!(a.local_id(), A);
}
