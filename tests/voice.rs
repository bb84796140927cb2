use nesbox_hub::voice::{ScVoiceMsgKind, TrackChange, VoiceAction, VoiceRelay};

fn drain(relay: &mut VoiceRelay, room: i32, user: i32) -> Vec<TrackChange> {
    let mut changes = Vec::new();
    while let Some(c) = relay.next_renegotiation(room, user) {
        changes.push(c);
        relay.on_answer(room, user);
    }
    changes
}

fn received(relay: &VoiceRelay, room: i32, user: i32) -> Vec<i32> {
    let peer = relay.peers.iter().find(|p| p.room_id == room && p.user_id == user).unwrap();
    let mut r = peer.received.clone();
    r.sort();
    r
}

#[test]
fn offer_builds_a_connection_with_the_others_tracks() {
    let mut relay = VoiceRelay::new();
    assert!(matches!(relay.handle_msg(1, 10, ScVoiceMsgKind::Offer), VoiceAction::Connect(t) if t.is_empty()));
    assert!(matches!(relay.handle_msg(1, 10, ScVoiceMsgKind::Answer), VoiceAction::Ignore));
    assert!(matches!(relay.handle_msg(1, 10, ScVoiceMsgKind::Ice), VoiceAction::Ignore));
    relay.on_peer_connected(1, 10, &vec![]);
    relay.on_track(1, 10);
    assert!(matches!(relay.handle_msg(1, 10, ScVoiceMsgKind::Answer), VoiceAction::Answer));
    assert!(matches!(relay.handle_msg(1, 10, ScVoiceMsgKind::Ice), VoiceAction::Ice));
    assert!(matches!(relay.handle_msg(1, 20, ScVoiceMsgKind::Offer), VoiceAction::Connect(t) if t == vec![10]));
    assert!(matches!(relay.handle_msg(2, 20, ScVoiceMsgKind::Offer), VoiceAction::Connect(t) if t.is_empty()));
}

#[test]
fn every_peer_hears_every_other_peer() {
    let mut relay = VoiceRelay::new();
    for user in [10, 20, 30] {
        let attached = relay.create_rtc(1, user);
        relay.on_peer_connected(1, user, &attached);
        relay.on_track(1, user);
    }
    for user in [10, 20, 30] {
        drain(&mut relay, 1, user);
    }
    assert_eq!(received(&relay, 1, 10), vec![20, 30]);
    assert_eq!(received(&relay, 1, 20), vec![10, 30]);
    assert_eq!(received(&relay, 1, 30), vec![10, 20]);
}

#[test]
fn a_failed_peer_is_dropped_after_one_round() {
    let mut relay = VoiceRelay::new();
    for user in [10, 20, 30] {
        let attached = relay.create_rtc(1, user);
        relay.on_peer_connected(1, user, &attached);
        relay.on_track(1, user);
    }
    for user in [10, 20, 30] {
        drain(&mut relay, 1, user);
    }
    relay.on_peer_closed(1, 20);
    assert!(relay.peers.iter().all(|p| p.user_id != 20));
    assert_eq!(drain(&mut relay, 1, 10), vec![TrackChange { owner: 20, add: false }]);
    assert_eq!(drain(&mut relay, 1, 30), vec![TrackChange { owner: 20, add: false }]);
    assert_eq!(received(&relay, 1, 10), vec![30]);
    assert_eq!(received(&relay, 1, 30), vec![10]);
    relay.on_peer_closed(1, 10);
    relay.on_peer_closed(1, 30);
    assert!(relay.peers.is_empty());
}

#[test]
fn a_new_peer_repairs_stale_attachments() {
    let mut relay = VoiceRelay::new();
    relay.on_peer_connected(1, 10, &vec![]);
    relay.on_track(1, 10);
    relay.on_peer_connected(1, 20, &vec![]);
    relay.on_track(1, 20);
    drain(&mut relay, 1, 10);
    relay.on_peer_connected(1, 30, &vec![10, 99]);
    let mut changes = drain(&mut relay, 1, 30);
    changes.sort_by_key(|c| c.owner);
    assert_eq!(
        changes,
        vec![TrackChange { owner: 20, add: true }, TrackChange { owner: 99, add: false }]
    );
    assert_eq!(received(&relay, 1, 30), vec![10, 20]);
}

#[test]
fn rooms_are_independent() {
    let mut relay = VoiceRelay::new();
    relay.on_peer_connected(1, 10, &vec![]);
    relay.on_peer_connected(2, 20, &vec![]);
    relay.on_track(1, 10);
    assert_eq!(relay.next_renegotiation(2, 20), None);
    assert_eq!(relay.create_rtc(2, 30), Vec::<i32>::new());
    assert_eq!(relay.create_rtc(1, 30), vec![10]);
}

#[test]
fn reconnecting_replaces_the_old_connection() {
    let mut relay = VoiceRelay::new();
    relay.on_peer_connected(1, 10, &vec![]);
    relay.on_track(1, 10);
    relay.on_peer_connected(1, 20, &vec![10]);
    relay.on_peer_connected(1, 10, &vec![]);
    assert_eq!(relay.peers.iter().filter(|p| p.user_id == 10).count(), 1);
    assert_eq!(drain(&mut relay, 1, 20), vec![TrackChange { owner: 10, add: false }]);
    assert_eq!(received(&relay, 1, 20), Vec::<i32>::new());
}

#[test]
fn one_renegotiation_at_a_time() {
    let mut relay = VoiceRelay::new();
    relay.on_peer_connected(1, 10, &vec![]);
    relay.on_peer_connected(1, 20, &vec![]);
    relay.on_peer_connected(1, 30, &vec![]);
    relay.on_track(1, 20);
    relay.on_track(1, 30);
    assert_eq!(relay.next_renegotiation(1, 10), Some(TrackChange { owner: 20, add: true }));
    assert_eq!(relay.next_renegotiation(1, 10), None);
    relay.on_answer(1, 10);
    assert_eq!(relay.next_renegotiation(1, 10), Some(TrackChange { owner: 30, add: true }));
    relay.on_answer(1, 10);
    assert_eq!(relay.next_renegotiation(1, 10), None);
    assert_eq!(received(&relay, 1, 10), vec![20, 30]);
}
