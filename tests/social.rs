use nesbox_hub::event::ScNotifyMessage;
use nesbox_hub::notify::NotifyMap;
use nesbox_hub::session::voice_signal;
use nesbox_hub::social::{accept_friend, apply_friend, create_game, create_message, favorite_game};

fn online(ids: &[i32]) -> NotifyMap {
    let mut map = NotifyMap::new();
    for id in ids {
        let _ = map.get_receiver(*id, 0);
    }
    map
}

#[test]
fn friend_requests_reach_the_target() {
    let map = online(&[2]);
    assert!(apply_friend(&map, 1, 1).is_none());
    let n = apply_friend(&map, 1, 2).unwrap();
    assert_eq!(n.targets, vec![2]);
    assert!(matches!(n.message, ScNotifyMessage::ApplyFriend(1)));
    let n = accept_friend(&map, 2, 1, true);
    assert!(n.targets.is_empty());
    assert!(matches!(n.message, ScNotifyMessage::AcceptFriend(2)));
    let n = accept_friend(&map, 1, 2, false);
    assert_eq!(n.targets, vec![2]);
    assert!(matches!(n.message, ScNotifyMessage::DeleteFriend(1)));
}

#[test]
fn favorites_messages_and_games() {
    let map = online(&[1, 3]);
    let n = favorite_game(&map, 1, 8, true);
    assert_eq!(n.targets, vec![1]);
    assert!(matches!(n.message, ScNotifyMessage::Favorite(8)));
    let n = favorite_game(&map, 1, 8, false);
    assert!(matches!(n.message, ScNotifyMessage::DeleteFavorite(8)));
    let n = create_message(&map, 3, 40);
    assert_eq!(n.targets, vec![3]);
    assert!(matches!(n.message, ScNotifyMessage::NewMessage(40)));
    let n = create_game(&map, 12);
    assert_eq!(n.targets, vec![1, 3]);
    assert!(matches!(n.message, ScNotifyMessage::NewGame(12)));
}

#[test]
fn voice_signals_reach_their_user() {
    let map = online(&[4]);
    let n = voice_signal(&map, 4, 9, "{\"sdp\":\"x\"}".to_string());
    assert_eq!(n.targets, vec![4]);
    match n.message {
        ScNotifyMessage::VoiceSignal(s) => {
            assert_eq!(s.room_id, 9);
            assert_eq!(s.json, "{\"sdp\":\"x\"}");
        }
        _ => panic!("expected a voice signal"),
    }
    assert!(voice_signal(&map, 5, 9, String::new()).targets.is_empty());
}
