use nesbox_hub::event::ScNotifyMessage;
use nesbox_hub::lobby::{Lobby, ScEnterLobbyReq, ScNewLobbyMessage};
use nesbox_hub::notify::NotifyMap;
use nesbox_hub::room::{RecordAction, RoomStore, ScNewRoom};
use nesbox_hub::session::{connect, disconnect, lobby_msg, signaling};
use nesbox_hub::event::ScNewSignal;

#[test]
fn online_while_any_subscription_lives() {
    let mut map = NotifyMap::new();
    assert!(!map.has_user(1));
    let a = map.get_receiver(1, 100);
    let b = map.get_receiver(1, 200);
    assert!(map.has_user(1));
    assert_eq!(map.get_online_time(1), Some(100));
    assert_eq!(map.get_online_count(), 1);
    assert_eq!(map.release(a), None);
    assert!(map.has_user(1));
    assert_eq!(map.release(b), Some(100));
    assert!(!map.has_user(1));
    assert_eq!(map.get_online_count(), 0);
    assert_eq!(map.get_online_time(1), None);
}

#[test]
fn release_of_unknown_user_changes_nothing() {
    let mut map = NotifyMap::new();
    let a = map.get_receiver(1, 5);
    let stale = map.get_receiver(2, 6);
    assert_eq!(map.release(stale), Some(6));
    let again = map.get_receiver(3, 7);
    assert_eq!(map.release(a), Some(5));
    assert_eq!(map.get_online_count(), 1);
    assert_eq!(map.release(again), Some(7));
    assert_eq!(map.get_online_count(), 0);
}

#[test]
fn notify_reaches_online_users_only() {
    let mut map = NotifyMap::new();
    let _a = map.get_receiver(1, 0);
    let _c = map.get_receiver(3, 0);
    let n = map.notify(1, ScNotifyMessage::Login(true));
    assert_eq!(n.targets, vec![1]);
    let n = map.notify(2, ScNotifyMessage::Login(true));
    assert!(n.targets.is_empty());
    let n = map.notify_ids(&vec![3, 2, 1, 4], ScNotifyMessage::NewGame(9));
    assert_eq!(n.targets, vec![3, 1]);
    assert!(matches!(n.message, ScNotifyMessage::NewGame(9)));
    let n = map.notify_all(ScNotifyMessage::DeleteRoom(4));
    assert_eq!(n.targets, vec![1, 3]);
}

#[test]
fn connect_tells_online_friends() {
    let mut map = NotifyMap::new();
    let store = RoomStore::new();
    let _f = map.get_receiver(2, 0);
    let (rx, n) = connect(&mut map, &store, 1, 50, &vec![2, 3]);
    assert_eq!(rx.0, 1);
    assert_eq!(n.targets, vec![2]);
    match n.message {
        ScNotifyMessage::UpdateUser(u) => {
            assert_eq!(u.id, 1);
            assert!(u.online);
            assert!(u.playing.is_none());
        }
        _ => panic!("expected a presence update"),
    }
}

#[test]
fn last_disconnect_runs_the_offline_cascade() {
    let mut map = NotifyMap::new();
    let mut store = RoomStore::new();
    let mut lobby = Lobby::new();
    let _friend = map.get_receiver(2, 0);
    let (rx1, _) = connect(&mut map, &store, 1, 1000, &vec![2]);
    let (rx2, _) = connect(&mut map, &store, 1, 2000, &vec![2]);
    let (room, _) = store
        .create_room(&map, 1, ScNewRoom { game_id: 7, private: false }, &vec![2], 1500)
        .unwrap();
    lobby.enter_lobby(&map, 1, ScEnterLobbyReq { area: "en".to_string() });

    let out = disconnect(&mut map, &mut lobby, &store, rx1, &vec![2]);
    assert!(out.notices.is_empty());
    assert!(out.records.is_empty());
    assert!(map.has_user(1));

    let out = disconnect(&mut map, &mut lobby, &store, rx2, &vec![2]);
    assert!(!map.has_user(1));
    assert_eq!(out.records, vec![RecordAction::Pause { user_id: 1, game_id: 7, since: 1000 }]);
    assert_eq!(out.notices.len(), 1);
    assert_eq!(out.notices[0].targets, vec![2]);
    match out.notices[0].message {
        ScNotifyMessage::UpdateUser(u) => {
            assert_eq!(u.id, 1);
            assert!(!u.online);
            assert_eq!(u.playing.map(|r| r.id), Some(room.id));
        }
        _ => panic!("expected a presence update"),
    }
    assert_eq!(lobby.areas[0].users, Vec::<i32>::new());
}

#[test]
fn lobby_counts_and_moves_users() {
    let mut map = NotifyMap::new();
    let _a = map.get_receiver(1, 0);
    let mut lobby = Lobby::new();
    let info = lobby.enter_lobby(&map, 1, ScEnterLobbyReq { area: "en".to_string() });
    assert_eq!(info.lobby_user_count, 1);
    assert_eq!(info.online_user_count, 1);
    let info = lobby.enter_lobby(&map, 2, ScEnterLobbyReq { area: "en".to_string() });
    assert_eq!(info.lobby_user_count, 2);
    assert_eq!(info.online_user_count, 2);
    let info = lobby.enter_lobby(&map, 3, ScEnterLobbyReq { area: "zh".to_string() });
    assert_eq!(info.lobby_user_count, 1);
    assert_eq!(lobby.get_lobby_other_ids(1), vec![2]);
    assert_eq!(lobby.get_lobby_other_ids(3), Vec::<i32>::new());
    let info = lobby.enter_lobby(&map, 2, ScEnterLobbyReq { area: "zh".to_string() });
    assert_eq!(info.lobby_user_count, 2);
    assert_eq!(lobby.get_lobby_other_ids(1), Vec::<i32>::new());
    assert_eq!(lobby.get_lobby_other_ids(3), vec![2]);
    lobby.leave_lobby(3);
    assert_eq!(lobby.get_lobby_other_ids(2), Vec::<i32>::new());
    assert_eq!(lobby.get_lobby_other_ids(9), Vec::<i32>::new());
}

#[test]
fn lobby_message_reaches_online_area_mates() {
    let mut map = NotifyMap::new();
    let _b = map.get_receiver(2, 0);
    let mut lobby = Lobby::new();
    for u in [1, 2, 3] {
        lobby.enter_lobby(&map, u, ScEnterLobbyReq { area: "en".to_string() });
    }
    let n = lobby_msg(
        &map,
        &lobby,
        1,
        "ann".to_string(),
        "Ann".to_string(),
        ScNewLobbyMessage { text: "hi".to_string() },
        77,
    );
    assert_eq!(n.targets, vec![2]);
    match n.message {
        ScNotifyMessage::LobbyMessage(m) => {
            assert_eq!(m.user_id, 1);
            assert_eq!(m.text, "hi");
            assert_eq!(m.created_at, 77);
        }
        _ => panic!("expected a lobby message"),
    }
}

#[test]
fn signal_is_relayed_to_its_target() {
    let mut map = NotifyMap::new();
    let _b = map.get_receiver(2, 0);
    let n = signaling(&map, 1, ScNewSignal { target_id: 2, json: "{}".to_string() });
    assert_eq!(n.targets, vec![2]);
    match n.message {
        ScNotifyMessage::SendSignal(s) => {
            assert_eq!(s.user_id, 1);
            assert_eq!(s.json, "{}");
        }
        _ => panic!("expected a signal"),
    }
    let n = signaling(&map, 1, ScNewSignal { target_id: 3, json: "{}".to_string() });
    assert!(n.targets.is_empty());
}
