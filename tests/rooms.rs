use nesbox_hub::error::Error;
use nesbox_hub::event::ScNotifyMessage;
use nesbox_hub::notify::NotifyMap;
use nesbox_hub::room::{
    RecordAction, RoomStore, ScNewInvite, ScNewRoom, ScUpdateInvite, ScUpdatePlaying, ScUpdateRoom,
    ServiceError, ROOM_STALE_MS, SWEEP_LIMIT,
};

fn online(ids: &[i32]) -> NotifyMap {
    let mut map = NotifyMap::new();
    for id in ids {
        let _ = map.get_receiver(*id, 0);
    }
    map
}

#[test]
fn create_room_enters_the_host() {
    let map = online(&[1, 2]);
    let mut store = RoomStore::new();
    let (room, out) = store
        .create_room(&map, 1, ScNewRoom { game_id: 5, private: false }, &vec![2, 3], 10)
        .unwrap();
    assert_eq!(room.id, 1);
    assert_eq!(room.host, 1);
    assert_eq!(room.game_id, 5);
    assert_eq!(room.created_at, 10);
    assert_eq!(store.get_playing(1), Some(room));
    assert_eq!(out.records, vec![RecordAction::Start { user_id: 1, game_id: 5 }]);
    assert_eq!(out.notices.len(), 1);
    assert_eq!(out.notices[0].targets, vec![2]);
    let (second, out) = store
        .create_room(&map, 1, ScNewRoom { game_id: 6, private: true }, &vec![], 11)
        .unwrap();
    assert_eq!(second.id, 2);
    assert_eq!(store.get_playing(1), Some(second));
    assert_eq!(
        out.records,
        vec![
            RecordAction::End { user_id: 1, game_id: 5 },
            RecordAction::Start { user_id: 1, game_id: 6 }
        ]
    );
    assert!(out.notices[0].targets.is_empty());
}

#[test]
fn create_room_fails_when_ids_run_out() {
    let map = online(&[]);
    let mut store = RoomStore::new();
    store.next_room_id = i32::MAX;
    let r = store.create_room(&map, 1, ScNewRoom { game_id: 5, private: false }, &vec![], 0);
    assert!(matches!(r, Err(ServiceError::Exhausted)));
    assert!(store.rooms.is_empty());
}

#[test]
fn only_the_host_updates_a_room() {
    let map = online(&[1, 2]);
    let mut store = RoomStore::new();
    let (room, _) = store
        .create_room(&map, 1, ScNewRoom { game_id: 5, private: false }, &vec![], 0)
        .unwrap();
    store.enter_pub_room(&map, 2, ScUpdatePlaying { room_id: room.id }, &vec![]).unwrap();
    let req = ScUpdateRoom { id: room.id, game_id: 8, private: true, host: 1 };
    assert!(matches!(store.update_room(&map, 2, req, &vec![], 5), Err(ServiceError::NotHost)));
    let missing = ScUpdateRoom { id: 99, game_id: 8, private: true, host: 1 };
    assert!(matches!(store.update_room(&map, 1, missing, &vec![], 5), Err(ServiceError::RoomNotFound)));
    let (updated, out) = store.update_room(&map, 1, req, &vec![2], 5).unwrap();
    assert_eq!(updated.game_id, 8);
    assert!(updated.private);
    assert_eq!(updated.updated_at, 5);
    assert_eq!(updated.created_at, 0);
    assert_eq!(
        out.records,
        vec![
            RecordAction::End { user_id: 1, game_id: 5 },
            RecordAction::Start { user_id: 1, game_id: 8 }
        ]
    );
    assert_eq!(out.notices.len(), 2);
    assert_eq!(out.notices[1].targets, vec![1, 2]);
    assert!(matches!(out.notices[1].message, ScNotifyMessage::UpdateRoom(r) if r.game_id == 8));
    let same = ScUpdateRoom { id: room.id, game_id: 8, private: false, host: 1 };
    let (_, out) = store.update_room(&map, 1, same, &vec![], 6).unwrap();
    assert!(out.records.is_empty());
}

#[test]
fn private_rooms_refuse_public_entry() {
    let map = online(&[1, 2]);
    let mut store = RoomStore::new();
    let (room, _) = store
        .create_room(&map, 1, ScNewRoom { game_id: 5, private: true }, &vec![], 0)
        .unwrap();
    let r = store.enter_pub_room(&map, 2, ScUpdatePlaying { room_id: room.id }, &vec![]);
    assert!(matches!(r, Err(ServiceError::PrivateRoomAccessDenied)));
    let r = store.enter_pub_room(&map, 2, ScUpdatePlaying { room_id: 42 }, &vec![]);
    assert!(matches!(r, Err(ServiceError::RoomNotFound)));
    assert_eq!(store.get_playing(2), None);
}

#[test]
fn leaving_without_a_room_fails() {
    let map = online(&[1]);
    let mut store = RoomStore::new();
    let r = store.leave_room_and_notify(&map, 1, &vec![]);
    assert!(matches!(r, Err(ServiceError::NotPlaying)));
    assert_eq!(ServiceError::NotPlaying.code(), Some(404101));
    assert_eq!(ServiceError::RoomNotFound.code(), None);
    assert_eq!(Error::username_not_playing(), 404101);
    assert_eq!(Error::register_username_exist(), 404001);
    assert_eq!(Error::username_or_password_error(), 404002);
}

#[test]
fn at_most_one_playing_record_per_user() {
    let map = online(&[1, 2]);
    let mut store = RoomStore::new();
    let (r1, _) = store.create_room(&map, 1, ScNewRoom { game_id: 1, private: false }, &vec![], 0).unwrap();
    let (r2, _) = store.create_room(&map, 2, ScNewRoom { game_id: 2, private: false }, &vec![], 0).unwrap();
    store.enter_pub_room(&map, 1, ScUpdatePlaying { room_id: r2.id }, &vec![]).unwrap();
    store.enter_pub_room(&map, 1, ScUpdatePlaying { room_id: r1.id }, &vec![]).unwrap();
    store.enter_pub_room(&map, 1, ScUpdatePlaying { room_id: r2.id }, &vec![]).unwrap();
    assert_eq!(store.playing.iter().filter(|p| p.user_id == 1).count(), 1);
    assert_eq!(store.get_playing(1).map(|r| r.id), Some(r2.id));
    assert_eq!(store.get_room_user_ids(r2.id), vec![2, 1]);
}

#[test]
fn host_leaving_deletes_the_room_once() {
    let map = online(&[1, 2, 3]);
    let mut store = RoomStore::new();
    let (room, _) = store.create_room(&map, 1, ScNewRoom { game_id: 5, private: false }, &vec![], 0).unwrap();
    store.enter_pub_room(&map, 2, ScUpdatePlaying { room_id: room.id }, &vec![]).unwrap();
    let (inv, _) = store.create_invite(&map, 1, ScNewInvite { room_id: room.id, target_id: 3 }, 1).unwrap();
    let (other, _) = store.create_invite(&map, 2, ScNewInvite { room_id: room.id, target_id: 4 }, 1).unwrap();
    let out = store.leave_room_and_notify(&map, 1, &vec![3]).unwrap();
    assert_eq!(store.get_room(room.id), None);
    assert!(store.invites.is_empty());
    assert_eq!(store.get_playing(2), None);
    assert_eq!(
        out.records,
        vec![
            RecordAction::End { user_id: 1, game_id: 5 },
            RecordAction::End { user_id: 2, game_id: 5 }
        ]
    );
    let deleted: Vec<_> = out
        .notices
        .iter()
        .filter(|n| matches!(n.message, ScNotifyMessage::DeleteRoom(id) if id == room.id))
        .collect();
    assert_eq!(deleted.len(), 1);
    assert_eq!(deleted[0].targets, vec![1, 2, 3]);
    assert_ne!(other.id, inv.id);
    assert_eq!(out.notices.len(), 4);
    assert!(matches!(out.notices[1].message, ScNotifyMessage::DeleteInvite(id) if id == inv.id));
    assert_eq!(out.notices[1].targets, vec![3]);
    assert!(matches!(out.notices[2].message, ScNotifyMessage::DeleteInvite(id) if id == other.id));
    assert!(out.notices[2].targets.is_empty());
    assert_eq!(out.notices[3].targets, vec![3]);
    assert!(matches!(out.notices[3].message, ScNotifyMessage::UpdateUser(u) if u.id == 1 && u.playing.is_none()));
}

#[test]
fn member_leaving_keeps_the_room() {
    let map = online(&[1, 2]);
    let mut store = RoomStore::new();
    let (room, _) = store.create_room(&map, 1, ScNewRoom { game_id: 5, private: false }, &vec![], 0).unwrap();
    store.enter_pub_room(&map, 2, ScUpdatePlaying { room_id: room.id }, &vec![]).unwrap();
    let (sent, _) = store.create_invite(&map, 2, ScNewInvite { room_id: room.id, target_id: 5 }, 1).unwrap();
    let out = store.leave_room_and_notify(&map, 2, &vec![1]).unwrap();
    assert_eq!(store.invites.len(), 1);
    assert_eq!(store.invites[0].id, sent.id);
    assert_eq!(store.get_room(room.id), Some(room));
    assert_eq!(store.get_playing(2), None);
    assert_eq!(store.get_playing(1), Some(room));
    assert_eq!(out.records, vec![RecordAction::End { user_id: 2, game_id: 5 }]);
    assert_eq!(out.notices.len(), 1);
    assert_eq!(out.notices[0].targets, vec![1]);
}

#[test]
fn stale_rooms_of_offline_hosts_are_cleaned() {
    let mut map = online(&[2]);
    let rx = map.get_receiver(1, 0);
    let mut store = RoomStore::new();
    let (room, _) = store.create_room(&map, 1, ScNewRoom { game_id: 5, private: false }, &vec![], 0).unwrap();
    assert!(store.get_outdated_rooms(&map, ROOM_STALE_MS + 1).is_empty());
    map.release(rx);
    assert!(store.get_outdated_rooms(&map, ROOM_STALE_MS).is_empty());
    assert_eq!(store.get_outdated_rooms(&map, ROOM_STALE_MS + 1), vec![room]);
    assert!(store.clean_outdated_room(&map, room.id, ROOM_STALE_MS).is_none());
    let out = store.clean_outdated_room(&map, room.id, ROOM_STALE_MS + 1).unwrap();
    assert_eq!(store.get_room(room.id), None);
    assert_eq!(store.get_playing(1), None);
    assert_eq!(out.records, vec![RecordAction::End { user_id: 1, game_id: 5 }]);
    assert_eq!(out.notices[0].targets, vec![2]);
    assert_eq!(out.notices.len(), 1);
    assert!(store.get_outdated_rooms(&map, i64::MIN).is_empty());
}

#[test]
fn end_to_end_room_scenario() {
    let mut map = NotifyMap::new();
    let _a = map.get_receiver(1, 0);
    let _b = map.get_receiver(2, 0);
    let mut store = RoomStore::new();
    let (room, out) = store
        .create_room(&map, 1, ScNewRoom { game_id: 5, private: false }, &vec![2], 0)
        .unwrap();
    assert_eq!(out.notices[0].targets, vec![2]);
    match out.notices[0].message {
        ScNotifyMessage::UpdateUser(u) => {
            assert_eq!(u.id, 1);
            assert_eq!(u.playing, Some(room));
        }
        _ => panic!("expected a presence update"),
    }
    let (entered, _) = store.enter_pub_room(&map, 2, ScUpdatePlaying { room_id: room.id }, &vec![1]).unwrap();
    assert_eq!(entered, room);
    assert_eq!(store.get_playing(2), Some(room));
    let out = store.leave_room_and_notify(&map, 1, &vec![2]).unwrap();
    assert!(matches!(out.notices[0].message, ScNotifyMessage::DeleteRoom(id) if id == room.id));
    assert_eq!(out.notices[0].targets, vec![1, 2]);
    assert_eq!(store.get_playing(2), None);
    let last = out.notices.last().unwrap();
    assert_eq!(last.targets, vec![2]);
    assert!(matches!(last.message, ScNotifyMessage::UpdateUser(u) if u.id == 1 && u.playing.is_none()));
}

#[test]
fn a_new_invite_replaces_the_previous_one() {
    let map = online(&[1, 2]);
    let mut store = RoomStore::new();
    let (room1, _) = store.create_room(&map, 1, ScNewRoom { game_id: 5, private: false }, &vec![], 0).unwrap();
    let (room2, _) = store.create_room(&map, 9, ScNewRoom { game_id: 6, private: false }, &vec![], 0).unwrap();
    let (first, out) = store.create_invite(&map, 1, ScNewInvite { room_id: room1.id, target_id: 2 }, 1).unwrap();
    assert_eq!(out.notices.len(), 1);
    assert!(matches!(out.notices[0].message, ScNotifyMessage::NewInvite(i) if i.id == first.id));
    let (second, out) = store.create_invite(&map, 1, ScNewInvite { room_id: room2.id, target_id: 2 }, 2).unwrap();
    assert_eq!(second.room, room2);
    assert_eq!(out.notices.len(), 2);
    assert!(matches!(out.notices[0].message, ScNotifyMessage::DeleteInvite(id) if id == first.id));
    assert!(matches!(out.notices[1].message, ScNotifyMessage::NewInvite(i) if i.id == second.id));
    assert_eq!(out.notices[0].targets, vec![2]);
    let live: Vec<_> = store.invites.iter().filter(|i| i.user_id == 1 && i.target_id == 2).collect();
    assert_eq!(live.len(), 1);
    assert_eq!(live[0].id, second.id);
    assert_eq!(live[0].room_id, room2.id);
}

#[test]
fn invite_errors() {
    let map = online(&[1, 2]);
    let mut store = RoomStore::new();
    let (room, _) = store.create_room(&map, 1, ScNewRoom { game_id: 5, private: false }, &vec![], 0).unwrap();
    store.enter_pub_room(&map, 2, ScUpdatePlaying { room_id: room.id }, &vec![]).unwrap();
    let r = store.create_invite(&map, 1, ScNewInvite { room_id: room.id, target_id: 2 }, 0);
    assert!(matches!(r, Err(ServiceError::InviteTargetAlreadyInRoom)));
    let r = store.create_invite(&map, 1, ScNewInvite { room_id: 77, target_id: 3 }, 0);
    assert!(matches!(r, Err(ServiceError::RoomNotFound)));
    store.next_invite_id = i32::MAX;
    let r = store.create_invite(&map, 1, ScNewInvite { room_id: room.id, target_id: 3 }, 0);
    assert!(matches!(r, Err(ServiceError::Exhausted)));
    let r = store.accept_invite(&map, 3, ScUpdateInvite { invite_id: 1, accept: true }, &vec![]);
    assert!(matches!(r, Err(ServiceError::InviteNotFound)));
}

#[test]
fn accepting_an_invite_moves_the_user() {
    let map = online(&[1, 2]);
    let mut store = RoomStore::new();
    let (room1, _) = store.create_room(&map, 1, ScNewRoom { game_id: 5, private: true }, &vec![], 0).unwrap();
    let (room2, _) = store.create_room(&map, 2, ScNewRoom { game_id: 6, private: false }, &vec![], 0).unwrap();
    let (inv, _) = store.create_invite(&map, 1, ScNewInvite { room_id: room1.id, target_id: 2 }, 0).unwrap();
    let wrong = store.accept_invite(&map, 1, ScUpdateInvite { invite_id: inv.id, accept: true }, &vec![]);
    assert!(matches!(wrong, Err(ServiceError::InviteNotFound)));
    let out = store.accept_invite(&map, 2, ScUpdateInvite { invite_id: inv.id, accept: true }, &vec![1]).unwrap();
    assert_eq!(store.get_room(room2.id), None);
    assert_eq!(store.get_playing(2), Some(room1));
    assert!(store.invites.is_empty());
    assert_eq!(
        out.records,
        vec![
            RecordAction::End { user_id: 2, game_id: 6 },
            RecordAction::Start { user_id: 2, game_id: 5 }
        ]
    );
    assert!(matches!(out.notices[0].message, ScNotifyMessage::DeleteRoom(id) if id == room2.id));
    assert!(matches!(out.notices[1].message, ScNotifyMessage::UpdateUser(u) if u.id == 2));
    assert_eq!(out.notices.len(), 2);
}

#[test]
fn declining_an_invite_tells_the_sender() {
    let map = online(&[1, 2]);
    let mut store = RoomStore::new();
    let (room, _) = store.create_room(&map, 1, ScNewRoom { game_id: 5, private: false }, &vec![], 0).unwrap();
    let (inv, _) = store.create_invite(&map, 1, ScNewInvite { room_id: room.id, target_id: 2 }, 0).unwrap();
    let out = store.accept_invite(&map, 2, ScUpdateInvite { invite_id: inv.id, accept: false }, &vec![]).unwrap();
    assert!(store.invites.is_empty());
    assert_eq!(store.get_playing(2), None);
    assert_eq!(out.notices[0].targets, vec![1]);
    assert!(matches!(out.notices[0].message, ScNotifyMessage::DeleteInvite(id) if id == inv.id));
}

#[test]
fn withdrawing_invites_tells_each_target() {
    let map = online(&[2, 3]);
    let mut store = RoomStore::new();
    let (room, _) = store.create_room(&map, 1, ScNewRoom { game_id: 5, private: false }, &vec![], 0).unwrap();
    store.create_invite(&map, 1, ScNewInvite { room_id: room.id, target_id: 2 }, 0).unwrap();
    store.create_invite(&map, 1, ScNewInvite { room_id: room.id, target_id: 3 }, 0).unwrap();
    let out = store.withdraw_invites(&map, 1);
    assert!(store.invites.is_empty());
    assert_eq!(out.notices.len(), 2);
    assert_eq!(out.notices[0].targets, vec![2]);
    assert_eq!(out.notices[1].targets, vec![3]);
}

#[test]
fn accepting_an_invite_as_a_member_elsewhere() {
    let map = online(&[1, 2, 3, 4]);
    let mut store = RoomStore::new();
    let (r1, _) = store.create_room(&map, 1, ScNewRoom { game_id: 5, private: false }, &vec![], 0).unwrap();
    let (r2, _) = store.create_room(&map, 3, ScNewRoom { game_id: 6, private: false }, &vec![], 0).unwrap();
    store.enter_pub_room(&map, 2, ScUpdatePlaying { room_id: r2.id }, &vec![]).unwrap();
    let (inv, _) = store.create_invite(&map, 1, ScNewInvite { room_id: r1.id, target_id: 2 }, 0).unwrap();
    let out = store.accept_invite(&map, 2, ScUpdateInvite { invite_id: inv.id, accept: true }, &vec![4]).unwrap();
    assert_eq!(store.get_room(r2.id), Some(r2));
    assert_eq!(store.get_playing(2), Some(r1));
    assert!(store.invites.is_empty());
    assert_eq!(
        out.records,
        vec![
            RecordAction::End { user_id: 2, game_id: 6 },
            RecordAction::Start { user_id: 2, game_id: 5 }
        ]
    );
    assert_eq!(out.notices.len(), 1);
    assert_eq!(out.notices[0].targets, vec![4]);
    assert!(matches!(out.notices[0].message, ScNotifyMessage::UpdateUser(u) if u.id == 2 && u.playing == Some(r1)));
}

#[test]
fn a_sweep_stops_at_its_limit() {
    let map = online(&[]);
    let mut store = RoomStore::new();
    for host in [1, 2, 3] {
        store.create_room(&map, host, ScNewRoom { game_id: 5, private: false }, &vec![], 0).unwrap();
    }
    let (swept, outcomes) = store.clean_outdated_rooms(&map, ROOM_STALE_MS + 1, 2);
    assert_eq!(swept.iter().map(|r| r.id).collect::<Vec<_>>(), vec![1, 2]);
    assert_eq!(outcomes.len(), 2);
    assert_eq!(store.rooms.iter().map(|r| r.id).collect::<Vec<_>>(), vec![3]);
    let (swept, _) = store.clean_outdated_rooms(&map, ROOM_STALE_MS + 1, SWEEP_LIMIT);
    assert_eq!(swept.len(), 1);
    assert!(store.rooms.is_empty());
}

#[test]
fn cleaning_a_stale_room_tells_invite_targets() {
    let mut map = online(&[3]);
    let rx = map.get_receiver(1, 0);
    let mut store = RoomStore::new();
    let (room, _) = store.create_room(&map, 1, ScNewRoom { game_id: 5, private: false }, &vec![], 0).unwrap();
    let (inv, _) = store.create_invite(&map, 1, ScNewInvite { room_id: room.id, target_id: 3 }, 0).unwrap();
    map.release(rx);
    let (swept, outcomes) = store.clean_outdated_rooms(&map, ROOM_STALE_MS + 1, SWEEP_LIMIT);
    assert_eq!(swept, vec![room]);
    assert_eq!(outcomes.len(), 1);
    let notices = &outcomes[0].notices;
    assert_eq!(notices.len(), 2);
    assert!(matches!(notices[0].message, ScNotifyMessage::DeleteRoom(id) if id == room.id));
    assert!(matches!(notices[1].message, ScNotifyMessage::DeleteInvite(id) if id == inv.id));
    assert_eq!(notices[1].targets, vec![3]);
    assert!(store.invites.is_empty());
}
