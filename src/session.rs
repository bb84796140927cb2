//! Opening and closing event streams, and the events that follow from them.
use vstd::prelude::*;
use crate::event::{Notice, ScLobbyMessage, ScNewSignal, ScNotifyMessage, ScSignal, ScVoiceSignal};
use crate::lobby::{area_without, Lobby, ScNewLobbyMessage, others_in};
use crate::notify::{NotifyMap, NoyifyReceiver};
use crate::room::{notice_view, notices_view, Outcome, RecordAction, RoomStore};

verus! {

/// A user opens an event stream; the user's online friends are told that the
/// user is online.
pub fn connect(
    map: &mut NotifyMap,
    store: &RoomStore,
    user_id: i32,
    now: i64,
    friends: &Vec<i32>,
) -> (r: (NoyifyReceiver, Notice))
    requires
        old(map).wf(),
        store.wf(),
        old(map).subscriptions(user_id) < u64::MAX,
    ensures
        final(map).wf(),
        r.0.0 == user_id,
        final(map).subscriptions(user_id) == old(map).subscriptions(user_id) + 1,
        final(map).online_since(user_id) == (if old(map).is_online(user_id) {
            old(map).online_since(user_id)
        } else {
            Some(now)
        }),
        forall|u: i32|
            u != user_id ==> final(map).subscriptions(u) == old(map).subscriptions(u)
                && final(map).online_since(u) == old(map).online_since(u),
        notice_view(r.1) == store.friends_notice(*final(map), user_id, friends@),
{
    let rx = map.get_receiver(user_id, now);
    let n = store.notify_friends(map, user_id, friends);
    (rx, n)
}

/// A user's event stream closes. When it was the user's last one the user
/// goes offline: the user leaves the lobby, the user's online friends are
/// told, and the play time of the game the user is in is paused as of the
/// time the user came online. Otherwise nothing follows.
pub fn disconnect(
    map: &mut NotifyMap,
    lobby: &mut Lobby,
    store: &RoomStore,
    rx: NoyifyReceiver,
    friends: &Vec<i32>,
) -> (r: Outcome)
    requires
        old(map).wf(),
        store.wf(),
    ensures
        final(map).wf(),
        final(map).is_online(rx.0) == (old(map).subscriptions(rx.0) > 1),
        final(map).subscriptions(rx.0) == (if old(map).subscriptions(rx.0) == 0 {
            0
        } else {
            (old(map).subscriptions(rx.0) - 1) as nat
        }),
        final(map).is_online(rx.0) ==> final(map).online_since(rx.0) == old(map).online_since(rx.0),
        forall|u: i32|
            u != rx.0 ==> final(map).subscriptions(u) == old(map).subscriptions(u)
                && final(map).online_since(u) == old(map).online_since(u),
        old(map).subscriptions(rx.0) != 1 ==> {
            &&& final(lobby).view() == old(lobby).view()
            &&& r.notices@.len() == 0
            &&& r.records@.len() == 0
        },
        old(map).subscriptions(rx.0) == 1 ==> {
            &&& final(lobby).view() == old(lobby).view().map_values(area_without(rx.0))
            &&& notices_view(r.notices@) == seq![store.friends_notice(*final(map), rx.0, friends@)]
            &&& r.records@ == match store.room_of(rx.0) {
                Some(room) => seq![
                    RecordAction::Pause {
                        user_id: rx.0,
                        game_id: room.game_id,
                        since: old(map).online_since(rx.0).unwrap(),
                    },
                ],
                None => Seq::empty(),
            }
        },
{
    let user_id = rx.0;
    let mut notices: Vec<Notice> = Vec::new();
    let mut records: Vec<RecordAction> = Vec::new();
    proof {
        old(map).lemma_online_iff_subscribed(user_id);
    }
    match map.release(rx) {
        Some(since) => {
            lobby.leave_lobby(user_id);
            let n = store.notify_friends(map, user_id, friends);
            notices.push(n);
            assert(notices_view(notices@) =~= seq![notice_view(n)]);
            match store.get_playing(user_id) {
                Some(room) => {
                    records.push(RecordAction::Pause { user_id, game_id: room.game_id, since });
                },
                None => {},
            }
        },
        None => {},
    }
    Outcome { notices, records }
}

/// A chat line said in the lobby reaches the online users who share an area
/// with the speaker.
pub fn lobby_msg(
    map: &NotifyMap,
    lobby: &Lobby,
    user_id: i32,
    username: String,
    nickname: String,
    input: ScNewLobbyMessage,
    now: i64,
) -> (r: Notice)
    requires
        map.wf(),
    ensures
        r.targets@ == others_in(lobby.view(), user_id).filter(map.online_pred()),
        r.message == ScNotifyMessage::LobbyMessage(
            ScLobbyMessage { created_at: now, user_id, username, nickname, text: input.text },
        ),
{
    let ids = lobby.get_lobby_other_ids(user_id);
    map.notify_ids(
        &ids,
        ScNotifyMessage::LobbyMessage(
            ScLobbyMessage { created_at: now, user_id, username, nickname, text: input.text },
        ),
    )
}

/// A peer-to-peer signal from the user is relayed to its target, if online.
pub fn signaling(map: &NotifyMap, user_id: i32, input: ScNewSignal) -> (r: Notice)
    requires
        map.wf(),
    ensures
        r.targets@ == map.notify_targets(input.target_id),
        r.message == ScNotifyMessage::SendSignal(ScSignal { user_id, json: input.json }),
{
    map.notify(input.target_id, ScNotifyMessage::SendSignal(ScSignal { user_id, json: input.json }))
}

/// A signal of the voice relay (an SDP or an ICE candidate) for the user's
/// connection in the room reaches the user, if online.
pub fn voice_signal(map: &NotifyMap, user_id: i32, room_id: i32, json: String) -> (r: Notice)
    requires
        map.wf(),
    ensures
        r.targets@ == map.notify_targets(user_id),
        r.message == ScNotifyMessage::VoiceSignal(ScVoiceSignal { room_id, json }),
{
    map.notify(user_id, ScNotifyMessage::VoiceSignal(ScVoiceSignal { room_id, json }))
}

} // verus!
