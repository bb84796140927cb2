//! Events of friendships, messages, favorites and new games.
use vstd::prelude::*;
use crate::event::{Notice, ScNotifyMessage};
use crate::notify::NotifyMap;

verus! {

/// The user asks `target_id` for friendship: the target is told. Nobody can
/// befriend themselves, so a request to oneself yields no event (and is not
/// to be stored).
pub fn apply_friend(map: &NotifyMap, user_id: i32, target_id: i32) -> (r: Option<Notice>)
    requires
        map.wf(),
    ensures
        r is None <==> user_id == target_id,
        r matches Some(n) ==> n.targets@ == map.notify_targets(target_id) && n.message
            == ScNotifyMessage::ApplyFriend(user_id),
{
    if user_id == target_id {
        None
    } else {
        Some(map.notify(target_id, ScNotifyMessage::ApplyFriend(user_id)))
    }
}

/// The user answers the friendship request of `target_id`: the requester is
/// told of the acceptance, or of the friendship's deletion.
pub fn accept_friend(map: &NotifyMap, user_id: i32, target_id: i32, accept: bool) -> (r: Notice)
    requires
        map.wf(),
    ensures
        r.targets@ == map.notify_targets(target_id),
        r.message == (if accept {
            ScNotifyMessage::AcceptFriend(user_id)
        } else {
            ScNotifyMessage::DeleteFriend(user_id)
        }),
{
    if accept {
        map.notify(target_id, ScNotifyMessage::AcceptFriend(user_id))
    } else {
        map.notify(target_id, ScNotifyMessage::DeleteFriend(user_id))
    }
}

/// The user marks or unmarks a game as a favorite: the user's own streams
/// are told.
pub fn favorite_game(map: &NotifyMap, user_id: i32, game_id: i32, favorite: bool) -> (r: Notice)
    requires
        map.wf(),
    ensures
        r.targets@ == map.notify_targets(user_id),
        r.message == (if favorite {
            ScNotifyMessage::Favorite(game_id)
        } else {
            ScNotifyMessage::DeleteFavorite(game_id)
        }),
{
    if favorite {
        map.notify(user_id, ScNotifyMessage::Favorite(game_id))
    } else {
        map.notify(user_id, ScNotifyMessage::DeleteFavorite(game_id))
    }
}

/// A message was written to `target_id`: the target is told.
pub fn create_message(map: &NotifyMap, target_id: i32, message_id: i32) -> (r: Notice)
    requires
        map.wf(),
    ensures
        r.targets@ == map.notify_targets(target_id),
        r.message == ScNotifyMessage::NewMessage(message_id),
{
    map.notify(target_id, ScNotifyMessage::NewMessage(message_id))
}

/// A game was published: every online user is told.
pub fn create_game(map: &NotifyMap, game_id: i32) -> (r: Notice)
    requires
        map.wf(),
    ensures
        r.targets@ == map.online_ids(),
        r.message == ScNotifyMessage::NewGame(game_id),
{
    map.notify_all(ScNotifyMessage::NewGame(game_id))
}

} // verus!
