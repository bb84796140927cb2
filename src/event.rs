//! The events pushed to users, and the shapes of the records they carry.
use vstd::prelude::*;

verus! {

/// A game room as the users see it. Times are in milliseconds.
#[derive(Clone, Copy, Debug, PartialEq, Eq, Structural)]
pub struct ScRoomBasic {
    pub id: i32,
    pub game_id: i32,
    pub private: bool,
    pub host: i32,
    pub created_at: i64,
    pub updated_at: i64,
}

/// A pending invite of `user_id` for `target_id` into `room`.
#[derive(Clone, Copy, Debug, PartialEq, Eq, Structural)]
pub struct ScInvite {
    pub id: i32,
    pub room: ScRoomBasic,
    pub target_id: i32,
    pub user_id: i32,
    pub created_at: i64,
    pub updated_at: i64,
}

/// Presence of a user as told to the user's friends: online or not, and the
/// room the user is in.
#[derive(Clone, Copy, Debug, PartialEq, Eq, Structural)]
pub struct ScUserBasic {
    pub id: i32,
    pub online: bool,
    pub playing: Option<ScRoomBasic>,
}

/// A peer-to-peer signal relayed from `user_id`.
#[derive(Clone, Debug)]
pub struct ScSignal {
    pub user_id: i32,
    pub json: String,
}

/// A signal of the voice relay of room `room_id` (an SDP or an ICE candidate).
#[derive(Clone, Debug)]
pub struct ScVoiceSignal {
    pub room_id: i32,
    pub json: String,
}

/// A request to relay a signal to `target_id`.
#[derive(Clone, Debug)]
pub struct ScNewSignal {
    pub target_id: i32,
    pub json: String,
}

/// A chat line said in a lobby area.
#[derive(Clone, Debug)]
pub struct ScLobbyMessage {
    pub created_at: i64,
    pub user_id: i32,
    pub username: String,
    pub nickname: String,
    pub text: String,
}

/// One event for a user's stream: exactly one variant per event.
#[derive(Clone, Debug)]
pub enum ScNotifyMessage {
    /// A direct message (by its id) was written to the user.
    NewMessage(i32),
    LobbyMessage(ScLobbyMessage),
    /// A game (by its id) was published.
    NewGame(i32),
    UpdateRoom(ScRoomBasic),
    /// The room with this id was deleted.
    DeleteRoom(i32),
    NewInvite(ScInvite),
    /// The invite with this id was deleted.
    DeleteInvite(i32),
    /// The user with this id asked for friendship.
    ApplyFriend(i32),
    /// The user with this id accepted a friendship.
    AcceptFriend(i32),
    /// The user with this id ended a friendship.
    DeleteFriend(i32),
    /// A game (by its id) was marked as a favorite.
    Favorite(i32),
    /// A game (by its id) was removed from the favorites.
    DeleteFavorite(i32),
    UpdateUser(ScUserBasic),
    SendSignal(ScSignal),
    Login(bool),
    VoiceSignal(ScVoiceSignal),
}

/// One event and the online users it is delivered to.
#[derive(Clone, Debug)]
pub struct Notice {
    pub targets: Vec<i32>,
    pub message: ScNotifyMessage,
}

} // verus!
