//! Rooms, the users playing in them, and the pending invites into them.
use vstd::prelude::*;
use crate::event::{Notice, ScNotifyMessage, ScRoomBasic, ScUserBasic};
use crate::keyed::{keyed, lemma_filter_sub, lemma_keyed_filter, lemma_keyed_row, lemma_keyed_index, lemma_keyed_push, lemma_keyed_update, lemma_unique_filter, unique_keys};
use crate::notify::NotifyMap;

verus! {

/// Stale rooms are those not updated for this long (30 days, in milliseconds).
pub const ROOM_STALE_MS: i64 = 2592000000;

/// How many stale rooms one sweep deletes at most.
pub const SWEEP_LIMIT: usize = 100;

/// The room a user is in.
#[derive(Clone, Copy, Debug, PartialEq, Eq, Structural)]
pub struct Playing {
    pub user_id: i32,
    pub room_id: i32,
}

/// A pending invite, by the id of its room.
#[derive(Clone, Copy, Debug, PartialEq, Eq, Structural)]
pub struct Invite {
    pub id: i32,
    pub room_id: i32,
    pub user_id: i32,
    pub target_id: i32,
    pub created_at: i64,
    pub updated_at: i64,
}

/// Play-time accounting that the record store is asked to do.
#[derive(Clone, Copy, Debug, PartialEq, Eq, Structural)]
pub enum RecordAction {
    Start { user_id: i32, game_id: i32 },
    End { user_id: i32, game_id: i32 },
    /// Pause, counting the time played since `since`.
    Pause { user_id: i32, game_id: i32, since: i64 },
}

#[derive(Clone, Copy, Debug, PartialEq, Eq, Structural)]
pub struct ScNewRoom {
    pub game_id: i32,
    pub private: bool,
}

#[derive(Clone, Copy, Debug, PartialEq, Eq, Structural)]
pub struct ScUpdateRoom {
    pub id: i32,
    pub game_id: i32,
    pub private: bool,
    pub host: i32,
}

#[derive(Clone, Copy, Debug, PartialEq, Eq, Structural)]
pub struct ScUpdatePlaying {
    pub room_id: i32,
}

#[derive(Clone, Copy, Debug, PartialEq, Eq, Structural)]
pub struct ScNewInvite {
    pub room_id: i32,
    pub target_id: i32,
}

#[derive(Clone, Copy, Debug, PartialEq, Eq, Structural)]
pub struct ScUpdateInvite {
    pub invite_id: i32,
    pub accept: bool,
}

/// Why a room or invite operation was refused.
#[derive(Clone, Copy, Debug, PartialEq, Eq, Structural)]
pub enum ServiceError {
    NotPlaying,
    PrivateRoomAccessDenied,
    InviteTargetAlreadyInRoom,
    InviteNotFound,
    RoomNotFound,
    NotHost,
    /// No id is left for a new row.
    Exhausted,
}

/// What an operation asks the outside world to do: the events to deliver,
/// in order, and the play-time accounting to record, in order.
pub struct Outcome {
    pub notices: Vec<Notice>,
    pub records: Vec<RecordAction>,
}

/// The view of a notice: its targets and its event.
pub open spec fn notice_view(n: Notice) -> (Seq<i32>, ScNotifyMessage) {
    (n.targets@, n.message)
}

pub open spec fn notices_view(s: Seq<Notice>) -> Seq<(Seq<i32>, ScNotifyMessage)> {
    s.map_values(|n: Notice| notice_view(n))
}

pub open spec fn room_key() -> spec_fn(ScRoomBasic) -> i32 {
    |r: ScRoomBasic| r.id
}

pub open spec fn playing_key() -> spec_fn(Playing) -> i32 {
    |p: Playing| p.user_id
}

pub open spec fn invite_key() -> spec_fn(Invite) -> i32 {
    |i: Invite| i.id
}

pub open spec fn has_room_in(rooms: Seq<ScRoomBasic>, room_id: i32) -> bool {
    keyed(rooms, room_key()).contains_key(room_id)
}

/// Keys unique (so at most one playing record per user); every record and
/// invite names a live room; at most one invite per sender and target; ids
/// below the next ones to hand out.
pub open spec fn wf_parts(
    rooms: Seq<ScRoomBasic>,
    playing: Seq<Playing>,
    invites: Seq<Invite>,
    next_room_id: i32,
    next_invite_id: i32,
) -> bool {
    &&& unique_keys(rooms, room_key())
    &&& unique_keys(playing, playing_key())
    &&& unique_keys(invites, invite_key())
    &&& forall|p: Playing| #[trigger] playing.contains(p) ==> has_room_in(rooms, p.room_id)
    &&& forall|i: Invite| #[trigger] invites.contains(i) ==> has_room_in(rooms, i.room_id)
    &&& forall|a: Invite, b: Invite|
        #[trigger] invites.contains(a) && #[trigger] invites.contains(b) && a.user_id == b.user_id
            && a.target_id == b.target_id ==> a == b
    &&& forall|r: ScRoomBasic| #[trigger] rooms.contains(r) ==> 0 < r.id < next_room_id
    &&& forall|i: Invite| #[trigger] invites.contains(i) ==> 0 < i.id < next_invite_id
    &&& next_room_id >= 1
    &&& next_invite_id >= 1
}

/// Which playing records an operation drops.
#[derive(Clone, Copy, Debug, PartialEq, Eq, Structural)]
pub enum PlayingSel {
    User(i32),
    Room(i32),
}

pub open spec fn pl_hit(sel: PlayingSel) -> spec_fn(Playing) -> bool {
    |p: Playing|
        match sel {
            PlayingSel::User(u) => p.user_id == u,
            PlayingSel::Room(r) => p.room_id == r,
        }
}

pub open spec fn pl_miss(sel: PlayingSel) -> spec_fn(Playing) -> bool {
    |p: Playing| !pl_hit(sel)(p)
}

/// Which invites an operation drops.
#[derive(Clone, Copy, Debug, PartialEq, Eq, Structural)]
pub enum InviteSel {
    /// Sent by the user.
    Sender(i32),
    /// Sent to the user.
    Target(i32),
    /// Sent by or to the user.
    Involving(i32),
    /// Sent by the first user to the second.
    Pair(i32, i32),
    /// Into the room.
    Room(i32),
    /// The invite with this id.
    Id(i32),
}

pub open spec fn inv_hit(sel: InviteSel) -> spec_fn(Invite) -> bool {
    |i: Invite|
        match sel {
            InviteSel::Sender(u) => i.user_id == u,
            InviteSel::Target(u) => i.target_id == u,
            InviteSel::Involving(u) => i.user_id == u || i.target_id == u,
            InviteSel::Pair(u, t) => i.user_id == u && i.target_id == t,
            InviteSel::Room(r) => i.room_id == r,
            InviteSel::Id(id) => i.id == id,
        }
}

pub open spec fn inv_miss(sel: InviteSel) -> spec_fn(Invite) -> bool {
    |i: Invite| !inv_hit(sel)(i)
}

pub open spec fn user_of() -> spec_fn(Playing) -> i32 {
    |p: Playing| p.user_id
}

pub open spec fn room_miss(room_id: i32) -> spec_fn(ScRoomBasic) -> bool {
    |r: ScRoomBasic| r.id != room_id
}

fn pl_matches(sel: PlayingSel, p: &Playing) -> (r: bool)
    ensures
        r == pl_hit(sel)(*p),
{
    match sel {
        PlayingSel::User(u) => p.user_id == u,
        PlayingSel::Room(rid) => p.room_id == rid,
    }
}

fn inv_matches(sel: InviteSel, i: &Invite) -> (r: bool)
    ensures
        r == inv_hit(sel)(*i),
{
    match sel {
        InviteSel::Sender(u) => i.user_id == u,
        InviteSel::Target(u) => i.target_id == u,
        InviteSel::Involving(u) => i.user_id == u || i.target_id == u,
        InviteSel::Pair(u, t) => i.user_id == u && i.target_id == t,
        InviteSel::Room(rid) => i.room_id == rid,
        InviteSel::Id(id) => i.id == id,
    }
}

/// Splits the records into those kept and those dropped, keeping the order.
fn split_playing(v: &Vec<Playing>, sel: PlayingSel) -> (r: (Vec<Playing>, Vec<Playing>))
    ensures
        r.0@ == v@.filter(pl_miss(sel)),
        r.1@ == v@.filter(pl_hit(sel)),
{
    let mut kept: Vec<Playing> = Vec::new();
    let mut dropped: Vec<Playing> = Vec::new();
    let mut i: usize = 0;
    while i < v.len()
        invariant
            i <= v@.len(),
            kept@ == v@.take(i as int).filter(pl_miss(sel)),
            dropped@ == v@.take(i as int).filter(pl_hit(sel)),
        decreases v@.len() - i,
    {
        proof {
            v@.lemma_take_succ_push(i as int);
            v@.take(i as int).lemma_filter_push(v@[i as int], pl_miss(sel));
            v@.take(i as int).lemma_filter_push(v@[i as int], pl_hit(sel));
        }
        if pl_matches(sel, &v[i]) {
            dropped.push(v[i]);
        } else {
            kept.push(v[i]);
        }
        i = i + 1;
    }
    assert(v@.take(v@.len() as int) == v@);
    (kept, dropped)
}

/// Splits the invites into those kept and those dropped, keeping the order.
pub(crate) fn split_invites(v: &Vec<Invite>, sel: InviteSel) -> (r: (Vec<Invite>, Vec<Invite>))
    ensures
        r.0@ == v@.filter(inv_miss(sel)),
        r.1@ == v@.filter(inv_hit(sel)),
{
    let mut kept: Vec<Invite> = Vec::new();
    let mut dropped: Vec<Invite> = Vec::new();
    let mut i: usize = 0;
    while i < v.len()
        invariant
            i <= v@.len(),
            kept@ == v@.take(i as int).filter(inv_miss(sel)),
            dropped@ == v@.take(i as int).filter(inv_hit(sel)),
        decreases v@.len() - i,
    {
        proof {
            v@.lemma_take_succ_push(i as int);
            v@.take(i as int).lemma_filter_push(v@[i as int], inv_miss(sel));
            v@.take(i as int).lemma_filter_push(v@[i as int], inv_hit(sel));
        }
        if inv_matches(sel, &v[i]) {
            dropped.push(v[i]);
        } else {
            kept.push(v[i]);
        }
        i = i + 1;
    }
    assert(v@.take(v@.len() as int) == v@);
    (kept, dropped)
}

/// Dropping rooms: the rooms kept, in order.
fn split_rooms(v: &Vec<ScRoomBasic>, room_id: i32) -> (r: Vec<ScRoomBasic>)
    ensures
        r@ == v@.filter(room_miss(room_id)),
{
    let mut kept: Vec<ScRoomBasic> = Vec::new();
    let mut i: usize = 0;
    while i < v.len()
        invariant
            i <= v@.len(),
            kept@ == v@.take(i as int).filter(room_miss(room_id)),
        decreases v@.len() - i,
    {
        proof {
            v@.lemma_take_succ_push(i as int);
            v@.take(i as int).lemma_filter_push(v@[i as int], room_miss(room_id));
        }
        if v[i].id != room_id {
            kept.push(v[i]);
        }
        i = i + 1;
    }
    assert(v@.take(v@.len() as int) == v@);
    kept
}

pub proof fn lemma_wf_filter_playing(
    rooms: Seq<ScRoomBasic>,
    playing: Seq<Playing>,
    invites: Seq<Invite>,
    nr: i32,
    ni: i32,
    sel: PlayingSel,
)
    requires
        wf_parts(rooms, playing, invites, nr, ni),
    ensures
        wf_parts(rooms, playing.filter(pl_miss(sel)), invites, nr, ni),
{
    lemma_unique_filter(playing, playing_key(), pl_miss(sel));
    assert forall|p: Playing| #[trigger] playing.filter(pl_miss(sel)).contains(p) implies has_room_in(
        rooms,
        p.room_id,
    ) by {
        lemma_filter_sub(playing, pl_miss(sel), p);
    }
}

pub proof fn lemma_wf_filter_invites(
    rooms: Seq<ScRoomBasic>,
    playing: Seq<Playing>,
    invites: Seq<Invite>,
    nr: i32,
    ni: i32,
    sel: InviteSel,
)
    requires
        wf_parts(rooms, playing, invites, nr, ni),
    ensures
        wf_parts(rooms, playing, invites.filter(inv_miss(sel)), nr, ni),
{
    let f = invites.filter(inv_miss(sel));
    lemma_unique_filter(invites, invite_key(), inv_miss(sel));
    assert forall|i: Invite| #[trigger] f.contains(i) implies has_room_in(rooms, i.room_id) && 0 < i.id
        < ni by {
        lemma_filter_sub(invites, inv_miss(sel), i);
    }
    assert forall|a: Invite, b: Invite|
        #[trigger] f.contains(a) && #[trigger] f.contains(b) && a.user_id == b.user_id
            && a.target_id == b.target_id implies a == b by {
        lemma_filter_sub(invites, inv_miss(sel), a);
        lemma_filter_sub(invites, inv_miss(sel), b);
    }
}

pub proof fn lemma_wf_delete_room(
    rooms: Seq<ScRoomBasic>,
    playing: Seq<Playing>,
    invites: Seq<Invite>,
    nr: i32,
    ni: i32,
    room_id: i32,
)
    requires
        wf_parts(rooms, playing, invites, nr, ni),
    ensures
        wf_parts(
            rooms.filter(room_miss(room_id)),
            playing.filter(pl_miss(PlayingSel::Room(room_id))),
            invites.filter(inv_miss(InviteSel::Room(room_id))),
            nr,
            ni,
        ),
{
    let r2 = rooms.filter(room_miss(room_id));
    let p2 = playing.filter(pl_miss(PlayingSel::Room(room_id)));
    let i2 = invites.filter(inv_miss(InviteSel::Room(room_id)));
    lemma_wf_filter_playing(rooms, playing, invites, nr, ni, PlayingSel::Room(room_id));
    lemma_wf_filter_invites(rooms, p2, invites, nr, ni, InviteSel::Room(room_id));
    lemma_keyed_filter(rooms, room_key(), room_miss(room_id));
    assert forall|p: Playing| #[trigger] p2.contains(p) implies has_room_in(r2, p.room_id) by {
        lemma_filter_sub(playing, pl_miss(PlayingSel::Room(room_id)), p);
        lemma_keyed_row(rooms, room_key(), p.room_id);
    }
    assert forall|i: Invite| #[trigger] i2.contains(i) implies has_room_in(r2, i.room_id) by {
        lemma_filter_sub(invites, inv_miss(InviteSel::Room(room_id)), i);
        lemma_keyed_row(rooms, room_key(), i.room_id);
    }
    assert forall|r: ScRoomBasic| #[trigger] r2.contains(r) implies 0 < r.id < nr by {
        lemma_filter_sub(rooms, room_miss(room_id), r);
    }
}

/// The record actions that end the game for each of the users.
pub open spec fn end_records(users: Seq<i32>, game_id: i32) -> Seq<RecordAction> {
    users.map_values(|u: i32| RecordAction::End { user_id: u, game_id })
}

/// The users of the records that are in the room, in order.
pub open spec fn members_in(playing: Seq<Playing>, room_id: i32) -> Seq<i32> {
    playing.filter(pl_hit(PlayingSel::Room(room_id))).map_values(user_of())
}

/// The notice that tells the target of an invite that it was deleted.
pub open spec fn invite_deleted_notice(map: NotifyMap) -> spec_fn(Invite) -> (
    Seq<i32>,
    ScNotifyMessage,
) {
    |i: Invite| (map.notify_targets(i.target_id), ScNotifyMessage::DeleteInvite(i.id))
}

/// `new` is `old` after `user_id` entered room `room_id`: the user's playing
/// record is replaced, and every invite sent by or to the user is dropped.
pub open spec fn entered(old: RoomStore, new: RoomStore, user_id: i32, room_id: i32) -> bool {
    &&& new.rooms@ == old.rooms@
    &&& new.playing@ == old.playing@.filter(pl_miss(PlayingSel::User(user_id))).push(
        Playing { user_id, room_id },
    )
    &&& new.invites@ == old.invites@.filter(inv_miss(InviteSel::Involving(user_id)))
    &&& new.next_room_id == old.next_room_id
    &&& new.next_invite_id == old.next_invite_id
}

/// `new` is `old` without room `room_id`, its playing records and its invites.
pub open spec fn room_deleted(old: RoomStore, new: RoomStore, room_id: i32) -> bool {
    &&& new.rooms@ == old.rooms@.filter(room_miss(room_id))
    &&& new.playing@ == old.playing@.filter(pl_miss(PlayingSel::Room(room_id)))
    &&& new.invites@ == old.invites@.filter(inv_miss(InviteSel::Room(room_id)))
    &&& new.next_room_id == old.next_room_id
    &&& new.next_invite_id == old.next_invite_id
}

/// Some room at an index below `n` has this id.
pub open spec fn room_before(rooms: Seq<ScRoomBasic>, room_id: i32, n: int) -> bool {
    exists|k: int| 0 <= k < n && rooms[k].id == room_id
}

/// A room is stale when its host is offline and it was last updated more
/// than `ROOM_STALE_MS` before `now`.
pub open spec fn is_outdated(map: NotifyMap, r: ScRoomBasic, now: i64) -> bool {
    r.updated_at + ROOM_STALE_MS < now && !map.is_online(r.host)
}

pub open spec fn outdated_pred(map: NotifyMap, now: i64) -> spec_fn(ScRoomBasic) -> bool {
    |r: ScRoomBasic| is_outdated(map, r, now)
}

/// `new`, `notices` and `records` are what `leave_room_and_notify` makes of
/// `old` for `user_id`, who is in a room.
pub open spec fn left_room(
    old: RoomStore,
    new: RoomStore,
    map: NotifyMap,
    user_id: i32,
    friends: Seq<i32>,
    notices: Seq<(Seq<i32>, ScNotifyMessage)>,
    records: Seq<RecordAction>,
) -> bool {
    let room = old.room_of(user_id).unwrap();
    let hosting = room.host == user_id;
    let playing = old.playing@.filter(pl_miss(PlayingSel::User(user_id)));
    &&& new.room_of(user_id) is None
    &&& new.next_room_id == old.next_room_id
    &&& new.next_invite_id == old.next_invite_id
    &&& hosting ==> {
        &&& new.rooms@ == old.rooms@.filter(room_miss(room.id))
        &&& new.playing@ == playing.filter(pl_miss(PlayingSel::Room(room.id)))
        &&& new.invites@ == old.invites@.filter(inv_miss(InviteSel::Room(room.id)))
        &&& records == seq![RecordAction::End { user_id, game_id: room.game_id }] + end_records(
            members_in(playing, room.id),
            room.game_id,
        )
    }
    &&& !hosting ==> {
        &&& new.rooms@ == old.rooms@
        &&& new.playing@ == playing
        &&& new.invites@ == old.invites@
        &&& records == seq![RecordAction::End { user_id, game_id: room.game_id }]
    }
    &&& notices == (if hosting {
        seq![(map.online_ids(), ScNotifyMessage::DeleteRoom(room.id))] + old.invites@.filter(
            inv_hit(InviteSel::Room(room.id)),
        ).map_values(invite_deleted_notice(map))
    } else {
        Seq::empty()
    }) + seq![new.friends_notice(map, user_id, friends)]
}

/// Rooms, playing records and invites.
pub struct RoomStore {
    pub rooms: Vec<ScRoomBasic>,
    pub playing: Vec<Playing>,
    pub invites: Vec<Invite>,
    pub next_room_id: i32,
    pub next_invite_id: i32,
}

impl RoomStore {
    pub open spec fn rooms_map(&self) -> Map<i32, ScRoomBasic> {
        keyed(self.rooms@, room_key())
    }

    pub open spec fn playing_map(&self) -> Map<i32, Playing> {
        keyed(self.playing@, playing_key())
    }

    pub open spec fn invites_map(&self) -> Map<i32, Invite> {
        keyed(self.invites@, invite_key())
    }

    pub open spec fn has_room(&self, room_id: i32) -> bool {
        self.rooms_map().contains_key(room_id)
    }

    /// The room the user is in, if any.
    pub open spec fn room_of(&self, user_id: i32) -> Option<ScRoomBasic> {
        if self.playing_map().contains_key(user_id) {
            Some(self.rooms_map()[self.playing_map()[user_id].room_id])
        } else {
            None
        }
    }

    /// The users in a room, in the order they entered.
    pub open spec fn members(&self, room_id: i32) -> Seq<i32> {
        members_in(self.playing@, room_id)
    }

    pub open spec fn wf(&self) -> bool {
        wf_parts(self.rooms@, self.playing@, self.invites@, self.next_room_id, self.next_invite_id)
    }

    pub fn new() -> (r: RoomStore)
        ensures
            r.wf(),
            r.rooms@.len() == 0,
            r.playing@.len() == 0,
            r.invites@.len() == 0,
    {
        RoomStore {
            rooms: Vec::new(),
            playing: Vec::new(),
            invites: Vec::new(),
            next_room_id: 1,
            next_invite_id: 1,
        }
    }

    /// The presence of a user as friends see it.
    pub open spec fn user_basic(&self, map: NotifyMap, user_id: i32) -> ScUserBasic {
        ScUserBasic { id: user_id, online: map.is_online(user_id), playing: self.room_of(user_id) }
    }

    /// The notice that tells the user's online friends of the user's presence.
    pub open spec fn friends_notice(&self, map: NotifyMap, user_id: i32, friends: Seq<i32>) -> (
        Seq<i32>,
        ScNotifyMessage,
    ) {
        (
            friends.filter(map.online_pred()),
            ScNotifyMessage::UpdateUser(self.user_basic(map, user_id)),
        )
    }

    /// Record actions of entering a room: the game of the previous room ends,
    /// the game of the new one starts.
    pub open spec fn enter_records(&self, user_id: i32, room_id: i32) -> Seq<RecordAction> {
        let start = seq![
            RecordAction::Start { user_id, game_id: self.rooms_map()[room_id].game_id },
        ];
        match self.room_of(user_id) {
            Some(r0) => seq![RecordAction::End { user_id, game_id: r0.game_id }] + start,
            None => start,
        }
    }

    pub fn user_basic_of(&self, map: &NotifyMap, user_id: i32) -> (r: ScUserBasic)
        requires
            self.wf(),
            map.wf(),
        ensures
            r == self.user_basic(*map, user_id),
    {
        ScUserBasic { id: user_id, online: map.has_user(user_id), playing: self.get_playing(user_id) }
    }

    pub fn notify_friends(&self, map: &NotifyMap, user_id: i32, friends: &Vec<i32>) -> (r: Notice)
        requires
            self.wf(),
            map.wf(),
        ensures
            notice_view(r) == self.friends_notice(*map, user_id, friends@),
    {
        let user = self.user_basic_of(map, user_id);
        map.notify_ids(friends, ScNotifyMessage::UpdateUser(user))
    }

    /// Puts the user in the room, in place of any room the user was in, and
    /// drops every invite sent by or to the user.
    pub fn enter_room(&mut self, user_id: i32, room_id: i32) -> (r: Vec<RecordAction>)
        requires
            old(self).wf(),
            old(self).has_room(room_id),
        ensures
            final(self).wf(),
            entered(*old(self), *final(self), user_id, room_id),
            final(self).room_of(user_id) == Some(old(self).rooms_map()[room_id]),
            forall|u: i32| u != user_id ==> #[trigger] final(self).room_of(u) == old(self).room_of(u),
            r@ == old(self).enter_records(user_id, room_id),
    {
        let ghost pre = *self;
        let mut records: Vec<RecordAction> = Vec::new();
        let room = self.get_room(room_id).unwrap();
        match self.get_playing(user_id) {
            Some(r0) => records.push(RecordAction::End { user_id, game_id: r0.game_id }),
            None => {},
        }
        records.push(RecordAction::Start { user_id, game_id: room.game_id });
        let (kept, _) = split_playing(&self.playing, PlayingSel::User(user_id));
        let row = Playing { user_id, room_id };
        proof {
            lemma_wf_filter_playing(
                self.rooms@,
                self.playing@,
                self.invites@,
                self.next_room_id,
                self.next_invite_id,
                PlayingSel::User(user_id),
            );
            lemma_keyed_filter(self.playing@, playing_key(), pl_miss(PlayingSel::User(user_id)));
            if keyed(kept@, playing_key()).contains_key(user_id) {
                lemma_keyed_row(self.playing@, playing_key(), user_id);
            }
            lemma_keyed_push(kept@, playing_key(), row);
        }
        self.playing = kept;
        self.playing.push(row);
        let (kept_invites, _) = split_invites(&self.invites, InviteSel::Involving(user_id));
        proof {
            let p2 = self.playing@;
            assert forall|p: Playing| #[trigger] p2.contains(p) implies has_room_in(
                self.rooms@,
                p.room_id,
            ) by {
                if p != row {
                    assert(kept@.contains(p)) by {
                        let j = choose|j: int| 0 <= j < p2.len() && p2[j] == p;
                        assert(kept@[j] == p);
                    }
                }
            }
            lemma_wf_filter_invites(
                self.rooms@,
                p2,
                self.invites@,
                self.next_room_id,
                self.next_invite_id,
                InviteSel::Involving(user_id),
            );
        }
        self.invites = kept_invites;
        proof {
            lemma_keyed_index(self.playing@, playing_key(), self.playing@.len() - 1);
            assert forall|u: i32| u != user_id implies #[trigger] self.room_of(u) == pre.room_of(u) by {
                assert(self.playing_map().contains_key(u) == pre.playing_map().contains_key(u));
                if pre.playing_map().contains_key(u) {
                    assert(self.playing_map()[u] == pre.playing_map()[u]);
                }
            }
        }
        records
    }

    /// Deletes the room with its playing records and its invites; the game
    /// ends for each user who was in it. Returns those record actions and the
    /// invites deleted.
    pub fn delete_room(&mut self, room_id: i32) -> (r: (Vec<RecordAction>, Vec<Invite>))
        requires
            old(self).wf(),
        ensures
            final(self).wf(),
            room_deleted(*old(self), *final(self), room_id),
            !final(self).has_room(room_id),
            r.1@ == old(self).invites@.filter(inv_hit(InviteSel::Room(room_id))),
            r.0@ == (if old(self).has_room(room_id) {
                end_records(old(self).members(room_id), old(self).rooms_map()[room_id].game_id)
            } else {
                Seq::<RecordAction>::empty()
            }),
    {
        let mut records: Vec<RecordAction> = Vec::new();
        let (kept, dropped) = split_playing(&self.playing, PlayingSel::Room(room_id));
        match self.get_room(room_id) {
            Some(room) => {
                let mut i: usize = 0;
                while i < dropped.len()
                    invariant
                        i <= dropped@.len(),
                        records@ == end_records(
                            dropped@.map_values(user_of()),
                            room.game_id,
                        ).take(i as int),
                    decreases dropped@.len() - i,
                {
                    records.push(RecordAction::End { user_id: dropped[i].user_id, game_id: room.game_id });
                    i = i + 1;
                    assert(records@ =~= end_records(
                        dropped@.map_values(user_of()),
                        room.game_id,
                    ).take(i as int));
                }
                assert(records@ =~= end_records(
                    dropped@.map_values(user_of()),
                    room.game_id,
                ));
            },
            None => {},
        }
        let (kept_invites, dropped_invites) = split_invites(&self.invites, InviteSel::Room(room_id));
        let kept_rooms = split_rooms(&self.rooms, room_id);
        proof {
            lemma_wf_delete_room(
                self.rooms@,
                self.playing@,
                self.invites@,
                self.next_room_id,
                self.next_invite_id,
                room_id,
            );
            lemma_keyed_filter(self.rooms@, room_key(), room_miss(room_id));
        }
        self.playing = kept;
        self.invites = kept_invites;
        self.rooms = kept_rooms;
        (records, dropped_invites)
    }

    /// Creates a room hosted by the user and puts the user in it; the user's
    /// online friends are told.
    pub fn create_room(
        &mut self,
        map: &NotifyMap,
        user_id: i32,
        req: ScNewRoom,
        friends: &Vec<i32>,
        now: i64,
    ) -> (r: Result<(ScRoomBasic, Outcome), ServiceError>)
        requires
            old(self).wf(),
            map.wf(),
        ensures
            final(self).wf(),
            r is Err <==> old(self).next_room_id == i32::MAX,
            r matches Err(e) ==> e == ServiceError::Exhausted && *final(self) == *old(self),
            r matches Ok((room, out)) ==> {
                let mid = RoomStore {
                    rooms: final(self).rooms,
                    playing: old(self).playing,
                    invites: old(self).invites,
                    next_room_id: final(self).next_room_id,
                    next_invite_id: final(self).next_invite_id,
                };
                &&& room == ScRoomBasic {
                    id: old(self).next_room_id,
                    game_id: req.game_id,
                    private: req.private,
                    host: user_id,
                    created_at: now,
                    updated_at: now,
                }
                &&& final(self).rooms@ == old(self).rooms@.push(room)
                &&& final(self).next_room_id == old(self).next_room_id + 1
                &&& final(self).playing@ == old(self).playing@.filter(
                    pl_miss(PlayingSel::User(user_id)),
                ).push(Playing { user_id, room_id: room.id })
                &&& final(self).invites@ == old(self).invites@.filter(
                    inv_miss(InviteSel::Involving(user_id)),
                )
                &&& final(self).room_of(user_id) == Some(room)
                &&& out.records@ == mid.enter_records(user_id, room.id)
                &&& notices_view(out.notices@) == seq![
                    final(self).friends_notice(*map, user_id, friends@),
                ]
            },
    {
        if self.next_room_id == i32::MAX {
            return Err(ServiceError::Exhausted);
        }
        let room = ScRoomBasic {
            id: self.next_room_id,
            game_id: req.game_id,
            private: req.private,
            host: user_id,
            created_at: now,
            updated_at: now,
        };
        proof {
            if keyed(self.rooms@, room_key()).contains_key(room.id) {
                lemma_keyed_row(self.rooms@, room_key(), room.id);
            }
            lemma_keyed_push(self.rooms@, room_key(), room);
            assert forall|p: Playing| #[trigger] self.playing@.contains(p) implies has_room_in(
                self.rooms@.push(room),
                p.room_id,
            ) by {}
            assert forall|i: Invite| #[trigger] self.invites@.contains(i) implies has_room_in(
                self.rooms@.push(room),
                i.room_id,
            ) by {}
            assert forall|r: ScRoomBasic| #[trigger] self.rooms@.push(room).contains(r) implies 0 < r.id
                < self.next_room_id + 1 by {
                if r != room {
                    let j = choose|j: int| 0 <= j < self.rooms@.push(room).len() && self.rooms@.push(room)[j] == r;
                    assert(self.rooms@.contains(self.rooms@[j]));
                }
            }
        }
        self.rooms.push(room);
        self.next_room_id = self.next_room_id + 1;
        let records = self.enter_room(user_id, room.id);
        let mut notices: Vec<Notice> = Vec::new();
        notices.push(self.notify_friends(map, user_id, friends));
        assert(notices_view(notices@) =~= seq![self.friends_notice(*map, user_id, friends@)]);
        Ok((room, Outcome { notices, records }))
    }

    /// The users in the room, in the order they entered.
    pub fn get_room_user_ids(&self, room_id: i32) -> (r: Vec<i32>)
        ensures
            r@ == self.members(room_id),
    {
        let (_, rows) = split_playing(&self.playing, PlayingSel::Room(room_id));
        let mut ids: Vec<i32> = Vec::new();
        let mut i: usize = 0;
        while i < rows.len()
            invariant
                i <= rows@.len(),
                ids@ == rows@.map_values(user_of()).take(i as int),
            decreases rows@.len() - i,
        {
            ids.push(rows[i].user_id);
            i = i + 1;
            assert(ids@ =~= rows@.map_values(user_of()).take(i as int));
        }
        assert(ids@ =~= rows@.map_values(user_of()));
        ids
    }

    /// The host changes the room's game, host or privacy. When the game
    /// changes, the host's play time moves from the old game to the new one.
    /// The host's online friends and the room's online members are told.
    pub fn update_room(
        &mut self,
        map: &NotifyMap,
        user_id: i32,
        req: ScUpdateRoom,
        friends: &Vec<i32>,
        now: i64,
    ) -> (r: Result<(ScRoomBasic, Outcome), ServiceError>)
        requires
            old(self).wf(),
            map.wf(),
        ensures
            final(self).wf(),
            (r == Err::<(ScRoomBasic, Outcome), ServiceError>(ServiceError::RoomNotFound)) <==> !old(
                self,
            ).has_room(req.id),
            (r == Err::<(ScRoomBasic, Outcome), ServiceError>(ServiceError::NotHost)) <==> (old(
                self,
            ).has_room(req.id) && old(self).rooms_map()[req.id].host != user_id),
            r is Err ==> *final(self) == *old(self),
            r is Ok <==> (old(self).has_room(req.id) && old(self).rooms_map()[req.id].host == user_id),
            r matches Ok((room, out)) ==> {
                let before = old(self).rooms_map()[req.id];
                &&& room == ScRoomBasic {
                    id: req.id,
                    game_id: req.game_id,
                    private: req.private,
                    host: req.host,
                    created_at: before.created_at,
                    updated_at: now,
                }
                &&& final(self).rooms_map() == old(self).rooms_map().insert(req.id, room)
                &&& final(self).rooms@.len() == old(self).rooms@.len()
                &&& final(self).playing == old(self).playing
                &&& final(self).invites == old(self).invites
                &&& final(self).next_room_id == old(self).next_room_id
                &&& final(self).next_invite_id == old(self).next_invite_id
                &&& out.records@ == (if before.game_id != req.game_id {
                    seq![
                        RecordAction::End { user_id, game_id: before.game_id },
                        RecordAction::Start { user_id, game_id: req.game_id },
                    ]
                } else {
                    Seq::<RecordAction>::empty()
                })
                &&& notices_view(out.notices@) == seq![
                    final(self).friends_notice(*map, user_id, friends@),
                    (
                        final(self).members(req.id).filter(map.online_pred()),
                        ScNotifyMessage::UpdateRoom(room),
                    ),
                ]
            },
    {
        let i = match self.find_room(req.id) {
            Some(i) => i,
            None => {
                return Err(ServiceError::RoomNotFound);
            },
        };
        let before = self.rooms[i];
        if before.host != user_id {
            return Err(ServiceError::NotHost);
        }
        let mut records: Vec<RecordAction> = Vec::new();
        if before.game_id != req.game_id {
            records.push(RecordAction::End { user_id, game_id: before.game_id });
            records.push(RecordAction::Start { user_id, game_id: req.game_id });
        }
        let room = ScRoomBasic {
            id: req.id,
            game_id: req.game_id,
            private: req.private,
            host: req.host,
            created_at: before.created_at,
            updated_at: now,
        };
        let ghost pre = self.rooms@;
        proof {
            lemma_keyed_update(pre, room_key(), i as int, room);
        }
        self.rooms[i] = room;
        proof {
            assert(self.rooms@ == pre.update(i as int, room));
            assert forall|p: Playing| #[trigger] self.playing@.contains(p) implies has_room_in(
                self.rooms@,
                p.room_id,
            ) by {}
            assert forall|v: Invite| #[trigger] self.invites@.contains(v) implies has_room_in(
                self.rooms@,
                v.room_id,
            ) by {}
            assert forall|x: ScRoomBasic| #[trigger] self.rooms@.contains(x) implies 0 < x.id
                < self.next_room_id by {
                let j = choose|j: int| 0 <= j < self.rooms@.len() && self.rooms@[j] == x;
                assert(pre.contains(pre[j]));
                assert(pre.contains(pre[i as int]));
            }
        }
        let mut notices: Vec<Notice> = Vec::new();
        notices.push(self.notify_friends(map, user_id, friends));
        let members = self.get_room_user_ids(req.id);
        notices.push(map.notify_ids(&members, ScNotifyMessage::UpdateRoom(room)));
        assert(notices_view(notices@) =~= seq![
            self.friends_notice(*map, user_id, friends@),
            (self.members(req.id).filter(map.online_pred()), ScNotifyMessage::UpdateRoom(room)),
        ]);
        Ok((room, Outcome { notices, records }))
    }

    /// The user enters a public room; the user's online friends are told.
    pub fn enter_pub_room(
        &mut self,
        map: &NotifyMap,
        user_id: i32,
        req: ScUpdatePlaying,
        friends: &Vec<i32>,
    ) -> (r: Result<(ScRoomBasic, Outcome), ServiceError>)
        requires
            old(self).wf(),
            map.wf(),
        ensures
            final(self).wf(),
            (r == Err::<(ScRoomBasic, Outcome), ServiceError>(ServiceError::RoomNotFound)) <==> !old(
                self,
            ).has_room(req.room_id),
            (r == Err::<(ScRoomBasic, Outcome), ServiceError>(
                ServiceError::PrivateRoomAccessDenied,
            )) <==> (old(self).has_room(req.room_id) && old(self).rooms_map()[req.room_id].private),
            r is Err ==> *final(self) == *old(self),
            r is Ok <==> (old(self).has_room(req.room_id) && !old(self).rooms_map()[req.room_id].private),
            r matches Ok((room, out)) ==> {
                &&& room == old(self).rooms_map()[req.room_id]
                &&& entered(*old(self), *final(self), user_id, req.room_id)
                &&& final(self).room_of(user_id) == Some(room)
                &&& out.records@ == old(self).enter_records(user_id, req.room_id)
                &&& notices_view(out.notices@) == seq![
                    final(self).friends_notice(*map, user_id, friends@),
                ]
            },
    {
        let room = match self.get_room(req.room_id) {
            Some(room) => room,
            None => {
                return Err(ServiceError::RoomNotFound);
            },
        };
        if room.private {
            return Err(ServiceError::PrivateRoomAccessDenied);
        }
        let records = self.enter_room(user_id, req.room_id);
        let mut notices: Vec<Notice> = Vec::new();
        notices.push(self.notify_friends(map, user_id, friends));
        assert(notices_view(notices@) =~= seq![self.friends_notice(*map, user_id, friends@)]);
        Ok((room, Outcome { notices, records }))
    }

    /// Notices, one per invite, telling each target that the invite is gone.
    pub(crate) fn notify_invites_deleted(map: &NotifyMap, invites: &Vec<Invite>, notices: &mut Vec<Notice>)
        requires
            map.wf(),
        ensures
            notices_view(final(notices)@) == notices_view(old(notices)@) + invites@.map_values(
                invite_deleted_notice(*map),
            ),
    {
        let ghost start = notices_view(notices@);
        let mut i: usize = 0;
        while i < invites.len()
            invariant
                map.wf(),
                i <= invites@.len(),
                notices_view(notices@) == start + invites@.map_values(invite_deleted_notice(*map)).take(
                    i as int,
                ),
            decreases invites@.len() - i,
        {
            let n = map.notify(invites[i].target_id, ScNotifyMessage::DeleteInvite(invites[i].id));
            let ghost prev = notices@;
            notices.push(n);
            proof {
                assert(notice_view(n) == invite_deleted_notice(*map)(invites@[i as int]));
                assert(notices_view(notices@) =~= notices_view(prev).push(notice_view(n)));
            }
            i = i + 1;
            assert(notices_view(notices@) =~= start + invites@.map_values(
                invite_deleted_notice(*map),
            ).take(i as int));
        }
        assert(invites@.map_values(invite_deleted_notice(*map)).take(invites@.len() as int)
            =~= invites@.map_values(invite_deleted_notice(*map)));
    }

    /// The user leaves the room the user is in: the user's game ends and the
    /// user's playing record goes. When the user is the room's host the room is
    /// deleted too, with every invite into it (see `delete_room`): every
    /// online user is told, then the target of each deleted invite. The user's
    /// online friends are told last.
    pub fn leave_room_and_notify(&mut self, map: &NotifyMap, user_id: i32, friends: &Vec<i32>) -> (r:
        Result<Outcome, ServiceError>)
        requires
            old(self).wf(),
            map.wf(),
        ensures
            final(self).wf(),
            r is Err <==> old(self).room_of(user_id) is None,
            r matches Err(e) ==> e == ServiceError::NotPlaying && *final(self) == *old(self),
            r matches Ok(out) ==> left_room(
                *old(self),
                *final(self),
                *map,
                user_id,
                friends@,
                notices_view(out.notices@),
                out.records@,
            ),
    {
        let room = match self.get_playing(user_id) {
            Some(room) => room,
            None => {
                return Err(ServiceError::NotPlaying);
            },
        };
        let ghost pre = *self;
        let mut records: Vec<RecordAction> = Vec::new();
        records.push(RecordAction::End { user_id, game_id: room.game_id });
        let (kept, _) = split_playing(&self.playing, PlayingSel::User(user_id));
        proof {
            lemma_wf_filter_playing(
                self.rooms@,
                self.playing@,
                self.invites@,
                self.next_room_id,
                self.next_invite_id,
                PlayingSel::User(user_id),
            );
            lemma_keyed_filter(self.playing@, playing_key(), pl_miss(PlayingSel::User(user_id)));
        }
        self.playing = kept;
        let mut notices: Vec<Notice> = Vec::new();
        if room.host == user_id {
            let ghost mid = *self;
            proof {
                lemma_keyed_row(pre.playing@, playing_key(), user_id);
                assert(pre.playing@.contains(pre.playing_map()[user_id]));
                assert(mid.has_room(room.id));
            }
            let (mut ended, dropped) = self.delete_room(room.id);
            records.append(&mut ended);
            let n = map.notify_all(ScNotifyMessage::DeleteRoom(room.id));
            notices.push(n);
            assert(notices_view(notices@) =~= seq![notice_view(n)]);
            Self::notify_invites_deleted(map, &dropped, &mut notices);
            proof {
                lemma_keyed_filter(mid.playing@, playing_key(), pl_miss(PlayingSel::Room(room.id)));
            }
        }
        let ghost prev = notices@;
        let last = self.notify_friends(map, user_id, friends);
        notices.push(last);
        proof {
            assert(notices_view(notices@) =~= notices_view(prev).push(notice_view(last)));
            if room.host == user_id {
            } else {
                assert(notices_view(prev) =~= Seq::empty());
            }
            assert(!self.playing_map().contains_key(user_id));
            assert(self.room_of(user_id) is None);
            assert(pre.room_of(user_id) == Some(room));
            assert(notices_view(notices@) == (if room.host == user_id {
                seq![(map.online_ids(), ScNotifyMessage::DeleteRoom(room.id))] + pre.invites@.filter(
                    inv_hit(InviteSel::Room(room.id)),
                ).map_values(invite_deleted_notice(*map))
            } else {
                Seq::empty()
            }) + seq![self.friends_notice(*map, user_id, friends@)]);
            assert(self.next_room_id == pre.next_room_id);
            assert(self.next_invite_id == pre.next_invite_id);
            if room.host != user_id {
                assert(self.rooms@ == pre.rooms@);
                assert(self.playing@ == pre.playing@.filter(pl_miss(PlayingSel::User(user_id))));
            } else {
                assert(self.playing@ == pre.playing@.filter(pl_miss(PlayingSel::User(user_id))).filter(pl_miss(PlayingSel::Room(room.id))));
            }
            if room.host == user_id {
                assert(self.rooms@ == pre.rooms@.filter(room_miss(room.id)));
                assert(self.invites@ == pre.invites@.filter(inv_miss(InviteSel::Room(room.id))));
                assert(records@ == seq![RecordAction::End { user_id, game_id: room.game_id }] + end_records(
                    members_in(pre.playing@.filter(pl_miss(PlayingSel::User(user_id))), room.id),
                    room.game_id,
                ));
            } else {
                assert(self.invites@ == pre.invites@);
                assert(records@ == seq![RecordAction::End { user_id, game_id: room.game_id }]);
            }
        }
        Ok(Outcome { notices, records })
    }

    fn outdated(map: &NotifyMap, r: &ScRoomBasic, now: i64) -> (b: bool)
        requires
            map.wf(),
        ensures
            b == is_outdated(*map, *r, now),
    {
        now > i64::MIN + ROOM_STALE_MS && r.updated_at < now - ROOM_STALE_MS && !map.has_user(r.host)
    }

    /// The stale rooms, in order.
    pub fn get_outdated_rooms(&self, map: &NotifyMap, now: i64) -> (r: Vec<ScRoomBasic>)
        requires
            self.wf(),
            map.wf(),
        ensures
            r@ == self.rooms@.filter(outdated_pred(*map, now)),
            forall|a: int, b: int| 0 <= a < b < r@.len() ==> #[trigger] r@[a].id != #[trigger] r@[b].id,
    {
        let mut found: Vec<ScRoomBasic> = Vec::new();
        let mut i: usize = 0;
        while i < self.rooms.len()
            invariant
                self.wf(),
                map.wf(),
                i <= self.rooms@.len(),
                found@ == self.rooms@.take(i as int).filter(outdated_pred(*map, now)),
                forall|a: int, b: int| 0 <= a < b < found@.len() ==> #[trigger] found@[a].id != #[trigger] found@[b].id,
                forall|a: int| 0 <= a < found@.len() ==> room_before(self.rooms@, #[trigger] found@[a].id, i as int),
            decreases self.rooms@.len() - i,
        {
            proof {
                self.rooms@.lemma_take_succ_push(i as int);
                self.rooms@.take(i as int).lemma_filter_push(
                    self.rooms@[i as int],
                    outdated_pred(*map, now),
                );
            }
            if Self::outdated(map, &self.rooms[i], now) {
                let ghost prev = found@;
                let x = self.rooms[i];
                proof {
                    assert forall|a: int| 0 <= a < prev.len() implies prev[a].id != x.id by {
                        assert(room_before(self.rooms@, prev[a].id, i as int));
                        let k = choose|k: int| 0 <= k < i && self.rooms@[k].id == prev[a].id;
                        assert(room_key()(self.rooms@[k]) != room_key()(self.rooms@[i as int]));
                    }
                }
                found.push(x);
                proof {
                    assert forall|a: int| 0 <= a < found@.len() implies room_before(self.rooms@,
                        #[trigger] found@[a].id, i + 1) by {
                        if a < prev.len() {
                            assert(room_before(self.rooms@, prev[a].id, i as int));
                            let k = choose|k: int| 0 <= k < i && self.rooms@[k].id == prev[a].id;
                            assert(0 <= k < i + 1 && self.rooms@[k].id == found@[a].id);
                        } else {
                            assert(self.rooms@[i as int].id == found@[a].id);
                        }
                    }
                }
            }
            i = i + 1;
        }
        assert(self.rooms@.take(self.rooms@.len() as int) == self.rooms@);
        found
    }

    /// One sweep of stale rooms: the first `limit` of them (in order) are
    /// deleted as by `clean_outdated_room`, and every other room is kept.
    /// Returns the rooms swept and the outcome of each deletion.
    pub fn clean_outdated_rooms(&mut self, map: &NotifyMap, now: i64, limit: usize) -> (r: (
        Vec<ScRoomBasic>,
        Vec<Outcome>,
    ))
        requires
            old(self).wf(),
            map.wf(),
        ensures
            final(self).wf(),
            ({
                let stale = old(self).rooms@.filter(outdated_pred(*map, now));
                r.0@ == stale.take(if stale.len() < limit { stale.len() as int } else { limit as int })
            }),
            forall|i: int| 0 <= i < r.0@.len() ==> !final(self).has_room(#[trigger] r.0@[i].id),
            forall|k: i32|
                #![trigger final(self).rooms_map().contains_key(k)]
                old(self).has_room(k) && (forall|i: int| 0 <= i < r.0@.len() ==> r.0@[i].id != k)
                    ==> final(self).has_room(k) && final(self).rooms_map()[k] == old(self).rooms_map()[k],
            forall|k: i32| #[trigger] final(self).has_room(k) ==> old(self).has_room(k),
            r.1@.len() == r.0@.len(),
            forall|i: int|
                0 <= i < r.1@.len() ==> notices_view((#[trigger] r.1@[i]).notices@).len() >= 1
                    && notices_view(r.1@[i].notices@)[0] == (
                    map.online_ids(),
                    ScNotifyMessage::DeleteRoom(r.0@[i].id),
                ),
    {
        let mut stale = self.get_outdated_rooms(map, now);
        let ghost all = stale@;
        if stale.len() > limit {
            stale.truncate(limit);
        }
        assert(stale@ =~= all.take(if all.len() < limit { all.len() as int } else { limit as int }));
        let ghost pre = *self;
        let mut outcomes: Vec<Outcome> = Vec::new();
        let mut i: usize = 0;
        while i < stale.len()
            invariant
                self.wf(),
                map.wf(),
                pre.wf(),
                all == pre.rooms@.filter(outdated_pred(*map, now)),
                stale@.len() <= all.len(),
                forall|j: int| 0 <= j < stale@.len() ==> #[trigger] stale@[j] == all[j],
                i <= stale@.len(),
                outcomes@.len() == i,
                forall|a: int, b: int| 0 <= a < b < all.len() ==> #[trigger] all[a].id != #[trigger] all[b].id,
                forall|j: int|
                    0 <= j < i ==> notices_view((#[trigger] outcomes@[j]).notices@).len() >= 1
                        && notices_view(outcomes@[j].notices@)[0] == (
                        map.online_ids(),
                        ScNotifyMessage::DeleteRoom(stale@[j].id),
                    ),
                forall|j: int| 0 <= j < i ==> !self.has_room(#[trigger] stale@[j].id),
                forall|k: i32|
                    #![trigger self.rooms_map().contains_key(k)]
                    pre.has_room(k) && (forall|j: int| 0 <= j < i ==> stale@[j].id != k)
                        ==> self.has_room(k) && self.rooms_map()[k] == pre.rooms_map()[k],
                forall|k: i32| #[trigger] self.has_room(k) ==> pre.has_room(k),
            decreases stale@.len() - i,
        {
            let ghost before = *self;
            let id = stale[i].id;
            proof {
                assert(all.contains(all[i as int]));
                lemma_filter_sub(pre.rooms@, outdated_pred(*map, now), stale@[i as int]);
                let j0 = choose|j0: int| 0 <= j0 < pre.rooms@.len() && pre.rooms@[j0] == stale@[i as int];
                lemma_keyed_index(pre.rooms@, room_key(), j0);
                assert forall|j: int| 0 <= j < i implies stale@[j].id != id by {
                    assert(stale@[j] == all[j]);
                    assert(stale@[i as int] == all[i as int]);
                }
                assert(pre.has_room(id));
                assert(before.rooms_map().contains_key(id));
                assert(before.rooms_map()[id] == pre.rooms_map()[id]);
                assert(is_outdated(*map, before.rooms_map()[id], now));
            }
            let out = self.clean_outdated_room(map, id, now).unwrap();
            proof {
                assert(notices_view(out.notices@).len() >= 1);
            }
            outcomes.push(out);
            proof {
                lemma_keyed_filter(before.rooms@, room_key(), room_miss(id));
                assert forall|k: i32| #[trigger] self.has_room(k) implies before.has_room(k) by {}
                assert(!self.has_room(id));
                assert forall|k: i32| before.has_room(k) && k != id implies #[trigger] self.rooms_map().contains_key(k)
                    && self.rooms_map()[k] == before.rooms_map()[k] by {
                    lemma_keyed_row(before.rooms@, room_key(), k);
                }
                assert forall|k: i32|
                    pre.has_room(k) && (forall|j: int| 0 <= j < i + 1 ==> stale@[j].id != k)
                    implies #[trigger] self.rooms_map().contains_key(k) && self.rooms_map()[k] == pre.rooms_map()[k] by {
                    assert(stale@[i as int].id != k);
                    assert(forall|j: int| 0 <= j < i ==> stale@[j].id != k);
                    assert(before.rooms_map().contains_key(k));
                }
            }
            i = i + 1;
        }
        proof {
            assert forall|k: i32|
                pre.has_room(k) && (forall|j: int| 0 <= j < stale@.len() ==> stale@[j].id != k)
                implies #[trigger] self.rooms_map().contains_key(k) && self.rooms_map()[k] == pre.rooms_map()[k] by {
                assert(self.rooms_map().contains_key(k));
            }
        }
        (stale, outcomes)
    }

    /// Deletes the room if it is stale (see `delete_room`), telling every
    /// online user, then the target of each deleted invite; `None`, and nothing
    /// changed, if there is no such stale room.
    pub fn clean_outdated_room(&mut self, map: &NotifyMap, room_id: i32, now: i64) -> (r: Option<
        Outcome,
    >)
        requires
            old(self).wf(),
            map.wf(),
        ensures
            final(self).wf(),
            r is Some <==> (old(self).has_room(room_id) && is_outdated(
                *map,
                old(self).rooms_map()[room_id],
                now,
            )),
            r is None ==> *final(self) == *old(self),
            r matches Some(out) ==> {
                &&& room_deleted(*old(self), *final(self), room_id)
                &&& out.records@ == end_records(
                    old(self).members(room_id),
                    old(self).rooms_map()[room_id].game_id,
                )
                &&& notices_view(out.notices@) == seq![
                    (map.online_ids(), ScNotifyMessage::DeleteRoom(room_id)),
                ] + old(self).invites@.filter(inv_hit(InviteSel::Room(room_id))).map_values(
                    invite_deleted_notice(*map),
                )
            },
    {
        match self.get_room(room_id) {
            Some(room) => {
                if !Self::outdated(map, &room, now) {
                    return None;
                }
            },
            None => {
                return None;
            },
        }
        let (records, dropped) = self.delete_room(room_id);
        let mut notices: Vec<Notice> = Vec::new();
        let n = map.notify_all(ScNotifyMessage::DeleteRoom(room_id));
        notices.push(n);
        assert(notices_view(notices@) =~= seq![notice_view(n)]);
        Self::notify_invites_deleted(map, &dropped, &mut notices);
        Some(Outcome { notices, records })
    }

    /// The room a user is in is a live room, under its own id.
    pub proof fn lemma_room_of(&self, user_id: i32)
        requires
            self.wf(),
            self.room_of(user_id) is Some,
        ensures
            self.has_room(self.room_of(user_id).unwrap().id),
            self.room_of(user_id).unwrap().id == self.playing_map()[user_id].room_id,
            self.rooms_map()[self.room_of(user_id).unwrap().id] == self.room_of(user_id).unwrap(),
    {
        lemma_keyed_row(self.playing@, playing_key(), user_id);
        let rid = self.playing_map()[user_id].room_id;
        lemma_keyed_row(self.rooms@, room_key(), rid);
    }

    pub(crate) fn find_room(&self, room_id: i32) -> (r: Option<usize>)
        requires
            self.wf(),
        ensures
            r matches Some(i) ==> i < self.rooms@.len() && self.rooms@[i as int].id == room_id
                && self.has_room(room_id) && self.rooms_map()[room_id] == self.rooms@[i as int],
            r is None ==> !self.has_room(room_id),
    {
        let mut i: usize = 0;
        while i < self.rooms.len()
            invariant
                self.wf(),
                i <= self.rooms@.len(),
                forall|k: int| 0 <= k < i ==> self.rooms@[k].id != room_id,
            decreases self.rooms@.len() - i,
        {
            if self.rooms[i].id == room_id {
                proof {
                    lemma_keyed_index(self.rooms@, room_key(), i as int);
                }
                return Some(i);
            }
            i = i + 1;
        }
        None
    }

    /// The room with this id.
    pub fn get_room(&self, room_id: i32) -> (r: Option<ScRoomBasic>)
        requires
            self.wf(),
        ensures
            r == (if self.has_room(room_id) {
                Some(self.rooms_map()[room_id])
            } else {
                None
            }),
    {
        match self.find_room(room_id) {
            Some(i) => Some(self.rooms[i]),
            None => None,
        }
    }

    /// The room the user is in.
    pub fn get_playing(&self, user_id: i32) -> (r: Option<ScRoomBasic>)
        requires
            self.wf(),
        ensures
            r == self.room_of(user_id),
    {
        let mut i: usize = 0;
        while i < self.playing.len()
            invariant
                self.wf(),
                i <= self.playing@.len(),
                forall|k: int| 0 <= k < i ==> self.playing@[k].user_id != user_id,
            decreases self.playing@.len() - i,
        {
            if self.playing[i].user_id == user_id {
                proof {
                    lemma_keyed_index(self.playing@, playing_key(), i as int);
                    assert(self.playing@.contains(self.playing@[i as int]));
                }
                return self.get_room(self.playing[i].room_id);
            }
            i = i + 1;
        }
        None
    }
}

/// A user has at most one playing record.
pub proof fn lemma_one_playing_record(store: RoomStore, user_id: i32)
    requires
        store.wf(),
    ensures
        forall|i: int, j: int|
            0 <= i < store.playing@.len() && 0 <= j < store.playing@.len()
                && #[trigger] store.playing@[i].user_id == user_id
                && #[trigger] store.playing@[j].user_id == user_id ==> i == j,
{
    assert forall|i: int, j: int|
        0 <= i < store.playing@.len() && 0 <= j < store.playing@.len()
            && #[trigger] store.playing@[i].user_id == user_id
            && #[trigger] store.playing@[j].user_id == user_id implies i == j by {
        if i < j {
            assert(playing_key()(store.playing@[i]) != playing_key()(store.playing@[j]));
        } else if j < i {
            assert(playing_key()(store.playing@[j]) != playing_key()(store.playing@[i]));
        }
    }
}

pub open spec fn is_delete_room(room_id: i32) -> spec_fn((Seq<i32>, ScNotifyMessage)) -> bool {
    |n: (Seq<i32>, ScNotifyMessage)| n.1 == ScNotifyMessage::DeleteRoom(room_id)
}

/// When the host leaves the room, the room is gone, no invite into it and no
/// playing record in it is left, and its deletion is announced to every
/// online user exactly once; the target of each deleted invite is told.
pub proof fn lemma_host_leave_deletes_room(
    old: RoomStore,
    new: RoomStore,
    map: NotifyMap,
    host: i32,
    friends: Seq<i32>,
    notices: Seq<(Seq<i32>, ScNotifyMessage)>,
    records: Seq<RecordAction>,
)
    requires
        old.wf(),
        old.room_of(host) matches Some(r) && r.host == host,
        left_room(old, new, map, host, friends, notices, records),
    ensures
        ({
            let room_id = old.room_of(host).unwrap().id;
            &&& !new.has_room(room_id)
            &&& forall|i: Invite| #[trigger] new.invites@.contains(i) ==> i.room_id != room_id
            &&& forall|p: Playing| #[trigger] new.playing@.contains(p) ==> p.room_id != room_id
            &&& notices[0] == (map.online_ids(), ScNotifyMessage::DeleteRoom(room_id))
            &&& notices.filter(is_delete_room(room_id)).len() == 1
            &&& forall|i: Invite|
                #[trigger] old.invites@.contains(i) && i.room_id == room_id ==> notices.contains(
                    (map.notify_targets(i.target_id), ScNotifyMessage::DeleteInvite(i.id)),
                )
        }),
{
    let room_id = old.room_of(host).unwrap().id;
    let playing = old.playing@.filter(pl_miss(PlayingSel::User(host)));
    lemma_keyed_filter(old.rooms@, room_key(), room_miss(room_id));
    assert forall|i: Invite| #[trigger] new.invites@.contains(i) implies i.room_id != room_id by {
        lemma_filter_sub(old.invites@, inv_miss(InviteSel::Room(room_id)), i);
    }
    assert forall|p: Playing| #[trigger] new.playing@.contains(p) implies p.room_id != room_id by {
        lemma_filter_sub(playing, pl_miss(PlayingSel::Room(room_id)), p);
    }
    let first = seq![(map.online_ids(), ScNotifyMessage::DeleteRoom(room_id))];
    let middle = old.invites@.filter(inv_hit(InviteSel::Room(room_id))).map_values(
        invite_deleted_notice(map),
    );
    let last = seq![new.friends_notice(map, host, friends)];
    let pred = is_delete_room(room_id);
    assert(notices == first + middle + last);
    assert forall|i: Invite| #[trigger] old.invites@.contains(i) && i.room_id == room_id implies notices.contains(
        (map.notify_targets(i.target_id), ScNotifyMessage::DeleteInvite(i.id)),
    ) by {
        let f = old.invites@.filter(inv_hit(InviteSel::Room(room_id)));
        let j = choose|j: int| 0 <= j < old.invites@.len() && old.invites@[j] == i;
        old.invites@.lemma_filter_contains(inv_hit(InviteSel::Room(room_id)), j);
        let a = choose|a: int| 0 <= a < f.len() && f[a] == i;
        assert(middle[a] == (map.notify_targets(i.target_id), ScNotifyMessage::DeleteInvite(i.id)));
        assert(notices[1 + a] == middle[a]);
    }
    Seq::filter_distributes_over_add(first + middle, last, pred);
    Seq::filter_distributes_over_add(first, middle, pred);
    middle.lemma_all_neg_filter_empty(pred);
    last.lemma_all_neg_filter_empty(pred);
    reveal_with_fuel(Seq::filter, 2);
    assert(first.filter(pred).len() == 1) by {
        assert(first.drop_last() =~= Seq::<(Seq<i32>, ScNotifyMessage)>::empty());
    }
}


} // verus!
