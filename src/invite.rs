//! Pending invites into rooms: creating, answering and withdrawing them.
use vstd::prelude::*;
use crate::event::{Notice, ScInvite, ScNotifyMessage};
use crate::keyed::{keyed, lemma_filter_sub, lemma_keyed_filter, lemma_keyed_index, lemma_keyed_push, lemma_keyed_row};
use crate::notify::NotifyMap;
use crate::room::{
    end_records, entered, has_room_in, inv_hit, inv_miss, invite_deleted_notice, invite_key,
    lemma_wf_filter_invites, notice_view, notices_view, pl_miss, playing_key, room_key, room_miss,
    split_invites,
    Invite, InviteSel, Outcome, Playing, PlayingSel, RecordAction, RoomStore, ScNewInvite,
    ScUpdateInvite, ServiceError,
};

verus! {

/// The invite that a sender's new invite into a room becomes.
pub open spec fn new_invite_row(old: RoomStore, user_id: i32, req: ScNewInvite, now: i64) -> Invite {
    Invite {
        id: old.next_invite_id,
        room_id: req.room_id,
        user_id,
        target_id: req.target_id,
        created_at: now,
        updated_at: now,
    }
}

/// `new` is `old` after `user_id` invited `req.target_id` into `req.room_id`:
/// an earlier invite of the same sender for the same target is replaced.
pub open spec fn invite_replaced(
    old: RoomStore,
    new: RoomStore,
    user_id: i32,
    req: ScNewInvite,
    now: i64,
) -> bool {
    &&& new.rooms@ == old.rooms@
    &&& new.playing@ == old.playing@
    &&& new.invites@ == old.invites@.filter(inv_miss(InviteSel::Pair(user_id, req.target_id))).push(
        new_invite_row(old, user_id, req, now),
    )
    &&& new.next_room_id == old.next_room_id
    &&& new.next_invite_id == old.next_invite_id + 1
}

/// An invite of A for B, then another one of A for B: exactly one invite of A
/// for B is left, the second. The second call finds the first invite and
/// nothing else to replace, so B is told of its deletion before the new one.
pub proof fn lemma_invite_supersession(
    s0: RoomStore,
    s1: RoomStore,
    s2: RoomStore,
    sender: i32,
    req1: ScNewInvite,
    req2: ScNewInvite,
    now1: i64,
    now2: i64,
)
    requires
        s0.wf(),
        req1.target_id == req2.target_id,
        invite_replaced(s0, s1, sender, req1, now1),
        invite_replaced(s1, s2, sender, req2, now2),
    ensures
        s1.invites@.filter(inv_hit(InviteSel::Pair(sender, req1.target_id))) == seq![
            new_invite_row(s0, sender, req1, now1),
        ],
        s2.invites@.filter(inv_hit(InviteSel::Pair(sender, req2.target_id))) == seq![
            new_invite_row(s1, sender, req2, now2),
        ],
{
    let sel = InviteSel::Pair(sender, req1.target_id);
    lemma_replaced_pair(s0.invites@, sel, new_invite_row(s0, sender, req1, now1));
    lemma_replaced_pair(s1.invites@, sel, new_invite_row(s1, sender, req2, now2));
}

/// Dropping the rows a selector hits, then adding a row it hits, leaves that
/// row alone under the selector.
pub proof fn lemma_replaced_pair(v: Seq<Invite>, sel: InviteSel, row: Invite)
    requires
        inv_hit(sel)(row),
    ensures
        v.filter(inv_miss(sel)).push(row).filter(inv_hit(sel)) == seq![row],
{
    let kept = v.filter(inv_miss(sel));
    kept.lemma_filter_push(row, inv_hit(sel));
    assert forall|i: int| 0 <= i < kept.len() implies !inv_hit(sel)(kept[i]) by {
        v.lemma_filter_pred(inv_miss(sel), i);
    }
    kept.lemma_all_neg_filter_empty(inv_hit(sel));
    assert(kept.filter(inv_hit(sel)).push(row) =~= seq![row]);
}

impl RoomStore {
    /// The user answers an invite. Declining deletes it and tells the sender.
    /// Accepting takes the user into the invite's room: a room the user hosts
    /// elsewhere is deleted first (every online user is told, then the target
    /// of each invite into it), then the user enters (see `enter_room`, which
    /// clears the user's invites) and the user's online friends are told.
    pub fn accept_invite(
        &mut self,
        map: &NotifyMap,
        user_id: i32,
        req: ScUpdateInvite,
        friends: &Vec<i32>,
    ) -> (r: Result<Outcome, ServiceError>)
        requires
            old(self).wf(),
            map.wf(),
        ensures
            final(self).wf(),
            r is Err <==> !old(self).has_invite_for(req.invite_id, user_id),
            r matches Err(e) ==> e == ServiceError::InviteNotFound && *final(self) == *old(self),
            r is Ok ==> !final(self).invites_map().contains_key(req.invite_id),
            r matches Ok(out) ==> {
                let inv = old(self).invites_map()[req.invite_id];
                let cur = old(self).room_of(user_id);
                let hosting = cur matches Some(c) && c.host == user_id && c.id != inv.room_id;
                if !req.accept {
                    &&& final(self).rooms == old(self).rooms
                    &&& final(self).playing == old(self).playing
                    &&& final(self).invites@ == old(self).invites@.filter(
                        inv_miss(InviteSel::Id(req.invite_id)),
                    )
                    &&& final(self).next_room_id == old(self).next_room_id
                    &&& final(self).next_invite_id == old(self).next_invite_id
                    &&& out.records@.len() == 0
                    &&& notices_view(out.notices@) == seq![
                        (map.notify_targets(inv.user_id), ScNotifyMessage::DeleteInvite(inv.id)),
                    ]
                } else if hosting {
                    let c = cur.unwrap();
                    &&& final(self).rooms@ == old(self).rooms@.filter(room_miss(c.id))
                    &&& final(self).playing@ == old(self).playing@.filter(
                        pl_miss(PlayingSel::Room(c.id)),
                    ).filter(pl_miss(PlayingSel::User(user_id))).push(
                        Playing { user_id, room_id: inv.room_id },
                    )
                    &&& final(self).invites@ == old(self).invites@.filter(
                        inv_miss(InviteSel::Room(c.id)),
                    ).filter(inv_miss(InviteSel::Involving(user_id)))
                    &&& final(self).next_room_id == old(self).next_room_id
                    &&& final(self).next_invite_id == old(self).next_invite_id
                    &&& final(self).room_of(user_id) == Some(old(self).rooms_map()[inv.room_id])
                    &&& out.records@ == end_records(old(self).members(c.id), c.game_id) + seq![
                        RecordAction::Start {
                            user_id,
                            game_id: old(self).rooms_map()[inv.room_id].game_id,
                        },
                    ]
                    &&& notices_view(out.notices@) == seq![
                        (map.online_ids(), ScNotifyMessage::DeleteRoom(c.id)),
                    ] + old(self).invites@.filter(inv_hit(InviteSel::Room(c.id))).map_values(
                        invite_deleted_notice(*map),
                    ) + seq![final(self).friends_notice(*map, user_id, friends@)]
                } else {
                    &&& entered(*old(self), *final(self), user_id, inv.room_id)
                    &&& final(self).room_of(user_id) == Some(old(self).rooms_map()[inv.room_id])
                    &&& out.records@ == old(self).enter_records(user_id, inv.room_id)
                    &&& notices_view(out.notices@) == seq![
                        final(self).friends_notice(*map, user_id, friends@),
                    ]
                }
            },
    {
        let idx = match self.find_invite(req.invite_id, user_id) {
            Some(i) => i,
            None => {
                return Err(ServiceError::InviteNotFound);
            },
        };
        let inv = self.invites[idx];
        let ghost start = *self;
        proof {
            assert(self.invites@.contains(self.invites@[idx as int]));
        }
        let mut notices: Vec<Notice> = Vec::new();
        if !req.accept {
            let (kept, _) = split_invites(&self.invites, InviteSel::Id(req.invite_id));
            proof {
                lemma_wf_filter_invites(
                    self.rooms@,
                    self.playing@,
                    self.invites@,
                    self.next_room_id,
                    self.next_invite_id,
                    InviteSel::Id(req.invite_id),
                );
            }
            proof {
                lemma_keyed_filter(self.invites@, invite_key(), inv_miss(InviteSel::Id(req.invite_id)));
            }
            self.invites = kept;
            let n = map.notify(inv.user_id, ScNotifyMessage::DeleteInvite(inv.id));
            notices.push(n);
            assert(notices_view(notices@) =~= seq![notice_view(n)]);
            return Ok(Outcome { notices, records: Vec::new() });
        }
        let cur = self.get_playing(user_id);
        let mut records: Vec<RecordAction> = Vec::new();
        match cur {
            Some(c) => {
                if c.id != inv.room_id && c.host == user_id {
                    let ghost pre = *self;
                    proof {
                        self.lemma_room_of(user_id);
                    }
                    let (ended, dropped) = self.delete_room(c.id);
                    records = ended;
                    let n = map.notify_all(ScNotifyMessage::DeleteRoom(c.id));
                    notices.push(n);
                    assert(notices_view(notices@) =~= seq![notice_view(n)]);
                    Self::notify_invites_deleted(map, &dropped, &mut notices);
                    proof {
                        lemma_keyed_filter(pre.rooms@, room_key(), room_miss(c.id));
                        lemma_keyed_filter(pre.playing@, playing_key(), pl_miss(PlayingSel::Room(c.id)));
                        assert(self.room_of(user_id) is None);
                        assert(pre.has_room(inv.room_id));
                        assert(self.has_room(inv.room_id));
                        assert(self.rooms_map()[inv.room_id] == pre.rooms_map()[inv.room_id]);
                        assert(self.enter_records(user_id, inv.room_id) =~= seq![
                            RecordAction::Start {
                                user_id,
                                game_id: pre.rooms_map()[inv.room_id].game_id,
                            },
                        ]);
                    }
                }
            },
            None => {},
        }
        let ghost before_enter = *self;
        proof {
            if before_enter.invites_map().contains_key(req.invite_id) {
                lemma_keyed_row(before_enter.invites@, invite_key(), req.invite_id);
            }
        }
        let mut entered_records = self.enter_room(user_id, inv.room_id);
        proof {
            if self.invites_map().contains_key(req.invite_id) {
                lemma_keyed_row(self.invites@, invite_key(), req.invite_id);
                let x = self.invites_map()[req.invite_id];
                lemma_filter_sub(before_enter.invites@, inv_miss(InviteSel::Involving(user_id)), x);
                if before_enter.invites@ != start.invites@ {
                    let c = cur.unwrap();
                    lemma_filter_sub(start.invites@, inv_miss(InviteSel::Room(c.id)), x);
                }
                let j = choose|j: int| 0 <= j < start.invites@.len() && start.invites@[j] == x;
                if j != idx {
                    if j < idx {
                        assert(invite_key()(start.invites@[j]) != invite_key()(start.invites@[idx as int]));
                    } else {
                        assert(invite_key()(start.invites@[idx as int]) != invite_key()(start.invites@[j]));
                    }
                }
            }
        }
        records.append(&mut entered_records);
        let ghost prev = notices@;
        let n = self.notify_friends(map, user_id, friends);
        notices.push(n);
        assert(notices_view(notices@) =~= notices_view(prev).push(notice_view(n)));
        assert(notices_view(Seq::<Notice>::empty()) =~= Seq::empty());
        Ok(Outcome { notices, records })
    }

    /// The invite with its room, as users see it.
    pub open spec fn sc_invite(&self, i: Invite) -> ScInvite {
        ScInvite {
            id: i.id,
            room: self.rooms_map()[i.room_id],
            target_id: i.target_id,
            user_id: i.user_id,
            created_at: i.created_at,
            updated_at: i.updated_at,
        }
    }

    /// An invite with this id is pending for this target.
    pub open spec fn has_invite_for(&self, invite_id: i32, target_id: i32) -> bool {
        self.invites_map().contains_key(invite_id) && self.invites_map()[invite_id].target_id
            == target_id
    }

    pub open spec fn sc_invite_fn(&self) -> spec_fn(Invite) -> ScInvite {
        |i: Invite| self.sc_invite(i)
    }

    fn to_sc_invites(&self, rows: &Vec<Invite>) -> (r: Vec<ScInvite>)
        requires
            self.wf(),
            forall|i: Invite| #[trigger] rows@.contains(i) ==> self.invites@.contains(i),
        ensures
            r@ == rows@.map_values(self.sc_invite_fn()),
    {
        let mut out: Vec<ScInvite> = Vec::new();
        let mut k: usize = 0;
        while k < rows.len()
            invariant
                self.wf(),
                forall|i: Invite| #[trigger] rows@.contains(i) ==> self.invites@.contains(i),
                k <= rows@.len(),
                out@ == rows@.map_values(self.sc_invite_fn()).take(k as int),
            decreases rows@.len() - k,
        {
            let row = rows[k];
            assert(rows@.contains(rows@[k as int]));
            let room = self.get_room(row.room_id).unwrap();
            out.push(ScInvite {
                id: row.id,
                room,
                target_id: row.target_id,
                user_id: row.user_id,
                created_at: row.created_at,
                updated_at: row.updated_at,
            });
            k = k + 1;
            assert(out@ =~= rows@.map_values(self.sc_invite_fn()).take(k as int));
        }
        assert(out@ =~= rows@.map_values(self.sc_invite_fn()));
        out
    }

    /// The invites pending for the user.
    pub fn get_invites(&self, user_id: i32) -> (r: Vec<ScInvite>)
        requires
            self.wf(),
        ensures
            r@ == self.invites@.filter(inv_hit(InviteSel::Target(user_id))).map_values(
                self.sc_invite_fn(),
            ),
    {
        let (_, rows) = split_invites(&self.invites, InviteSel::Target(user_id));
        proof {
            assert forall|i: Invite| #[trigger] rows@.contains(i) implies self.invites@.contains(i) by {
                lemma_filter_sub(self.invites@, inv_hit(InviteSel::Target(user_id)), i);
            }
        }
        self.to_sc_invites(&rows)
    }

    /// The invites the user sent that are still pending.
    pub fn get_invites_with(&self, user_id: i32) -> (r: Vec<ScInvite>)
        requires
            self.wf(),
        ensures
            r@ == self.invites@.filter(inv_hit(InviteSel::Sender(user_id))).map_values(
                self.sc_invite_fn(),
            ),
    {
        let (_, rows) = split_invites(&self.invites, InviteSel::Sender(user_id));
        proof {
            assert forall|i: Invite| #[trigger] rows@.contains(i) implies self.invites@.contains(i) by {
                lemma_filter_sub(self.invites@, inv_hit(InviteSel::Sender(user_id)), i);
            }
        }
        self.to_sc_invites(&rows)
    }

    /// The invite with this id, if it is pending for the user.
    pub fn get_invite(&self, user_id: i32, invite_id: i32) -> (r: Result<ScInvite, ServiceError>)
        requires
            self.wf(),
        ensures
            r is Err <==> !self.has_invite_for(invite_id, user_id),
            r matches Err(e) ==> e == ServiceError::InviteNotFound,
            r matches Ok(i) ==> i == self.sc_invite(self.invites_map()[invite_id]),
    {
        match self.find_invite(invite_id, user_id) {
            Some(k) => {
                let mut one: Vec<Invite> = Vec::new();
                one.push(self.invites[k]);
                proof {
                    assert forall|i: Invite| #[trigger] one@.contains(i) implies self.invites@.contains(i) by {
                        assert(self.invites@[k as int] == i);
                    }
                }
                let v = self.to_sc_invites(&one);
                Ok(v[0])
            },
            None => Err(ServiceError::InviteNotFound),
        }
    }

    fn find_invite(&self, invite_id: i32, target_id: i32) -> (r: Option<usize>)
        requires
            self.wf(),
        ensures
            r matches Some(i) ==> i < self.invites@.len() && self.invites@[i as int].id == invite_id
                && self.has_invite_for(invite_id, target_id) && self.invites_map()[invite_id]
                == self.invites@[i as int],
            r is None ==> !self.has_invite_for(invite_id, target_id),
    {
        let mut i: usize = 0;
        while i < self.invites.len()
            invariant
                self.wf(),
                i <= self.invites@.len(),
                forall|k: int| 0 <= k < i ==> self.invites@[k].id != invite_id,
            decreases self.invites@.len() - i,
        {
            if self.invites[i].id == invite_id {
                proof {
                    lemma_keyed_index(self.invites@, invite_key(), i as int);
                }
                if self.invites[i].target_id == target_id {
                    return Some(i);
                }
                return None;
            }
            i = i + 1;
        }
        None
    }

    /// The user invites `req.target_id` into `req.room_id`. An earlier invite
    /// of the user for the same target is deleted first, and the target is
    /// told of that deletion before being told of the new invite.
    pub fn create_invite(&mut self, map: &NotifyMap, user_id: i32, req: ScNewInvite, now: i64) -> (r:
        Result<(ScInvite, Outcome), ServiceError>)
        requires
            old(self).wf(),
            map.wf(),
        ensures
            final(self).wf(),
            (r == Err::<(ScInvite, Outcome), ServiceError>(ServiceError::InviteTargetAlreadyInRoom))
                <==> (old(self).room_of(req.target_id) matches Some(t) && t.id == req.room_id),
            (r == Err::<(ScInvite, Outcome), ServiceError>(ServiceError::RoomNotFound)) <==> !old(
                self,
            ).has_room(req.room_id),
            (r == Err::<(ScInvite, Outcome), ServiceError>(ServiceError::Exhausted)) <==> (old(
                self,
            ).has_room(req.room_id) && !(old(self).room_of(req.target_id) matches Some(t) && t.id
                == req.room_id) && old(self).next_invite_id == i32::MAX),
            r is Err ==> *final(self) == *old(self),
            r is Ok <==> (old(self).has_room(req.room_id) && !(old(self).room_of(req.target_id) matches Some(
                t,
            ) && t.id == req.room_id) && old(self).next_invite_id < i32::MAX),
            r matches Ok((invite, out)) ==> {
                let row = new_invite_row(*old(self), user_id, req, now);
                &&& invite_replaced(*old(self), *final(self), user_id, req, now)
                &&& invite == final(self).sc_invite(row)
                &&& invite.room == old(self).rooms_map()[req.room_id]
                &&& out.records@.len() == 0
                &&& notices_view(out.notices@) == old(self).invites@.filter(
                    inv_hit(InviteSel::Pair(user_id, req.target_id)),
                ).map_values(invite_deleted_notice(*map)) + seq![
                    (map.notify_targets(req.target_id), ScNotifyMessage::NewInvite(invite)),
                ]
            },
    {
        match self.get_playing(req.target_id) {
            Some(t) => {
                proof {
                    self.lemma_room_of(req.target_id);
                }
                if t.id == req.room_id {
                    return Err(ServiceError::InviteTargetAlreadyInRoom);
                }
            },
            None => {},
        }
        let room = match self.get_room(req.room_id) {
            Some(room) => room,
            None => {
                return Err(ServiceError::RoomNotFound);
            },
        };
        if self.next_invite_id == i32::MAX {
            return Err(ServiceError::Exhausted);
        }
        let ghost pre = *self;
        let sel = InviteSel::Pair(user_id, req.target_id);
        let (kept, superseded) = split_invites(&self.invites, sel);
        let row = Invite {
            id: self.next_invite_id,
            room_id: req.room_id,
            user_id,
            target_id: req.target_id,
            created_at: now,
            updated_at: now,
        };
        proof {
            lemma_wf_filter_invites(
                self.rooms@,
                self.playing@,
                self.invites@,
                self.next_room_id,
                self.next_invite_id,
                sel,
            );
            if keyed(kept@, invite_key()).contains_key(row.id) {
                lemma_keyed_row(kept@, invite_key(), row.id);
                lemma_filter_sub(self.invites@, inv_miss(sel), keyed(kept@, invite_key())[row.id]);
            }
            lemma_keyed_push(kept@, invite_key(), row);
            let k2 = kept@.push(row);
            assert forall|v: Invite| #[trigger] k2.contains(v) implies has_room_in(self.rooms@, v.room_id)
                && 0 < v.id < self.next_invite_id + 1 by {
                if v != row {
                    let j = choose|j: int| 0 <= j < k2.len() && k2[j] == v;
                    assert(kept@.contains(kept@[j]));
                    lemma_filter_sub(self.invites@, inv_miss(sel), v);
                }
            }
            assert forall|a: Invite, b: Invite|
                #[trigger] k2.contains(a) && #[trigger] k2.contains(b) && a.user_id == b.user_id
                    && a.target_id == b.target_id implies a == b by {
                if a != row {
                    let j = choose|j: int| 0 <= j < k2.len() && k2[j] == a;
                    assert(kept@.contains(kept@[j]));
                    lemma_filter_sub(self.invites@, inv_miss(sel), a);
                }
                if b != row {
                    let j = choose|j: int| 0 <= j < k2.len() && k2[j] == b;
                    assert(kept@.contains(kept@[j]));
                    lemma_filter_sub(self.invites@, inv_miss(sel), b);
                }
            }
        }
        self.invites = kept;
        self.invites.push(row);
        self.next_invite_id = self.next_invite_id + 1;
        let invite = ScInvite {
            id: row.id,
            room,
            target_id: row.target_id,
            user_id: row.user_id,
            created_at: row.created_at,
            updated_at: row.updated_at,
        };
        let mut notices: Vec<Notice> = Vec::new();
        Self::notify_invites_deleted(map, &superseded, &mut notices);
        let ghost prev = notices@;
        let n = map.notify(req.target_id, ScNotifyMessage::NewInvite(invite));
        notices.push(n);
        proof {
            assert(notices_view(notices@) =~= notices_view(prev).push(notice_view(n)));
            assert(notices_view(Seq::<Notice>::empty()) =~= Seq::empty());
            assert(notices_view(prev) =~= superseded@.map_values(invite_deleted_notice(*map)));
        }
        Ok((invite, Outcome { notices, records: Vec::new() }))
    }

    /// Deletes every invite the user sent; each target is told.
    pub fn withdraw_invites(&mut self, map: &NotifyMap, user_id: i32) -> (r: Outcome)
        requires
            old(self).wf(),
            map.wf(),
        ensures
            final(self).wf(),
            final(self).rooms == old(self).rooms,
            final(self).playing == old(self).playing,
            final(self).invites@ == old(self).invites@.filter(inv_miss(InviteSel::Sender(user_id))),
            final(self).next_room_id == old(self).next_room_id,
            final(self).next_invite_id == old(self).next_invite_id,
            r.records@.len() == 0,
            notices_view(r.notices@) == old(self).invites@.filter(
                inv_hit(InviteSel::Sender(user_id)),
            ).map_values(invite_deleted_notice(*map)),
    {
        let (kept, sent) = split_invites(&self.invites, InviteSel::Sender(user_id));
        proof {
            lemma_wf_filter_invites(
                self.rooms@,
                self.playing@,
                self.invites@,
                self.next_room_id,
                self.next_invite_id,
                InviteSel::Sender(user_id),
            );
        }
        self.invites = kept;
        let mut notices: Vec<Notice> = Vec::new();
        Self::notify_invites_deleted(map, &sent, &mut notices);
        assert(notices_view(Seq::<Notice>::empty()) =~= Seq::empty());
        Outcome { notices, records: Vec::new() }
    }
}


} // verus!
