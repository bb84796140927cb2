//! Presence registry: which users hold at least one live event stream.
use vstd::prelude::*;
use crate::event::{Notice, ScNotifyMessage};

verus! {

/// One live event channel of a user, shared by all of the user's open streams.
pub struct Session {
    pub user_id: i32,
    /// Number of open streams (receivers) on the channel.
    pub receivers: u64,
    /// When the first of the streams was opened, in milliseconds.
    pub online_time: i64,
}

/// Map from user id to the user's live channel.
pub struct NotifyMap {
    pub sessions: Vec<Session>,
}

/// Handle of one open event stream of a user.
pub struct NoyifyReceiver(pub i32);

impl NotifyMap {
    /// At most one session per user, each with at least one receiver.
    pub open spec fn wf(&self) -> bool {
        &&& forall|i: int, j: int|
            0 <= i < j < self.sessions@.len() ==> #[trigger] self.sessions@[i].user_id
                != #[trigger] self.sessions@[j].user_id
        &&& forall|i: int|
            0 <= i < self.sessions@.len() ==> #[trigger] self.sessions@[i].receivers >= 1
    }

    /// The index of the user's session, if there is one.
    pub open spec fn has_session_at(&self, user_id: i32, i: int) -> bool {
        0 <= i < self.sessions@.len() && self.sessions@[i].user_id == user_id
    }

    pub open spec fn is_online(&self, user_id: i32) -> bool {
        exists|i: int| self.has_session_at(user_id, i)
    }

    /// Number of live subscriptions of a user (0 when offline).
    pub open spec fn subscriptions(&self, user_id: i32) -> nat {
        if self.is_online(user_id) {
            self.sessions@[choose|i: int| self.has_session_at(user_id, i)].receivers as nat
        } else {
            0
        }
    }

    /// The time at which the user came online.
    pub open spec fn online_since(&self, user_id: i32) -> Option<i64> {
        if self.is_online(user_id) {
            Some(self.sessions@[choose|i: int| self.has_session_at(user_id, i)].online_time)
        } else {
            None
        }
    }

    pub open spec fn online_pred(&self) -> spec_fn(i32) -> bool {
        |u: i32| self.is_online(u)
    }

    /// Who gets an event sent to one user: the user if online, else nobody.
    pub open spec fn notify_targets(&self, user_id: i32) -> Seq<i32> {
        if self.is_online(user_id) {
            seq![user_id]
        } else {
            Seq::<i32>::empty()
        }
    }

    pub open spec fn online_ids(&self) -> Seq<i32> {
        self.sessions@.map_values(|s: Session| s.user_id)
    }

    pub fn new() -> (r: NotifyMap)
        ensures
            r.wf(),
            forall|u: i32| !r.is_online(u),
    {
        NotifyMap { sessions: Vec::new() }
    }

    /// Opens one more stream for the user, creating the user's channel (and
    /// recording `now` as the time the user came online) when there is none.
    pub fn get_receiver(&mut self, user_id: i32, now: i64) -> (r: NoyifyReceiver)
        requires
            old(self).wf(),
            old(self).subscriptions(user_id) < u64::MAX,
        ensures
            r.0 == user_id,
            final(self).wf(),
            final(self).subscriptions(user_id) == old(self).subscriptions(user_id) + 1,
            final(self).online_since(user_id) == (if old(self).is_online(user_id) {
                old(self).online_since(user_id)
            } else {
                Some(now)
            }),
            forall|u: i32|
                u != user_id ==> final(self).subscriptions(u) == old(self).subscriptions(u)
                    && final(self).online_since(u) == old(self).online_since(u),
    {
        let ghost pre = *self;
        match self.find(user_id) {
            Some(i) => {
                proof {
                    pre.lemma_at(user_id, i as int);
                }
                let s = Session {
                    user_id,
                    receivers: self.sessions[i].receivers + 1,
                    online_time: self.sessions[i].online_time,
                };
                self.sessions[i] = s;
                proof {
                    self.lemma_same_ids(pre, user_id);
                    self.lemma_at(user_id, i as int);
                }
            },
            None => {
                self.sessions.push(Session { user_id, receivers: 1, online_time: now });
                proof {
                    let n = pre.sessions@.len() as int;
                    assert forall|a: int, b: int|
                        0 <= a < b < self.sessions@.len() implies #[trigger] self.sessions@[a].user_id
                        != #[trigger] self.sessions@[b].user_id by {
                        if b == n {
                            assert(!pre.has_session_at(user_id, a));
                        }
                    }
                    self.lemma_at(user_id, n);
                    assert forall|u: i32| #![auto] u != user_id implies
                        self.subscriptions(u) == pre.subscriptions(u)
                        && self.online_since(u) == pre.online_since(u) by {
                        if pre.is_online(u) {
                            let k = choose|k: int| pre.has_session_at(u, k);
                            pre.lemma_at(u, k);
                            assert(self.has_session_at(u, k));
                            self.lemma_at(u, k);
                        } else if self.is_online(u) {
                            let k = choose|k: int| self.has_session_at(u, k);
                            assert(pre.has_session_at(u, k));
                        }
                    }
                }
            },
        }
        NoyifyReceiver(user_id)
    }

    /// Closes one stream of the user. When it was the last one, the user's
    /// channel is removed and the time the user came online is returned, so
    /// that the offline cascade can run; otherwise `None`.
    pub fn release(&mut self, rx: NoyifyReceiver) -> (r: Option<i64>)
        requires
            old(self).wf(),
        ensures
            final(self).wf(),
            final(self).subscriptions(rx.0) == (if old(self).subscriptions(rx.0) == 0 {
                0
            } else {
                (old(self).subscriptions(rx.0) - 1) as nat
            }),
            r == (if old(self).subscriptions(rx.0) == 1 {
                old(self).online_since(rx.0)
            } else {
                None
            }),
            final(self).is_online(rx.0) == (old(self).subscriptions(rx.0) > 1),
            !final(self).is_online(rx.0) ==> final(self).online_since(rx.0) is None,
            final(self).is_online(rx.0) ==> final(self).online_since(rx.0) == old(self).online_since(rx.0),
            forall|u: i32|
                u != rx.0 ==> final(self).subscriptions(u) == old(self).subscriptions(u)
                    && final(self).online_since(u) == old(self).online_since(u),
    {
        let user_id = rx.0;
        match self.find(user_id) {
            Some(i) => {
                let ghost pre = *self;
                proof {
                    pre.lemma_at(user_id, i as int);
                }
                if self.sessions[i].receivers <= 1 {
                    let t = self.sessions[i].online_time;
                    self.sessions.remove(i);
                    proof {
                        assert forall|u: i32| #![auto] u != user_id implies
                            self.subscriptions(u) == pre.subscriptions(u)
                            && self.online_since(u) == pre.online_since(u) by {
                            if pre.is_online(u) {
                                let k = choose|k: int| pre.has_session_at(u, k);
                                pre.lemma_at(u, k);
                                let k2 = if k < i { k } else { k - 1 };
                                assert(self.has_session_at(u, k2));
                                self.lemma_at(u, k2);
                            } else {
                                if self.is_online(u) {
                                    let k = choose|k: int| self.has_session_at(u, k);
                                    let k2 = if k < i { k } else { k + 1 };
                                    assert(pre.has_session_at(u, k2));
                                }
                            }
                        }
                        if self.is_online(user_id) {
                            let k = choose|k: int| self.has_session_at(user_id, k);
                            let k2 = if k < i { k } else { k + 1 };
                            assert(pre.sessions@[k2].user_id == user_id);
                        }
                    }
                    Some(t)
                } else {
                    let s = Session {
                        user_id,
                        receivers: self.sessions[i].receivers - 1,
                        online_time: self.sessions[i].online_time,
                    };
                    self.sessions[i] = s;
                    proof {
                        self.lemma_same_ids(pre, user_id);
                        self.lemma_at(user_id, i as int);
                    }
                    None
                }
            },
            None => None,
        }
    }

    /// Whether the user is online.
    pub fn has_user(&self, user_id: i32) -> (r: bool)
        requires
            self.wf(),
        ensures
            r == self.is_online(user_id),
    {
        self.find(user_id).is_some()
    }

    /// When the user came online, if the user is online.
    pub fn get_online_time(&self, user_id: i32) -> (r: Option<i64>)
        requires
            self.wf(),
        ensures
            r == self.online_since(user_id),
    {
        match self.find(user_id) {
            Some(i) => Some(self.sessions[i].online_time),
            None => None,
        }
    }

    /// Number of users online.
    pub fn get_online_count(&self) -> (r: i32)
        requires
            self.wf(),
            self.sessions@.len() <= i32::MAX,
        ensures
            r == self.online_ids().len(),
    {
        self.sessions.len() as i32
    }

    /// The event for one user: delivered if the user is online, dropped otherwise.
    pub fn notify(&self, user_id: i32, message: ScNotifyMessage) -> (r: Notice)
        requires
            self.wf(),
        ensures
            r.message == message,
            r.targets@ == self.notify_targets(user_id),
    {
        let mut targets: Vec<i32> = Vec::new();
        if self.has_user(user_id) {
            targets.push(user_id);
        }
        Notice { targets, message }
    }

    /// The event for several users: delivered to those of them that are online,
    /// in the order given.
    pub fn notify_ids(&self, ids: &Vec<i32>, message: ScNotifyMessage) -> (r: Notice)
        requires
            self.wf(),
        ensures
            r.message == message,
            r.targets@ == ids@.filter(self.online_pred()),
    {
        let ghost pred = self.online_pred();
        let mut targets: Vec<i32> = Vec::new();
        let mut i: usize = 0;
        while i < ids.len()
            invariant
                i <= ids@.len(),
                self.wf(),
                pred == self.online_pred(),
                targets@ == ids@.take(i as int).filter(pred),
            decreases ids@.len() - i,
        {
            proof {
                ids@.lemma_take_succ_push(i as int);
                ids@.take(i as int).lemma_filter_push(ids@[i as int], pred);
            }
            if self.has_user(ids[i]) {
                targets.push(ids[i]);
            }
            i = i + 1;
        }
        assert(ids@.take(ids@.len() as int) == ids@);
        Notice { targets, message }
    }

    /// The event for every online user.
    pub fn notify_all(&self, message: ScNotifyMessage) -> (r: Notice)
        requires
            self.wf(),
        ensures
            r.message == message,
            r.targets@ == self.online_ids(),
    {
        let mut targets: Vec<i32> = Vec::new();
        let mut i: usize = 0;
        while i < self.sessions.len()
            invariant
                i <= self.sessions@.len(),
                targets@ == self.online_ids().take(i as int),
            decreases self.sessions@.len() - i,
        {
            targets.push(self.sessions[i].user_id);
            i = i + 1;
            assert(targets@ =~= self.online_ids().take(i as int));
        }
        assert(targets@ =~= self.online_ids());
        Notice { targets, message }
    }

    /// A user is online exactly when the user holds at least one live
    /// subscription.
    pub proof fn lemma_online_iff_subscribed(&self, user_id: i32)
        requires
            self.wf(),
        ensures
            self.is_online(user_id) <==> self.subscriptions(user_id) >= 1,
    {
        if self.is_online(user_id) {
            let k = choose|k: int| self.has_session_at(user_id, k);
            self.lemma_at(user_id, k);
        }
    }

    /// Under `wf`, a session found at an index is the user's session.
    pub proof fn lemma_at(&self, user_id: i32, i: int)
        requires
            self.wf(),
            self.has_session_at(user_id, i),
        ensures
            self.is_online(user_id),
            self.subscriptions(user_id) == self.sessions@[i].receivers,
            self.online_since(user_id) == Some(self.sessions@[i].online_time),
    {
        let k = choose|k: int| self.has_session_at(user_id, k);
        if k < i {
            assert(self.sessions@[k].user_id != self.sessions@[i].user_id);
        } else if i < k {
            assert(self.sessions@[i].user_id != self.sessions@[k].user_id);
        }
    }

    /// Two registries whose sessions hold the same users at the same places,
    /// and differ only in the session of `user_id`, agree on everyone else.
    pub proof fn lemma_same_ids(&self, pre: NotifyMap, user_id: i32)
        requires
            pre.wf(),
            self.wf(),
            self.sessions@.len() == pre.sessions@.len(),
            forall|k: int|
                0 <= k < pre.sessions@.len() ==> #[trigger] self.sessions@[k].user_id
                    == pre.sessions@[k].user_id && (pre.sessions@[k].user_id != user_id
                    ==> self.sessions@[k] == pre.sessions@[k]),
        ensures
            forall|u: i32|
                u != user_id ==> #[trigger] self.subscriptions(u) == pre.subscriptions(u)
                    && self.online_since(u) == pre.online_since(u),
            forall|u: i32| #[trigger] self.is_online(u) == pre.is_online(u),
    {
        assert forall|u: i32| #[trigger] self.is_online(u) == pre.is_online(u) by {
            if pre.is_online(u) {
                let k = choose|k: int| pre.has_session_at(u, k);
                assert(self.has_session_at(u, k));
            }
            if self.is_online(u) {
                let k = choose|k: int| self.has_session_at(u, k);
                assert(pre.has_session_at(u, k));
            }
        }
        assert forall|u: i32| u != user_id implies #[trigger] self.subscriptions(u)
            == pre.subscriptions(u) && self.online_since(u) == pre.online_since(u) by {
            if pre.is_online(u) {
                let k = choose|k: int| pre.has_session_at(u, k);
                pre.lemma_at(u, k);
                assert(self.has_session_at(u, k));
                self.lemma_at(u, k);
            }
        }
    }

    fn find(&self, user_id: i32) -> (r: Option<usize>)
        ensures
            r matches Some(i) ==> self.has_session_at(user_id, i as int),
            r is None ==> !self.is_online(user_id),
    {
        let mut i: usize = 0;
        while i < self.sessions.len()
            invariant
                i <= self.sessions@.len(),
                forall|k: int| 0 <= k < i ==> self.sessions@[k].user_id != user_id,
            decreases self.sessions@.len() - i,
        {
            if self.sessions[i].user_id == user_id {
                return Some(i);
            }
            i = i + 1;
        }
        None
    }
}

} // verus!
