//! Voice relay: per room, each connected peer receives the published track of
//! every other peer. Track changes reach a peer through its renegotiation
//! queue, one offer and answer at a time.
use vstd::prelude::*;

verus! {

#[derive(Clone, Copy, Debug, PartialEq, Eq, Structural)]
pub enum ScVoiceMsgKind {
    Offer,
    Answer,
    Ice,
}

/// A voice signaling message of a user; `json` is an SDP or an ICE candidate.
pub struct ScVoiceMsgReq {
    pub json: String,
    pub kind: ScVoiceMsgKind,
}

/// The connection state of one user in one room's voice relay.
pub struct VoicePeer {
    pub room_id: i32,
    pub user_id: i32,
    /// The peer publishes a track of its own.
    pub publishing: bool,
    /// Owners of the tracks forwarded to this peer.
    pub received: Vec<i32>,
    /// Owners whose track changed and is still to be renegotiated, oldest first.
    pub pending: Vec<i32>,
    /// An offer was sent to the peer and its answer has not come back yet:
    /// no other renegotiation starts meanwhile.
    pub awaiting_answer: bool,
}

/// What the relay does with a signaling message.
pub enum VoiceAction {
    /// Build a new peer connection offering the tracks of these owners.
    Connect(Vec<i32>),
    /// Apply the answer to the existing connection.
    Answer,
    /// Apply the ICE candidate to the existing connection.
    Ice,
    /// The connection is gone: drop the message.
    Ignore,
}

/// One renegotiation of a peer: the track of `owner` is to be added to the
/// peer's connection, or removed from it.
#[derive(Clone, Copy, Debug, PartialEq, Eq, Structural)]
pub struct TrackChange {
    pub owner: i32,
    pub add: bool,
}

pub open spec fn peer_at(s: Seq<VoicePeer>, room_id: i32, user_id: i32, k: int) -> bool {
    0 <= k < s.len() && s[k].room_id == room_id && s[k].user_id == user_id
}

/// The user is a peer of the room at an index below `n`.
pub open spec fn peer_before(s: Seq<VoicePeer>, room_id: i32, user_id: i32, n: int) -> bool {
    exists|k: int| 0 <= k < n && peer_at(s, room_id, user_id, k)
}

/// The user is a connected peer of the room.
pub open spec fn has_peer(s: Seq<VoicePeer>, room_id: i32, user_id: i32) -> bool {
    exists|k: int| peer_at(s, room_id, user_id, k)
}

/// Two relays with the same peers at the same places.
pub proof fn lemma_same_peers(a: Seq<VoicePeer>, b: Seq<VoicePeer>)
    requires
        a.len() == b.len(),
        forall|k: int|
            0 <= k < a.len() ==> #[trigger] a[k].room_id == b[k].room_id && a[k].user_id
                == b[k].user_id,
    ensures
        forall|r: i32, u: i32| #[trigger] has_peer(a, r, u) == has_peer(b, r, u),
{
    assert forall|r: i32, u: i32| #[trigger] has_peer(a, r, u) == has_peer(b, r, u) by {
        if has_peer(a, r, u) {
            let k = choose|k: int| peer_at(a, r, u, k);
            assert(a[k].room_id == b[k].room_id);
            assert(peer_at(b, r, u, k));
        }
        if has_peer(b, r, u) {
            let k = choose|k: int| peer_at(b, r, u, k);
            assert(a[k].room_id == b[k].room_id);
            assert(peer_at(a, r, u, k));
        }
    }
}

/// The user is a connected peer of the room and publishes a track.
pub open spec fn publishes_in(s: Seq<VoicePeer>, room_id: i32, user_id: i32) -> bool {
    exists|k: int| peer_at(s, room_id, user_id, k) && s[k].publishing
}

/// What peer `k` must know of owner `o`: never its own track; and, unless a
/// renegotiation about `o` is pending, it receives `o`'s track exactly when
/// `o` is another publishing peer of the room.
pub open spec fn peer_fact(s: Seq<VoicePeer>, k: int, o: i32) -> bool {
    &&& o == s[k].user_id ==> !s[k].received@.contains(o) && !s[k].pending@.contains(o)
    &&& o != s[k].user_id && !s[k].pending@.contains(o) ==> (s[k].received@.contains(o)
        <==> publishes_in(s, s[k].room_id, o))
}

pub open spec fn relay_wf(s: Seq<VoicePeer>) -> bool {
    &&& forall|a: int, b: int|
        0 <= a < b < s.len() ==> !(#[trigger] s[a].room_id == #[trigger] s[b].room_id
            && s[a].user_id == s[b].user_id)
    &&& forall|k: int, o: i32| 0 <= k < s.len() ==> #[trigger] peer_fact(s, k, o)
}

/// Two relays with the same peers, flags and rooms at the same places agree
/// on who publishes.
pub proof fn lemma_publishes_same(a: Seq<VoicePeer>, b: Seq<VoicePeer>)
    requires
        a.len() == b.len(),
        forall|k: int|
            0 <= k < a.len() ==> #[trigger] a[k].room_id == b[k].room_id && a[k].user_id
                == b[k].user_id && a[k].publishing == b[k].publishing,
    ensures
        forall|r: i32, u: i32| #[trigger] publishes_in(a, r, u) == publishes_in(b, r, u),
{
    assert forall|r: i32, u: i32| #[trigger] publishes_in(a, r, u) == publishes_in(b, r, u) by {
        if publishes_in(a, r, u) {
            let k = choose|k: int| peer_at(a, r, u, k) && a[k].publishing;
            assert(peer_at(b, r, u, k) && b[k].publishing);
        }
        if publishes_in(b, r, u) {
            let k = choose|k: int| peer_at(b, r, u, k) && b[k].publishing;
            assert(a[k].room_id == b[k].room_id);
            assert(peer_at(a, r, u, k) && a[k].publishing);
        }
    }
}

/// Removing a peer changes who publishes only for that peer.
pub proof fn lemma_publishes_remove(s: Seq<VoicePeer>, i: int)
    requires
        relay_wf(s),
        0 <= i < s.len(),
    ensures
        forall|r: i32, u: i32| #[trigger] publishes_in(s.remove(i), r, u) == (publishes_in(s, r, u)
            && !(r == s[i].room_id && u == s[i].user_id)),
{
    let t = s.remove(i);
    assert forall|r: i32, u: i32| #[trigger] publishes_in(t, r, u) == (publishes_in(s, r, u) && !(r
        == s[i].room_id && u == s[i].user_id)) by {
        if publishes_in(t, r, u) {
            let k = choose|k: int| peer_at(t, r, u, k) && t[k].publishing;
            let k2 = if k < i { k } else { k + 1 };
            assert(peer_at(s, r, u, k2) && s[k2].publishing);
            assert(k2 != i);
            if r == s[i].room_id && u == s[i].user_id {
                if k2 < i {
                    assert(!(s[k2].room_id == s[i].room_id && s[k2].user_id == s[i].user_id));
                } else {
                    assert(!(s[i].room_id == s[k2].room_id && s[i].user_id == s[k2].user_id));
                }
            }
        }
        if publishes_in(s, r, u) && !(r == s[i].room_id && u == s[i].user_id) {
            let k = choose|k: int| peer_at(s, r, u, k) && s[k].publishing;
            assert(k != i);
            let k2 = if k < i { k } else { k - 1 };
            assert(peer_at(t, r, u, k2) && t[k2].publishing);
        }
    }
}

/// `post` is `pre` with `user_id` queued to every other peer of the room.
pub open spec fn enqueued(pre: Seq<VoicePeer>, post: Seq<VoicePeer>, room_id: i32, user_id: i32) -> bool {
    &&& post.len() == pre.len()
    &&& forall|k: int|
        0 <= k < pre.len() ==> {
            let a = #[trigger] pre[k];
            let b = post[k];
            &&& b.room_id == a.room_id
            &&& b.user_id == a.user_id
            &&& b.publishing == a.publishing
            &&& b.awaiting_answer == a.awaiting_answer
            &&& b.received@ == a.received@
            &&& b.pending@ == (if a.room_id == room_id && a.user_id != user_id {
                a.pending@.push(user_id)
            } else {
                a.pending@
            })
        }
}

pub open spec fn unique_peers(s: Seq<VoicePeer>) -> bool {
    forall|a: int, b: int|
        0 <= a < b < s.len() ==> !(#[trigger] s[a].room_id == #[trigger] s[b].room_id
            && s[a].user_id == s[b].user_id)
}

/// Queuing `user_id` to the other peers of the room mends every fact that
/// only their knowledge of `user_id` broke.
pub proof fn lemma_enqueue_mends(pre: Seq<VoicePeer>, post: Seq<VoicePeer>, room_id: i32, user_id: i32)
    requires
        unique_peers(pre),
        enqueued(pre, post, room_id, user_id),
        forall|k: int, o: i32|
            0 <= k < pre.len() && !(pre[k].room_id == room_id && pre[k].user_id != user_id && o
                == user_id) ==> #[trigger] peer_fact(pre, k, o),
    ensures
        relay_wf(post),
{
    lemma_publishes_same(pre, post);
    assert forall|a: int, b: int| 0 <= a < b < post.len() implies !(#[trigger] post[a].room_id
        == #[trigger] post[b].room_id && post[a].user_id == post[b].user_id) by {
        assert(pre[a].room_id == post[a].room_id && pre[b].room_id == post[b].room_id);
    }
    assert forall|k: int, o: i32| 0 <= k < post.len() implies #[trigger] peer_fact(post, k, o) by {
        let a = pre[k];
        if a.room_id == room_id && a.user_id != user_id {
            if o == user_id {
                assert(post[k].pending@.last() == user_id);
                assert(post[k].pending@.contains(user_id));
            } else {
                assert(peer_fact(pre, k, o));
                assert(post[k].pending@.contains(o) == a.pending@.contains(o)) by {
                    if post[k].pending@.contains(o) {
                        let j = choose|j: int| 0 <= j < post[k].pending@.len() && post[k].pending@[j] == o;
                        assert(a.pending@[j] == o);
                    }
                    if a.pending@.contains(o) {
                        let j = choose|j: int| 0 <= j < a.pending@.len() && a.pending@[j] == o;
                        assert(post[k].pending@[j] == o);
                    }
                }
            }
        } else {
            assert(peer_fact(pre, k, o));
        }
    }
}

/// Removing a peer keeps every fact but those of the other peers of its room
/// about it.
pub proof fn lemma_remove_peer(s: Seq<VoicePeer>, i: int)
    requires
        relay_wf(s),
        0 <= i < s.len(),
    ensures
        unique_peers(s.remove(i)),
        forall|k: int, o: i32|
            0 <= k < s.remove(i).len() && !(s.remove(i)[k].room_id == s[i].room_id
                && s.remove(i)[k].user_id != s[i].user_id && o == s[i].user_id)
                ==> #[trigger] peer_fact(s.remove(i), k, o),
        forall|r: i32, u: i32| #[trigger] has_peer(s.remove(i), r, u) == (has_peer(s, r, u) && !(r
            == s[i].room_id && u == s[i].user_id)),
{
    let t = s.remove(i);
    lemma_publishes_remove(s, i);
    assert forall|a: int, b: int| 0 <= a < b < t.len() implies !(#[trigger] t[a].room_id
        == #[trigger] t[b].room_id && t[a].user_id == t[b].user_id) by {
        let a2 = if a < i { a } else { a + 1 };
        let b2 = if b < i { b } else { b + 1 };
        assert(t[a] == s[a2] && t[b] == s[b2]);
    }
    assert forall|k: int, o: i32|
        0 <= k < t.len() && !(t[k].room_id == s[i].room_id && t[k].user_id != s[i].user_id && o
            == s[i].user_id) implies #[trigger] peer_fact(t, k, o) by {
        let k2 = if k < i { k } else { k + 1 };
        assert(t[k] == s[k2]);
        assert(peer_fact(s, k2, o));
        if t[k].room_id == s[i].room_id && o == s[i].user_id {
            assert(t[k].user_id == s[i].user_id);
            if k2 < i {
                assert(!(s[k2].room_id == s[i].room_id && s[k2].user_id == s[i].user_id));
            } else {
                assert(!(s[i].room_id == s[k2].room_id && s[i].user_id == s[k2].user_id));
            }
        }
    }
    assert forall|r: i32, u: i32| #[trigger] has_peer(t, r, u) == (has_peer(s, r, u) && !(r
        == s[i].room_id && u == s[i].user_id)) by {
        if has_peer(t, r, u) {
            let k = choose|k: int| peer_at(t, r, u, k);
            let k2 = if k < i { k } else { k + 1 };
            assert(peer_at(s, r, u, k2));
            if r == s[i].room_id && u == s[i].user_id {
                if k2 < i {
                    assert(!(s[k2].room_id == s[i].room_id && s[k2].user_id == s[i].user_id));
                } else {
                    assert(!(s[i].room_id == s[k2].room_id && s[i].user_id == s[k2].user_id));
                }
            }
        }
        if has_peer(s, r, u) && !(r == s[i].room_id && u == s[i].user_id) {
            let k = choose|k: int| peer_at(s, r, u, k);
            let k2 = if k < i { k } else { k - 1 };
            assert(peer_at(t, r, u, k2));
        }
    }
}

pub open spec fn offer_pred(room_id: i32, user_id: i32) -> spec_fn(VoicePeer) -> bool {
    |q: VoicePeer| q.room_id == room_id && q.user_id != user_id && q.publishing
}

pub open spec fn peer_user() -> spec_fn(VoicePeer) -> i32 {
    |q: VoicePeer| q.user_id
}

/// The relay without the peer of `user_id` in the room, if there is one.
pub open spec fn without_peer(s: Seq<VoicePeer>, room_id: i32, user_id: i32) -> Seq<VoicePeer> {
    if has_peer(s, room_id, user_id) {
        s.remove(choose|k: int| peer_at(s, room_id, user_id, k))
    } else {
        s
    }
}

/// Owners of the tracks offered to a new connection of `user_id`: the other
/// publishing peers of the room, in order.
pub open spec fn offered(s: Seq<VoicePeer>, room_id: i32, user_id: i32) -> Seq<i32> {
    s.filter(offer_pred(room_id, user_id)).map_values(peer_user())
}

fn copy_ids(v: &Vec<i32>) -> (r: Vec<i32>)
    ensures
        r@ == v@,
{
    let mut out: Vec<i32> = Vec::new();
    let mut i: usize = 0;
    while i < v.len()
        invariant
            i <= v@.len(),
            out@ == v@.take(i as int),
        decreases v@.len() - i,
    {
        out.push(v[i]);
        i = i + 1;
        assert(out@ =~= v@.take(i as int));
    }
    assert(out@ =~= v@);
    out
}

fn contains_id(v: &Vec<i32>, x: i32) -> (r: bool)
    ensures
        r == v@.contains(x),
{
    let mut i: usize = 0;
    while i < v.len()
        invariant
            i <= v@.len(),
            forall|k: int| 0 <= k < i ==> v@[k] != x,
        decreases v@.len() - i,
    {
        if v[i] == x {
            return true;
        }
        i = i + 1;
    }
    false
}

/// The owners offered to `user_id` are the other publishing peers.
pub proof fn lemma_offered_contains(s: Seq<VoicePeer>, room_id: i32, user_id: i32, x: i32)
    ensures
        offered(s, room_id, user_id).contains(x) <==> (x != user_id && publishes_in(s, room_id, x)),
{
    let p = offer_pred(room_id, user_id);
    let f = s.filter(p);
    if offered(s, room_id, user_id).contains(x) {
        let j = choose|j: int| 0 <= j < f.len() && f.map_values(peer_user())[j] == x;
        assert(f.contains(f[j]));
        crate::keyed::lemma_filter_sub(s, p, f[j]);
        let k = choose|k: int| 0 <= k < s.len() && s[k] == f[j];
        assert(peer_at(s, room_id, x, k) && s[k].publishing);
    }
    if x != user_id && publishes_in(s, room_id, x) {
        let k = choose|k: int| peer_at(s, room_id, x, k) && s[k].publishing;
        s.lemma_filter_contains(p, k);
        let j = choose|j: int| 0 <= j < f.len() && f[j] == s[k];
        assert(f.map_values(peer_user())[j] == x);
    }
}

/// A new peer that publishes nothing, and knows what it must, keeps the relay
/// well formed.
pub proof fn lemma_push_peer(s: Seq<VoicePeer>, q: VoicePeer)
    requires
        relay_wf(s),
        !has_peer(s, q.room_id, q.user_id),
        !q.publishing,
        !q.received@.contains(q.user_id),
        !q.pending@.contains(q.user_id),
        forall|o: i32|
            o != q.user_id && !q.pending@.contains(o) ==> (q.received@.contains(o)
                <==> publishes_in(s, q.room_id, o)),
    ensures
        relay_wf(s.push(q)),
        forall|r: i32, u: i32| #[trigger] publishes_in(s.push(q), r, u) == publishes_in(s, r, u),
        forall|r: i32, u: i32| #[trigger] has_peer(s.push(q), r, u) == (has_peer(s, r, u) || (r
            == q.room_id && u == q.user_id)),
{
    let t = s.push(q);
    assert forall|r: i32, u: i32| #[trigger] publishes_in(t, r, u) == publishes_in(s, r, u) by {
        if publishes_in(t, r, u) {
            let k = choose|k: int| peer_at(t, r, u, k) && t[k].publishing;
            assert(k != s.len());
            assert(peer_at(s, r, u, k) && s[k].publishing);
        }
        if publishes_in(s, r, u) {
            let k = choose|k: int| peer_at(s, r, u, k) && s[k].publishing;
            assert(peer_at(t, r, u, k) && t[k].publishing);
        }
    }
    assert forall|r: i32, u: i32| #[trigger] has_peer(t, r, u) == (has_peer(s, r, u) || (r
        == q.room_id && u == q.user_id)) by {
        if has_peer(t, r, u) {
            let k = choose|k: int| peer_at(t, r, u, k);
            if k < s.len() {
                assert(peer_at(s, r, u, k));
            }
        }
        if has_peer(s, r, u) {
            let k = choose|k: int| peer_at(s, r, u, k);
            assert(peer_at(t, r, u, k));
        }
        if r == q.room_id && u == q.user_id {
            assert(peer_at(t, r, u, s.len() as int));
        }
    }
    assert forall|a: int, b: int| 0 <= a < b < t.len() implies !(#[trigger] t[a].room_id
        == #[trigger] t[b].room_id && t[a].user_id == t[b].user_id) by {
        if b == s.len() {
            if t[a].room_id == q.room_id && t[a].user_id == q.user_id {
                assert(peer_at(s, q.room_id, q.user_id, a));
            }
        }
    }
    assert forall|k: int, o: i32| 0 <= k < t.len() implies #[trigger] peer_fact(t, k, o) by {
        if k < s.len() {
            assert(peer_fact(s, k, o));
        }
    }
}

fn drop_id(v: &Vec<i32>, x: i32) -> (r: Vec<i32>)
    ensures
        forall|y: i32| #[trigger] r@.contains(y) == (v@.contains(y) && y != x),
{
    let mut out: Vec<i32> = Vec::new();
    let mut i: usize = 0;
    while i < v.len()
        invariant
            i <= v@.len(),
            forall|y: i32| #[trigger] out@.contains(y) == (v@.take(i as int).contains(y) && y != x),
        decreases v@.len() - i,
    {
        let ghost prev = out@;
        if v[i] != x {
            out.push(v[i]);
        }
        proof {
            let t1 = v@.take(i + 1);
            assert(t1 =~= v@.take(i as int).push(v@[i as int]));
            assert forall|y: i32| #[trigger] out@.contains(y) == (t1.contains(y) && y != x) by {
                if prev.contains(y) {
                    let j = choose|j: int| 0 <= j < prev.len() && prev[j] == y;
                    assert(out@[j] == y);
                }
                if t1.contains(y) && y != x {
                    let j = choose|j: int| 0 <= j < t1.len() && t1[j] == y;
                    if j < i {
                        assert(v@.take(i as int)[j] == y);
                    } else {
                        assert(out@.last() == y);
                    }
                }
                if out@.contains(y) && !prev.contains(y) {
                    assert(out@ == prev.push(v@[i as int]));
                    assert(y == v@[i as int]);
                    assert(t1[i as int] == y);
                }
                if prev.contains(y) {
                    assert(v@.take(i as int).contains(y));
                    let j = choose|j: int| 0 <= j < i && v@.take(i as int)[j] == y;
                    assert(t1[j] == y);
                }
            }
        }
        i = i + 1;
    }
    assert(v@.take(v@.len() as int) =~= v@);
    out
}

pub struct VoiceRelay {
    pub peers: Vec<VoicePeer>,
}

impl VoiceRelay {
    pub open spec fn wf(&self) -> bool {
        relay_wf(self.peers@)
    }

    pub open spec fn is_peer(&self, room_id: i32, user_id: i32) -> bool {
        has_peer(self.peers@, room_id, user_id)
    }

    pub open spec fn publishes(&self, room_id: i32, user_id: i32) -> bool {
        publishes_in(self.peers@, room_id, user_id)
    }

    pub fn new() -> (r: VoiceRelay)
        ensures
            r.wf(),
            r.peers@.len() == 0,
    {
        VoiceRelay { peers: Vec::new() }
    }

    /// Every other peer of the room is queued a renegotiation about `user_id`.
    fn enqueue_others(&mut self, room_id: i32, user_id: i32)
        ensures
            enqueued(old(self).peers@, final(self).peers@, room_id, user_id),
    {
        let ghost pre = self.peers@;
        let mut i: usize = 0;
        while i < self.peers.len()
            invariant
                i <= self.peers@.len(),
                self.peers@.len() == pre.len(),
                forall|k: int|
                    0 <= k < pre.len() ==> {
                        let a = #[trigger] pre[k];
                        let b = self.peers@[k];
                        &&& b.room_id == a.room_id
                        &&& b.user_id == a.user_id
                        &&& b.publishing == a.publishing
                        &&& b.awaiting_answer == a.awaiting_answer
                        &&& b.received@ == a.received@
                        &&& b.pending@ == (if k < i && a.room_id == room_id && a.user_id != user_id {
                            a.pending@.push(user_id)
                        } else {
                            a.pending@
                        })
                    },
            decreases pre.len() - i,
        {
            if self.peers[i].room_id == room_id && self.peers[i].user_id != user_id {
                let mut p = self.peers.remove(i);
                p.pending.push(user_id);
                self.peers.insert(i, p);
            }
            i = i + 1;
        }
    }

    /// A peer's incoming media arrived: the peer now publishes a track, and
    /// every other peer of the room is queued to renegotiate for it.
    pub fn on_track(&mut self, room_id: i32, user_id: i32)
        requires
            old(self).wf(),
        ensures
            final(self).wf(),
            final(self).publishes(room_id, user_id) == old(self).is_peer(room_id, user_id),
            forall|r: i32, u: i32|
                !(r == room_id && u == user_id)
                    ==> #[trigger] final(self).publishes(r, u) == old(self).publishes(r, u),
            forall|r: i32, u: i32| #[trigger] final(self).is_peer(r, u) == old(self).is_peer(r, u),
            forall|k: int|
                0 <= k < old(self).peers@.len() && old(self).peers@[k].room_id == room_id
                    && old(self).peers@[k].user_id != user_id
                    ==> #[trigger] final(self).peers@[k].pending@ == old(self).peers@[k].pending@.push(user_id),
    {
        let ghost pre = self.peers@;
        match self.find_peer(room_id, user_id) {
            Some(i) => {
                let mut p = self.peers.remove(i);
                p.publishing = true;
                self.peers.insert(i, p);
            },
            None => {},
        }
        let ghost mid = self.peers@;
        proof {
            assert(mid.len() == pre.len());
            assert forall|k: int| 0 <= k < mid.len() implies #[trigger] mid[k].room_id == pre[k].room_id
                && mid[k].user_id == pre[k].user_id && mid[k].received@ == pre[k].received@
                && mid[k].pending@ == pre[k].pending@ && (mid[k].publishing == (pre[k].publishing
                || peer_at(pre, room_id, user_id, k))) by {}
            assert forall|r: i32, u: i32| #[trigger] publishes_in(mid, r, u) == (publishes_in(pre, r, u)
                || (r == room_id && u == user_id && has_peer(pre, room_id, user_id))) by {
                if publishes_in(mid, r, u) {
                    let k = choose|k: int| peer_at(mid, r, u, k) && mid[k].publishing;
                    assert(peer_at(pre, r, u, k));
                }
                if publishes_in(pre, r, u) {
                    let k = choose|k: int| peer_at(pre, r, u, k) && pre[k].publishing;
                    assert(peer_at(mid, r, u, k) && mid[k].publishing);
                }
                if r == room_id && u == user_id && has_peer(pre, room_id, user_id) {
                    let k = choose|k: int| peer_at(pre, r, u, k);
                    assert(peer_at(mid, r, u, k) && mid[k].publishing);
                }
            }
            assert forall|k: int, o: i32|
                0 <= k < mid.len() && !(mid[k].room_id == room_id && mid[k].user_id != user_id && o
                    == user_id) implies #[trigger] peer_fact(mid, k, o) by {
                assert(peer_fact(pre, k, o));
            }
            lemma_same_peers(pre, mid);
        }
        self.enqueue_others(room_id, user_id);
        proof {
            lemma_enqueue_mends(mid, self.peers@, room_id, user_id);
            lemma_publishes_same(mid, self.peers@);
            assert forall|r: i32, u: i32| !(r == room_id && u == user_id) implies #[trigger] publishes_in(self.peers@, r, u) == publishes_in(pre, r, u) by {
                assert(publishes_in(self.peers@, r, u) == publishes_in(mid, r, u));
                assert(publishes_in(mid, r, u) == publishes_in(pre, r, u));
            }
            lemma_same_peers(mid, self.peers@);
            assert(publishes_in(self.peers@, room_id, user_id) == publishes_in(mid, room_id, user_id));
            assert forall|k: int|
                0 <= k < pre.len() && pre[k].room_id == room_id && pre[k].user_id != user_id
                    implies #[trigger] self.peers@[k].pending@ == pre[k].pending@.push(user_id) by {
                assert(mid[k].pending@ == pre[k].pending@);
            }
        }
    }

    /// A peer's connection failed, disconnected or closed: the peer is
    /// removed, and every other peer of the room is queued to renegotiate so
    /// that the peer's track is dropped.
    pub fn on_peer_closed(&mut self, room_id: i32, user_id: i32)
        requires
            old(self).wf(),
        ensures
            final(self).wf(),
            !final(self).is_peer(room_id, user_id),
            !final(self).publishes(room_id, user_id),
            forall|r: i32, u: i32|
                !(r == room_id && u == user_id) ==> #[trigger] final(self).is_peer(r, u) == old(
                    self,
                ).is_peer(r, u) && final(self).publishes(r, u) == old(self).publishes(r, u),
            enqueued(without_peer(old(self).peers@, room_id, user_id), final(self).peers@, room_id, user_id),
            forall|k: int|
                0 <= k < final(self).peers@.len() && final(self).peers@[k].room_id == room_id
                    ==> #[trigger] final(self).peers@[k].pending@.contains(user_id),
    {
        let ghost pre = self.peers@;
        match self.find_peer(room_id, user_id) {
            Some(i) => {
                proof {
                    lemma_remove_peer(pre, i as int);
                    lemma_publishes_remove(pre, i as int);
                    assert(has_peer(pre, room_id, user_id));
                    let k = choose|k: int| peer_at(pre, room_id, user_id, k);
                    if k < i {
                        assert(!(pre[k].room_id == pre[i as int].room_id && pre[k].user_id == pre[i as int].user_id));
                    } else if k > i {
                        assert(!(pre[i as int].room_id == pre[k].room_id && pre[i as int].user_id == pre[k].user_id));
                    }
                    assert(without_peer(pre, room_id, user_id) == pre.remove(i as int));
                }
                self.peers.remove(i);
            },
            None => {
                proof {
                    lemma_publishes_same(pre, pre);
                    assert forall|r: i32, u: i32| #[trigger] publishes_in(pre, r, u) implies has_peer(pre, r, u) by {
                        let k = choose|k: int| peer_at(pre, r, u, k) && pre[k].publishing;
                    }
                }
            },
        }
        let ghost mid = self.peers@;
        assert(!has_peer(mid, room_id, user_id));
        self.enqueue_others(room_id, user_id);
        proof {
            assert forall|k: int| 0 <= k < mid.len() && mid[k].room_id == room_id implies mid[k].user_id != user_id by {
                if mid[k].user_id == user_id {
                    assert(peer_at(mid, room_id, user_id, k));
                }
            }
            lemma_enqueue_mends(mid, self.peers@, room_id, user_id);
            lemma_publishes_same(mid, self.peers@);
            lemma_same_peers(mid, self.peers@);
            assert forall|k: int|
                0 <= k < self.peers@.len() && self.peers@[k].room_id == room_id
                    implies #[trigger] self.peers@[k].pending@.contains(user_id) by {
                assert(mid[k].room_id == room_id);
                assert(mid[k].user_id != user_id);
                assert(self.peers@[k].pending@.last() == user_id);
            }
            if publishes_in(self.peers@, room_id, user_id) {
                let k = choose|k: int| peer_at(self.peers@, room_id, user_id, k) && self.peers@[k].publishing;
                assert(peer_at(mid, room_id, user_id, k));
            }
            assert forall|r: i32, u: i32| !(r == room_id && u == user_id) implies #[trigger] has_peer(self.peers@, r, u)
                == has_peer(pre, r, u) && publishes_in(self.peers@, r, u) == publishes_in(pre, r, u) by {
                assert(has_peer(self.peers@, r, u) == has_peer(mid, r, u));
                assert(publishes_in(self.peers@, r, u) == publishes_in(mid, r, u));
            }
        }
    }

    /// The owners of the tracks to offer to a new connection of the user.
    pub fn create_rtc(&self, room_id: i32, user_id: i32) -> (r: Vec<i32>)
        requires
            self.wf(),
        ensures
            r@ == offered(self.peers@, room_id, user_id),
            r@.no_duplicates(),
    {
        let mut out: Vec<i32> = Vec::new();
        let ghost p = offer_pred(room_id, user_id);
        let mut i: usize = 0;
        while i < self.peers.len()
            invariant
                i <= self.peers@.len(),
                p == offer_pred(room_id, user_id),
                self.wf(),
                out@ == self.peers@.take(i as int).filter(p).map_values(peer_user()),
                out@.no_duplicates(),
                forall|a: int| 0 <= a < out@.len() ==> peer_before(self.peers@, room_id, #[trigger] out@[a], i as int),
            decreases self.peers@.len() - i,
        {
            proof {
                self.peers@.lemma_take_succ_push(i as int);
                self.peers@.take(i as int).lemma_filter_push(self.peers@[i as int], p);
            }
            if self.peers[i].room_id == room_id && self.peers[i].user_id != user_id
                && self.peers[i].publishing {
                let ghost prev = out@;
                let x = self.peers[i].user_id;
                proof {
                    assert forall|a: int| 0 <= a < prev.len() implies prev[a] != x by {
                        assert(peer_before(self.peers@, room_id, prev[a], i as int));
                        let k = choose|k: int| 0 <= k < i && peer_at(self.peers@, room_id, prev[a], k);
                        if prev[a] == x {
                            assert(!(self.peers@[k].room_id == self.peers@[i as int].room_id
                                && self.peers@[k].user_id == self.peers@[i as int].user_id));
                        }
                    }
                }
                out.push(x);
                proof {
                    assert forall|a: int| 0 <= a < out@.len() implies peer_before(self.peers@, room_id,
                        #[trigger] out@[a], i + 1) by {
                        if a < prev.len() {
                            assert(peer_before(self.peers@, room_id, prev[a], i as int));
                            let k = choose|k: int| 0 <= k < i && peer_at(self.peers@, room_id, prev[a], k);
                            assert(peer_at(self.peers@, room_id, out@[a], k));
                        } else {
                            assert(peer_at(self.peers@, room_id, out@[a], i as int));
                        }
                    }
                }
            }
            i = i + 1;
            assert(out@ =~= self.peers@.take(i as int).filter(p).map_values(peer_user()));
        }
        assert(self.peers@.take(self.peers@.len() as int) == self.peers@);
        out
    }

    /// What to do with a signaling message of the user in the room: an offer
    /// builds a connection offering the other publishing peers' tracks; an
    /// answer or an ICE candidate goes to the user's connection, or is dropped
    /// when there is none.
    pub fn handle_msg(&self, room_id: i32, user_id: i32, kind: ScVoiceMsgKind) -> (r: VoiceAction)
        requires
            self.wf(),
        ensures
            kind == ScVoiceMsgKind::Offer ==> (r matches VoiceAction::Connect(t) && t@.no_duplicates() && t@ == offered(
                self.peers@,
                room_id,
                user_id,
            )),
            kind == ScVoiceMsgKind::Answer ==> (if self.is_peer(room_id, user_id) {
                r is Answer
            } else {
                r is Ignore
            }),
            kind == ScVoiceMsgKind::Ice ==> (if self.is_peer(room_id, user_id) {
                r is Ice
            } else {
                r is Ignore
            }),
    {
        match kind {
            ScVoiceMsgKind::Offer => VoiceAction::Connect(self.create_rtc(room_id, user_id)),
            ScVoiceMsgKind::Answer => {
                if self.find_peer(room_id, user_id).is_some() {
                    VoiceAction::Answer
                } else {
                    VoiceAction::Ignore
                }
            },
            ScVoiceMsgKind::Ice => {
                if self.find_peer(room_id, user_id).is_some() {
                    VoiceAction::Ice
                } else {
                    VoiceAction::Ignore
                }
            },
        }
    }

    /// The user's connection in the room reached the connected state. A
    /// former connection of the user there is replaced (its track dropped for
    /// the other peers, as in `on_peer_closed`). The new peer receives the
    /// `attached` owners' tracks, and is queued a renegotiation for each
    /// attached owner that does not publish and each publishing other peer
    /// that was not attached.
    pub fn on_peer_connected(&mut self, room_id: i32, user_id: i32, attached: &Vec<i32>)
        requires
            old(self).wf(),
            !attached@.contains(user_id),
        ensures
            final(self).wf(),
            final(self).is_peer(room_id, user_id),
            !final(self).publishes(room_id, user_id),
            forall|r: i32, u: i32|
                !(r == room_id && u == user_id) ==> #[trigger] final(self).is_peer(r, u) == old(
                    self,
                ).is_peer(r, u) && final(self).publishes(r, u) == old(self).publishes(r, u),
            ({
                let q = final(self).peers@.last();
                &&& final(self).peers@.len() > 0
                &&& q.room_id == room_id
                &&& q.user_id == user_id
                &&& !q.publishing
                &&& q.received@ == attached@
                &&& forall|o: i32| #[trigger] q.pending@.contains(o) <==> (attached@.contains(o)
                    && !old(self).publishes(room_id, o)) || (!attached@.contains(o) && o != user_id
                    && old(self).publishes(room_id, o))
            }),
            old(self).is_peer(room_id, user_id) ==> forall|k: int|
                0 <= k < final(self).peers@.len() - 1 && final(self).peers@[k].room_id == room_id
                    ==> #[trigger] final(self).peers@[k].pending@.contains(user_id),
    {
        let ghost pre = self.peers@;
        match self.find_peer(room_id, user_id) {
            Some(i) => {
                self.on_peer_closed(room_id, user_id);
            },
            None => {},
        }
        let ghost mid = self.peers@;
        proof {
            assert forall|r: i32, u: i32| !(r == room_id && u == user_id) implies #[trigger] has_peer(mid, r, u)
                == has_peer(pre, r, u) && publishes_in(mid, r, u) == publishes_in(pre, r, u) by {
                assert(self.is_peer(r, u) == has_peer(mid, r, u));
                assert(self.publishes(r, u) == publishes_in(mid, r, u));
            }
            if !has_peer(pre, room_id, user_id) {
                assert(mid == pre);
                if publishes_in(pre, room_id, user_id) {
                    let k = choose|k: int| peer_at(pre, room_id, user_id, k) && pre[k].publishing;
                }
            }
        }
        let mut pending: Vec<i32> = Vec::new();
        let mut i: usize = 0;
        while i < attached.len()
            invariant
                self.wf(),
                self.peers@ == mid,
                !attached@.contains(user_id),
                i <= attached@.len(),
                forall|x: i32| #[trigger] pending@.contains(x) <==> (attached@.take(i as int).contains(x)
                    && !publishes_in(mid, room_id, x)),
            decreases attached@.len() - i,
        {
            let o = attached[i];
            let ghost prev = pending@;
            proof {
                attached@.lemma_take_succ_push(i as int);
            }
            if !self.publishes_exec(room_id, o) {
                pending.push(o);
            }
            i = i + 1;
            proof {
                assert forall|x: i32| #[trigger] pending@.contains(x) <==> (attached@.take(i as int).contains(x)
                    && !publishes_in(mid, room_id, x)) by {
                    assert(attached@.take(i as int) =~= attached@.take(i - 1).push(o));
                    if pending@.contains(x) && !prev.contains(x) {
                        assert(x == o);
                        assert(attached@.take(i as int)[i - 1] == o);
                    }
                    if prev.contains(x) {
                        let j = choose|j: int| 0 <= j < prev.len() && prev[j] == x;
                        assert(pending@[j] == x);
                    }
                    if attached@.take(i as int).contains(x) && !publishes_in(mid, room_id, x) {
                        let j = choose|j: int| 0 <= j < i && attached@.take(i as int)[j] == x;
                        if j < i - 1 {
                            assert(attached@.take(i - 1)[j] == x);
                        } else {
                            assert(pending@.last() == x);
                        }
                    }
                }
            }
        }
        assert(attached@.take(attached@.len() as int) =~= attached@);
        let others = self.create_rtc(room_id, user_id);
        let mut j: usize = 0;
        while j < others.len()
            invariant
                self.wf(),
                self.peers@ == mid,
                j <= others@.len(),
                others@ == offered(mid, room_id, user_id),
                forall|x: i32| #[trigger] pending@.contains(x) <==> (attached@.contains(x)
                    && !publishes_in(mid, room_id, x)) || (others@.take(j as int).contains(x)
                    && !attached@.contains(x)),
            decreases others@.len() - j,
        {
            let o = others[j];
            let ghost prev = pending@;
            if !contains_id(attached, o) {
                pending.push(o);
            }
            j = j + 1;
            proof {
                assert forall|x: i32| #[trigger] pending@.contains(x) <==> (attached@.contains(x)
                    && !publishes_in(mid, room_id, x)) || (others@.take(j as int).contains(x)
                    && !attached@.contains(x)) by {
                    assert(others@.take(j as int) =~= others@.take(j - 1).push(o));
                    if pending@.contains(x) && !prev.contains(x) {
                        assert(x == o);
                        assert(others@.take(j as int)[j - 1] == o);
                    }
                    if prev.contains(x) {
                        let a = choose|a: int| 0 <= a < prev.len() && prev[a] == x;
                        assert(pending@[a] == x);
                    }
                    if others@.take(j as int).contains(x) && !attached@.contains(x) {
                        let a = choose|a: int| 0 <= a < j && others@.take(j as int)[a] == x;
                        if a < j - 1 {
                            assert(others@.take(j - 1)[a] == x);
                        } else {
                            assert(pending@.last() == x);
                        }
                    }
                }
            }
        }
        assert(others@.take(others@.len() as int) =~= others@);
        let peer = VoicePeer {
            room_id,
            user_id,
            publishing: false,
            received: copy_ids(attached),
            pending,
            awaiting_answer: false,
        };
        proof {
            assert forall|x: i32| x != user_id implies #[trigger] publishes_in(mid, room_id, x)
                == publishes_in(pre, room_id, x) by {
                assert(has_peer(mid, room_id, x) == has_peer(pre, room_id, x));
            }
            assert forall|x: i32| #[trigger] peer.pending@.contains(x) implies x != user_id by {
                if others@.contains(x) {
                    lemma_offered_contains(mid, room_id, user_id, x);
                }
            }
            assert forall|o: i32| o != user_id && !peer.pending@.contains(o) implies (
            peer.received@.contains(o) <==> publishes_in(mid, room_id, o)) by {
                lemma_offered_contains(mid, room_id, user_id, o);
            }
            assert forall|o: i32| #[trigger] peer.pending@.contains(o) <==> (attached@.contains(o)
                && !publishes_in(pre, room_id, o)) || (!attached@.contains(o) && o != user_id
                && publishes_in(pre, room_id, o)) by {
                lemma_offered_contains(mid, room_id, user_id, o);
            }
            assert(!has_peer(mid, room_id, user_id));
            lemma_push_peer(mid, peer);
        }
        self.peers.push(peer);
        proof {
            assert forall|r: i32, u: i32| !(r == room_id && u == user_id) implies #[trigger] has_peer(self.peers@, r, u)
                == has_peer(pre, r, u) && publishes_in(self.peers@, r, u) == publishes_in(pre, r, u) by {
                assert(has_peer(mid, r, u) == has_peer(pre, r, u));
            }
        }
    }

    /// The answer to the offer of the user's connection in the room came back:
    /// the next renegotiation may start.
    pub fn on_answer(&mut self, room_id: i32, user_id: i32)
        requires
            old(self).wf(),
        ensures
            final(self).wf(),
            final(self).peers@.len() == old(self).peers@.len(),
            forall|k: int|
                0 <= k < old(self).peers@.len() ==> {
                    let a = old(self).peers@[k];
                    let b = #[trigger] final(self).peers@[k];
                    &&& b.room_id == a.room_id
                    &&& b.user_id == a.user_id
                    &&& b.publishing == a.publishing
                    &&& b.received@ == a.received@
                    &&& b.pending@ == a.pending@
                    &&& b.awaiting_answer == (a.awaiting_answer && !(a.room_id == room_id
                        && a.user_id == user_id))
                },
    {
        let ghost pre = self.peers@;
        match self.find_peer(room_id, user_id) {
            Some(i) => {
                let mut p = self.peers.remove(i);
                p.awaiting_answer = false;
                self.peers.insert(i, p);
                proof {
                    let post = self.peers@;
                    assert forall|k: int| 0 <= k < pre.len() && k != i implies !(pre[k].room_id == room_id
                        && pre[k].user_id == user_id) by {
                        if k < i {
                            assert(!(pre[k].room_id == pre[i as int].room_id && pre[k].user_id == pre[i as int].user_id));
                        } else {
                            assert(!(pre[i as int].room_id == pre[k].room_id && pre[i as int].user_id == pre[k].user_id));
                        }
                    }
                    lemma_publishes_same(pre, post);
                    assert forall|k: int, o: i32| 0 <= k < post.len() implies #[trigger] peer_fact(post, k, o) by {
                        assert(peer_fact(pre, k, o));
                    }
                    assert forall|a: int, b: int| 0 <= a < b < post.len() implies !(#[trigger] post[a].room_id
                        == #[trigger] post[b].room_id && post[a].user_id == post[b].user_id) by {
                        assert(pre[a].room_id == post[a].room_id && pre[b].room_id == post[b].room_id);
                    }
                }
            },
            None => {
                proof {
                    assert forall|k: int| 0 <= k < pre.len() implies !(pre[k].room_id == room_id
                        && pre[k].user_id == user_id) by {
                        if pre[k].room_id == room_id && pre[k].user_id == user_id {
                            assert(peer_at(pre, room_id, user_id, k));
                        }
                    }
                }
            },
        }
    }

    /// Takes the oldest queued track change of the user's connection in the
    /// room, and applies it to what the peer receives: the owner's track is
    /// added when the owner is another publishing peer, removed otherwise.
    /// The caller then runs one offer and answer round for it, and reports the
    /// answer with `on_answer`. `None` when nothing is queued, an answer is
    /// still awaited, or there is no such connection.
    pub fn next_renegotiation(&mut self, room_id: i32, user_id: i32) -> (r: Option<TrackChange>)
        requires
            old(self).wf(),
        ensures
            final(self).wf(),
            forall|r: i32, u: i32| #[trigger] final(self).is_peer(r, u) == old(self).is_peer(r, u),
            forall|r: i32, u: i32| #[trigger] final(self).publishes(r, u) == old(self).publishes(r, u),
            final(self).peers@.len() == old(self).peers@.len(),
            r is None <==> !exists|k: int|
                peer_at(old(self).peers@, room_id, user_id, k) && old(self).peers@[k].pending@.len() > 0
                    && !old(self).peers@[k].awaiting_answer,
            r is None ==> final(self).peers@ == old(self).peers@,
            forall|k: int|
                peer_at(old(self).peers@, room_id, user_id, k) && old(self).peers@[k].pending@.len() > 0
                    && !old(self).peers@[k].awaiting_answer ==> {
                    let a = old(self).peers@[k];
                    let b = #[trigger] final(self).peers@[k];
                    let owner = a.pending@[0];
                    let add = old(self).publishes(room_id, owner);
                    &&& r == Some(TrackChange { owner, add })
                    &&& b.room_id == a.room_id
                    &&& b.user_id == a.user_id
                    &&& b.publishing == a.publishing
                    &&& b.awaiting_answer
                    &&& b.pending@ == a.pending@.drop_first()
                    &&& forall|o: i32| #[trigger] b.received@.contains(o) == (if o == owner {
                        add
                    } else {
                        a.received@.contains(o)
                    })
                    &&& forall|j: int| 0 <= j < old(self).peers@.len() && j != k ==> final(self).peers@[j] == old(self).peers@[j]
                },
    {
        let ghost pre = self.peers@;
        let i = match self.find_peer(room_id, user_id) {
            Some(i) => i,
            None => {
                return None;
            },
        };
        if self.peers[i].pending.len() == 0 || self.peers[i].awaiting_answer {
            proof {
                assert forall|k: int| peer_at(pre, room_id, user_id, k) implies pre[k].pending@.len() == 0
                    || pre[k].awaiting_answer by {
                    if k != i {
                        if k < i {
                            assert(!(pre[k].room_id == pre[i as int].room_id && pre[k].user_id == pre[i as int].user_id));
                        } else {
                            assert(!(pre[i as int].room_id == pre[k].room_id && pre[i as int].user_id == pre[k].user_id));
                        }
                    }
                }
            }
            return None;
        }
        let owner = self.peers[i].pending[0];
        let add = self.publishes_exec(room_id, owner);
        proof {
            assert(peer_fact(pre, i as int, user_id));
            assert(pre[i as int].pending@.contains(owner));
        }
        let mut p = self.peers.remove(i);
        p.pending.remove(0);
        p.awaiting_answer = true;
        if add {
            if !contains_id(&p.received, owner) {
                p.received.push(owner);
            }
        } else {
            p.received = drop_id(&p.received, owner);
        }
        let ghost q = p;
        self.peers.insert(i, p);
        proof {
            let post = self.peers@;
            assert(post == pre.update(i as int, q));
            lemma_publishes_same(pre, post);
            lemma_same_peers(pre, post);
            assert forall|o: i32| #[trigger] q.received@.contains(o) == (if o == owner {
                add
            } else {
                pre[i as int].received@.contains(o)
            }) by {
                if add && o != owner && q.received@.contains(o) {
                    let j = choose|j: int| 0 <= j < q.received@.len() && q.received@[j] == o;
                    if j < pre[i as int].received@.len() {
                        assert(pre[i as int].received@[j] == o);
                    }
                }
                if add && pre[i as int].received@.contains(o) {
                    let j = choose|j: int| 0 <= j < pre[i as int].received@.len() && pre[i as int].received@[j] == o;
                    assert(q.received@[j] == o);
                }
                if add && o == owner && !pre[i as int].received@.contains(o) {
                    assert(q.received@.last() == o);
                }
            }
            assert forall|o: i32| #[trigger] q.pending@.contains(o) ==> pre[i as int].pending@.contains(o) by {
                if q.pending@.contains(o) {
                    let j = choose|j: int| 0 <= j < q.pending@.len() && q.pending@[j] == o;
                    assert(pre[i as int].pending@[j + 1] == o);
                }
            }
            assert forall|o: i32| o != owner && #[trigger] pre[i as int].pending@.contains(o) implies q.pending@.contains(o) by {
                let j = choose|j: int| 0 <= j < pre[i as int].pending@.len() && pre[i as int].pending@[j] == o;
                assert(j != 0);
                assert(q.pending@[j - 1] == o);
            }
            assert forall|k: int, o: i32| 0 <= k < post.len() implies #[trigger] peer_fact(post, k, o) by {
                assert(peer_fact(pre, k, o));
                if k == i {
                    assert(peer_fact(pre, i as int, o));
                    if o == user_id {
                        assert(o != owner);
                    }
                }
            }
            assert forall|a: int, b: int| 0 <= a < b < post.len() implies !(#[trigger] post[a].room_id
                == #[trigger] post[b].room_id && post[a].user_id == post[b].user_id) by {
                assert(pre[a].room_id == post[a].room_id && pre[b].room_id == post[b].room_id);
            }
            assert forall|k: int| peer_at(pre, room_id, user_id, k) implies k == i by {
                if k < i {
                    assert(!(pre[k].room_id == pre[i as int].room_id && pre[k].user_id == pre[i as int].user_id));
                } else if k > i {
                    assert(!(pre[i as int].room_id == pre[k].room_id && pre[i as int].user_id == pre[k].user_id));
                }
            }
        }
        Some(TrackChange { owner, add })
    }

    fn find_peer(&self, room_id: i32, user_id: i32) -> (r: Option<usize>)
        ensures
            r matches Some(i) ==> peer_at(self.peers@, room_id, user_id, i as int),
            r is None ==> !self.is_peer(room_id, user_id),
    {
        let mut i: usize = 0;
        while i < self.peers.len()
            invariant
                i <= self.peers@.len(),
                forall|k: int| 0 <= k < i ==> !peer_at(self.peers@, room_id, user_id, k),
            decreases self.peers@.len() - i,
        {
            if self.peers[i].room_id == room_id && self.peers[i].user_id == user_id {
                return Some(i);
            }
            i = i + 1;
        }
        None
    }

    fn publishes_exec(&self, room_id: i32, user_id: i32) -> (r: bool)
        ensures
            r == self.publishes(room_id, user_id),
    {
        let mut i: usize = 0;
        while i < self.peers.len()
            invariant
                i <= self.peers@.len(),
                forall|k: int| 0 <= k < i ==> !(peer_at(self.peers@, room_id, user_id, k) && self.peers@[k].publishing),
            decreases self.peers@.len() - i,
        {
            if self.peers[i].room_id == room_id && self.peers[i].user_id == user_id && self.peers[i].publishing {
                assert(peer_at(self.peers@, room_id, user_id, i as int) && self.peers@[i as int].publishing);
                return true;
            }
            i = i + 1;
        }
        false
    }
}

/// Once no renegotiation is pending in a room, each peer of the room receives
/// exactly the tracks of the other publishing peers, and never its own.
pub proof fn lemma_voice_symmetry(relay: VoiceRelay, room_id: i32)
    requires
        relay.wf(),
        forall|k: int|
            0 <= k < relay.peers@.len() && relay.peers@[k].room_id == room_id
                ==> #[trigger] relay.peers@[k].pending@.len() == 0,
    ensures
        forall|k: int, o: i32|
            0 <= k < relay.peers@.len() && relay.peers@[k].room_id == room_id ==> (
            #[trigger] relay.peers@[k].received@.contains(o) <==> (o != relay.peers@[k].user_id
                && relay.publishes(room_id, o))),
{
    assert forall|k: int, o: i32|
        0 <= k < relay.peers@.len() && relay.peers@[k].room_id == room_id implies (
        #[trigger] relay.peers@[k].received@.contains(o) <==> (o != relay.peers@[k].user_id
            && relay.publishes(room_id, o))) by {
        assert(peer_fact(relay.peers@, k, o));
        assert(relay.peers@[k].pending@.len() == 0);
    }
}

/// After a peer is gone from a room, no other peer of the room receives its
/// track any longer once the renegotiation queued about it has run.
pub proof fn lemma_voice_cleanup(relay: VoiceRelay, room_id: i32, gone: i32)
    requires
        relay.wf(),
        !relay.is_peer(room_id, gone),
    ensures
        forall|k: int|
            0 <= k < relay.peers@.len() && relay.peers@[k].room_id == room_id
                && !relay.peers@[k].pending@.contains(gone)
                ==> !(#[trigger] relay.peers@[k].received@.contains(gone)),
{
    assert forall|k: int|
        0 <= k < relay.peers@.len() && relay.peers@[k].room_id == room_id
            && !relay.peers@[k].pending@.contains(gone) implies !(
        #[trigger] relay.peers@[k].received@.contains(gone)) by {
        assert(peer_fact(relay.peers@, k, gone));
        if publishes_in(relay.peers@, room_id, gone) {
            let j = choose|j: int| peer_at(relay.peers@, room_id, gone, j) && relay.peers@[j].publishing;
        }
    }
}

} // verus!
