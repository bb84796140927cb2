//! Lobby areas: chat rooms by name that online users drop in and out of.
use vstd::prelude::*;
use crate::notify::NotifyMap;

verus! {

pub struct ScEnterLobbyReq {
    pub area: String,
}

pub struct ScNewLobbyMessage {
    pub text: String,
}

/// How many users are in the area just entered, and how many are online.
#[derive(Clone, Copy, Debug, PartialEq, Eq, Structural)]
pub struct ScLobbyInfo {
    pub lobby_user_count: i32,
    pub online_user_count: i32,
}

/// One area and the users in it, in the order they came.
pub struct LobbyArea {
    pub area: String,
    pub users: Vec<i32>,
}

pub struct Lobby {
    pub areas: Vec<LobbyArea>,
}

pub open spec fn area_view(a: LobbyArea) -> (Seq<char>, Seq<i32>) {
    (a.area@, a.users@)
}

pub open spec fn area_view_fn() -> spec_fn(LobbyArea) -> (Seq<char>, Seq<i32>) {
    |a: LobbyArea| area_view(a)
}

pub open spec fn not_user(user_id: i32) -> spec_fn(i32) -> bool {
    |u: i32| u != user_id
}

/// An area without the user.
pub open spec fn area_without(user_id: i32) -> spec_fn((Seq<char>, Seq<i32>)) -> (
    Seq<char>,
    Seq<i32>,
) {
    |a: (Seq<char>, Seq<i32>)| (a.0, a.1.filter(not_user(user_id)))
}

/// `j` is the first area with this name.
pub open spec fn first_area(v: Seq<(Seq<char>, Seq<i32>)>, name: Seq<char>, j: int) -> bool {
    0 <= j < v.len() && v[j].0 == name && forall|k: int| 0 <= k < j ==> v[k].0 != name
}

/// The other users of each area that holds the user, area after area.
pub open spec fn others_in(v: Seq<(Seq<char>, Seq<i32>)>, user_id: i32) -> Seq<i32>
    decreases v.len(),
{
    if v.len() == 0 {
        Seq::empty()
    } else {
        let last = v.last();
        others_in(v.drop_last(), user_id) + if last.1.contains(user_id) {
            last.1.filter(not_user(user_id))
        } else {
            Seq::empty()
        }
    }
}

/// The areas after the user joined the area named `name`: the first area of
/// that name gains the user, or a new area is opened for the user alone.
pub open spec fn joined(v: Seq<(Seq<char>, Seq<i32>)>, name: Seq<char>, user_id: i32) -> Seq<
    (Seq<char>, Seq<i32>),
> {
    if exists|j: int| first_area(v, name, j) {
        let j = choose|j: int| first_area(v, name, j);
        v.update(j, (name, v[j].1.push(user_id)))
    } else {
        v.push((name, seq![user_id]))
    }
}

/// How many users are in the area named `name` once the user joined it.
pub open spec fn joined_count(v: Seq<(Seq<char>, Seq<i32>)>, name: Seq<char>) -> int {
    if exists|j: int| first_area(v, name, j) {
        let j = choose|j: int| first_area(v, name, j);
        v[j].1.len() + 1int
    } else {
        1
    }
}

fn without(users: &Vec<i32>, user_id: i32) -> (r: Vec<i32>)
    ensures
        r@ == users@.filter(not_user(user_id)),
{
    let mut kept: Vec<i32> = Vec::new();
    let mut i: usize = 0;
    while i < users.len()
        invariant
            i <= users@.len(),
            kept@ == users@.take(i as int).filter(not_user(user_id)),
        decreases users@.len() - i,
    {
        proof {
            users@.lemma_take_succ_push(i as int);
            users@.take(i as int).lemma_filter_push(users@[i as int], not_user(user_id));
        }
        if users[i] != user_id {
            kept.push(users[i]);
        }
        i = i + 1;
    }
    assert(users@.take(users@.len() as int) == users@);
    kept
}

fn contains_user(users: &Vec<i32>, user_id: i32) -> (r: bool)
    ensures
        r == users@.contains(user_id),
{
    let mut i: usize = 0;
    while i < users.len()
        invariant
            i <= users@.len(),
            forall|k: int| 0 <= k < i ==> users@[k] != user_id,
        decreases users@.len() - i,
    {
        if users[i] == user_id {
            return true;
        }
        i = i + 1;
    }
    false
}

impl Lobby {
    pub open spec fn view(&self) -> Seq<(Seq<char>, Seq<i32>)> {
        self.areas@.map_values(area_view_fn())
    }

    pub fn new() -> (r: Lobby)
        ensures
            r.view().len() == 0,
    {
        Lobby { areas: Vec::new() }
    }

    /// Takes the user out of every area.
    pub fn leave_lobby(&mut self, user_id: i32)
        ensures
            final(self).view() == old(self).view().map_values(area_without(user_id)),
    {
        let mut areas: Vec<LobbyArea> = Vec::new();
        let mut i: usize = 0;
        while i < self.areas.len()
            invariant
                i <= self.areas@.len(),
                areas@.map_values(area_view_fn()) == self.view().map_values(
                    area_without(user_id),
                ).take(i as int),
            decreases self.areas@.len() - i,
        {
            let a = LobbyArea { area: self.areas[i].area.clone(), users: without(&self.areas[i].users, user_id) };
            let ghost prev = areas@;
            areas.push(a);
            proof {
                assert(area_view(a) == area_without(user_id)(self.view()[i as int]));
                assert(areas@.map_values(area_view_fn()) =~= prev.map_values(area_view_fn()).push(area_view(a)));
            }
            i = i + 1;
            assert(areas@.map_values(area_view_fn()) =~= self.view().map_values(
                area_without(user_id),
            ).take(i as int));
        }
        assert(areas@.map_values(area_view_fn()) =~= self.view().map_values(
            area_without(user_id),
        ));
        self.areas = areas;
    }

    /// The users who share an area with the user, but the user.
    pub fn get_lobby_other_ids(&self, user_id: i32) -> (r: Vec<i32>)
        ensures
            r@ == others_in(self.view(), user_id),
    {
        let mut ids: Vec<i32> = Vec::new();
        let mut i: usize = 0;
        while i < self.areas.len()
            invariant
                i <= self.areas@.len(),
                ids@ == others_in(self.view().take(i as int), user_id),
            decreases self.areas@.len() - i,
        {
            proof {
                assert(self.view().take(i as int + 1).drop_last() =~= self.view().take(i as int));
            }
            if contains_user(&self.areas[i].users, user_id) {
                let others = without(&self.areas[i].users, user_id);
                let mut k: usize = 0;
                let ghost start = ids@;
                while k < others.len()
                    invariant
                        k <= others@.len(),
                        ids@ == start + others@.take(k as int),
                    decreases others@.len() - k,
                {
                    ids.push(others[k]);
                    k = k + 1;
                    assert(ids@ =~= start + others@.take(k as int));
                }
                assert(others@.take(others@.len() as int) =~= others@);
            } else {
                assert(ids@ =~= ids@ + Seq::<i32>::empty());
            }
            i = i + 1;
        }
        assert(self.view().take(self.areas@.len() as int) =~= self.view());
        ids
    }

    /// Moves the user to the area `req.area` (out of any other), and reports
    /// the area's user count and the online count (never below the former).
    pub fn enter_lobby(&mut self, map: &NotifyMap, user_id: i32, req: ScEnterLobbyReq) -> (r:
        ScLobbyInfo)
        requires
            map.wf(),
            map.sessions@.len() <= i32::MAX,
            forall|k: int| 0 <= k < old(self).view().len() ==> #[trigger] old(self).view()[k].1.len() < i32::MAX,
        ensures
            ({
                let left = old(self).view().map_values(area_without(user_id));
                &&& final(self).view() == joined(left, req.area@, user_id)
                &&& r.lobby_user_count == joined_count(left, req.area@)
                &&& r.online_user_count == (if map.online_ids().len() >= joined_count(left, req.area@) {
                    map.online_ids().len() as int
                } else {
                    joined_count(left, req.area@)
                })
            }),
    {
        self.leave_lobby(user_id);
        let ghost left = self.view();
        proof {
            assert forall|k: int| 0 <= k < left.len() implies #[trigger] left[k].1.len() < i32::MAX by {
                let a = old(self).view()[k].1;
                a.lemma_filter_len(not_user(user_id));
            }
        }
        let count: i32;
        match self.find_area(&req.area) {
            Some(j) => {
                let mut a = self.areas.remove(j);
                a.users.push(user_id);
                count = a.users.len() as i32;
                self.areas.insert(j, a);
                proof {
                    let c = choose|c: int| first_area(left, req.area@, c);
                    if c < j {
                        assert(left[c].0 != req.area@);
                    } else if j < c {
                        assert(left[j as int].0 != req.area@);
                    }
                    assert(self.view() =~= left.update(j as int, (req.area@, left[j as int].1.push(user_id))));
                }
            },
            None => {
                let mut users: Vec<i32> = Vec::new();
                users.push(user_id);
                let ghost name = req.area@;
                self.areas.push(LobbyArea { area: req.area, users });
                count = 1;
                proof {
                    assert(!exists|j: int| first_area(left, name, j));
                    assert(self.view() =~= left.push((name, seq![user_id])));
                }
            },
        }
        let online = map.get_online_count();
        ScLobbyInfo {
            lobby_user_count: count,
            online_user_count: if online >= count { online } else { count },
        }
    }

    fn find_area(&self, name: &String) -> (r: Option<usize>)
        ensures
            r matches Some(j) ==> first_area(self.view(), name@, j as int),
            r is None ==> forall|k: int| 0 <= k < self.view().len() ==> self.view()[k].0 != name@,
    {
        let mut i: usize = 0;
        while i < self.areas.len()
            invariant
                i <= self.areas@.len(),
                forall|k: int| 0 <= k < i ==> self.view()[k].0 != name@,
            decreases self.areas@.len() - i,
        {
            if self.areas[i].area == *name {
                return Some(i);
            }
            i = i + 1;
        }
        None
    }
}

} // verus!
