use vstd::prelude::*;

use crate::direction::{inverse, Direction};
use crate::item::Item;
use crate::room::{holds, link_outcome, Room, RoomView};

verus! {

/// Why a change to the world was refused.
#[derive(Clone, Copy, Debug, PartialEq, Eq, Structural)]
pub enum WorldError {
    /// No room goes by that name.
    UnknownRoom,
    /// A room of that name is there already.
    DuplicateRoom,
    /// The link would replace an exit that leads elsewhere.
    ExitOccupied,
    /// The link would join a room to itself, or the room brings exits of its own.
    InvalidLink,
    /// An item of that name is in the world already.
    AlreadyPresent,
}

/// The views of a list of rooms.
pub open spec fn room_views(rooms: Seq<Room>) -> Seq<RoomView> {
    rooms.map_values(|r: Room| r@)
}

/// Whether some room of the list goes by the name.
pub open spec fn named(v: Seq<RoomView>, n: Seq<char>) -> bool {
    exists|i: int| 0 <= i < v.len() && (#[trigger] v[i]).name == n
}

/// The rooms of a list, found by name.
pub open spec fn by_name(v: Seq<RoomView>) -> Map<Seq<char>, RoomView> {
    Map::new(
        |n: Seq<char>| named(v, n),
        |n: Seq<char>| v[choose|i: int| 0 <= i < v.len() && (#[trigger] v[i]).name == n],
    )
}

/// No two rooms of a list share a name.
pub open spec fn unique_names(v: Seq<RoomView>) -> bool {
    forall|i: int, j: int|
        0 <= i < v.len() && 0 <= j < v.len() && i != j ==> (#[trigger] v[i]).name != (#[trigger] v[j]).name
}

/// Every exit leads to a room of the world, and that room leads back by
/// the inverse direction.
pub open spec fn exits_consistent(m: Map<Seq<char>, RoomView>) -> bool {
    forall|a: Seq<char>, d: Direction|
        m.contains_key(a) && #[trigger] m[a].exits.contains_key(d) ==> {
            let b = m[a].exits[d];
            &&& m.contains_key(b)
            &&& m[b].exits.contains_key(inverse(d))
            &&& m[b].exits[inverse(d)] == a
        }
}

/// No item lies in two rooms at once.
pub open spec fn items_apart(m: Map<Seq<char>, RoomView>) -> bool {
    forall|a: Seq<char>, b: Seq<char>, k: Seq<char>|
        #![trigger holds(m[a].items, k), holds(m[b].items, k)]
        m.contains_key(a) && m.contains_key(b) && a != b && holds(m[a].items, k) ==> !holds(
            m[b].items,
            k,
        )
}

/// Whether some room of the world holds an item of the name.
pub open spec fn held_in(m: Map<Seq<char>, RoomView>, k: Seq<char>) -> bool {
    exists|a: Seq<char>| m.contains_key(a) && #[trigger] holds(m[a].items, k)
}

proof fn lemma_by_name_at(v: Seq<RoomView>, i: int)
    requires
        unique_names(v),
        0 <= i < v.len(),
    ensures
        by_name(v).contains_key(v[i].name),
        by_name(v)[v[i].name] == v[i],
{
    let n = v[i].name;
    assert(named(v, n));
    let k = choose|k: int| 0 <= k < v.len() && (#[trigger] v[k]).name == n;
    assert(k == i);
}

proof fn lemma_by_name_keys(v: Seq<RoomView>)
    requires
        unique_names(v),
    ensures
        forall|n: Seq<char>| #[trigger] by_name(v).contains_key(n) ==> by_name(v)[n].name == n,
{
    assert forall|n: Seq<char>| #[trigger] by_name(v).contains_key(n) implies by_name(v)[n].name == n by {
        let i = choose|i: int| 0 <= i < v.len() && (#[trigger] v[i]).name == n;
        lemma_by_name_at(v, i);
    }
}

proof fn lemma_by_name_update(v: Seq<RoomView>, i: int, r: RoomView)
    requires
        unique_names(v),
        0 <= i < v.len(),
        r.name == v[i].name,
    ensures
        unique_names(v.update(i, r)),
        by_name(v.update(i, r)) == by_name(v).insert(r.name, r),
{
    let w = v.update(i, r);
    assert forall|a: int, b: int|
        0 <= a < w.len() && 0 <= b < w.len() && a != b implies (#[trigger] w[a]).name != (
        #[trigger] w[b]).name by {
        assert(v[a].name != v[b].name);
    }
    assert forall|n: Seq<char>| named(w, n) == named(v, n) by {
        if named(w, n) {
            let k = choose|k: int| 0 <= k < w.len() && (#[trigger] w[k]).name == n;
            assert(v[k].name == n);
        }
        if named(v, n) {
            let k = choose|k: int| 0 <= k < v.len() && (#[trigger] v[k]).name == n;
            assert(w[k].name == n);
        }
    }
    assert forall|n: Seq<char>| #[trigger] by_name(w).contains_key(n) implies by_name(w)[n] == by_name(v).insert(r.name, r)[n] by {
        let k = choose|k: int| 0 <= k < w.len() && (#[trigger] w[k]).name == n;
        lemma_by_name_at(w, k);
        lemma_by_name_at(v, k);
    }
    assert(by_name(w) =~= by_name(v).insert(r.name, r));
}

proof fn lemma_by_name_push(v: Seq<RoomView>, r: RoomView)
    requires
        unique_names(v),
        !named(v, r.name),
    ensures
        unique_names(v.push(r)),
        by_name(v.push(r)) == by_name(v).insert(r.name, r),
{
    let w = v.push(r);
    assert forall|a: int, b: int|
        0 <= a < w.len() && 0 <= b < w.len() && a != b implies (#[trigger] w[a]).name != (
        #[trigger] w[b]).name by {
        if a == v.len() {
            assert(!(v[b].name == r.name));
        } else if b == v.len() {
            assert(!(v[a].name == r.name));
        } else {
            assert(v[a].name != v[b].name);
        }
    }
    assert forall|n: Seq<char>| named(w, n) == (named(v, n) || n == r.name) by {
        if named(w, n) {
            let k = choose|k: int| 0 <= k < w.len() && (#[trigger] w[k]).name == n;
            if k < v.len() {
                assert(v[k].name == n);
            }
        }
        if named(v, n) {
            let k = choose|k: int| 0 <= k < v.len() && (#[trigger] v[k]).name == n;
            assert(w[k].name == n);
        }
        if n == r.name {
            assert(w[v.len() as int].name == n);
        }
    }
    assert forall|n: Seq<char>| #[trigger] by_name(w).contains_key(n) implies by_name(w)[n] == by_name(v).insert(r.name, r)[n] by {
        let k = choose|k: int| 0 <= k < w.len() && (#[trigger] w[k]).name == n;
        lemma_by_name_at(w, k);
        if k < v.len() {
            lemma_by_name_at(v, k);
        }
    }
    assert(by_name(w) =~= by_name(v).insert(r.name, r));
}

/// All the rooms of a game, found by name. Rooms name their neighbours
/// rather than hold them, and the world keeps the exits two-way.
#[derive(Debug)]
pub struct World {
    pub(crate) rooms: Vec<Room>,
}

impl View for World {
    type V = Map<Seq<char>, RoomView>;

    open(crate) spec fn view(&self) -> Map<Seq<char>, RoomView> {
        by_name(room_views(self.rooms@))
    }
}

impl World {
    pub open(crate) spec fn wf(&self) -> bool {
        &&& forall|i: int| 0 <= i < self.rooms@.len() ==> (#[trigger] self.rooms@[i]).wf()
        &&& unique_names(room_views(self.rooms@))
        &&& exits_consistent(self@)
        &&& items_apart(self@)
    }

    /// A world without rooms.
    pub fn new() -> (r: World)
        ensures
            r.wf(),
            r@ == Map::<Seq<char>, RoomView>::empty(),
    {
        let r = World { rooms: Vec::new() };
        assert(r@ =~= Map::<Seq<char>, RoomView>::empty());
        r
    }

    /// Where the room of the given name stands in the list.
    fn index_of(&self, name: &str) -> (r: Option<usize>)
        requires
            self.wf(),
        ensures
            r is Some <==> self@.contains_key(name@),
            r is Some ==> r->0 < self.rooms@.len() && self.rooms@[r->0 as int]@.name == name@,
    {
        let key = String::from_str(name);
        let mut i: usize = 0;
        while i < self.rooms.len()
            invariant
                self.wf(),
                key@ == name@,
                i <= self.rooms@.len(),
                forall|j: int| 0 <= j < i ==> self.rooms@[j]@.name != name@,
            decreases self.rooms@.len() - i,
        {
            if self.rooms[i].name == key {
                proof {
                    lemma_by_name_at(room_views(self.rooms@), i as int);
                }
                return Some(i);
            }
            i = i + 1;
        }
        proof {
            if self@.contains_key(name@) {
                let v = room_views(self.rooms@);
                let k = choose|k: int| 0 <= k < v.len() && (#[trigger] v[k]).name == name@;
                assert(self.rooms@[k]@.name == name@);
            }
        }
        None
    }

    /// The room of the given name.
    pub fn room(&self, name: &str) -> (r: Option<&Room>)
        requires
            self.wf(),
        ensures
            r is Some <==> self@.contains_key(name@),
            r is Some ==> r->0@ == self@[name@] && r->0.wf(),
    {
        match self.index_of(name) {
            Some(i) => {
                proof {
                    lemma_by_name_at(room_views(self.rooms@), i as int);
                }
                Some(&self.rooms[i])
            },
            None => None,
        }
    }

    /// The room reached from the named room in the given direction.
    pub fn neighbor(&self, name: &str, direction: Direction) -> (r: Option<&Room>)
        requires
            self.wf(),
        ensures
            r is Some <==> self@.contains_key(name@) && self@[name@].exits.contains_key(direction),
            r is Some ==> r->0@ == self@[self@[name@].exits[direction]] && r->0.wf(),
    {
        match self.room(name) {
            Some(here) => match here.room_for_direction(direction) {
                Some(there) => {
                    let r = self.room(there);
                    r
                },
                None => None,
            },
            None => None,
        }
    }

    /// Whether some room holds an item of the given name, ignoring case.
    pub fn holds_item(&self, name: &str) -> (r: bool)
        requires
            self.wf(),
        ensures
            r == held_in(self@, name@),
    {
        let mut i: usize = 0;
        while i < self.rooms.len()
            invariant
                self.wf(),
                i <= self.rooms@.len(),
                forall|j: int| 0 <= j < i ==> !holds(#[trigger] self.rooms@[j]@.items, name@),
            decreases self.rooms@.len() - i,
        {
            if self.rooms[i].has_item(name) {
                proof {
                    lemma_by_name_at(room_views(self.rooms@), i as int);
                    assert(holds(self@[self.rooms@[i as int]@.name].items, name@));
                }
                return true;
            }
            i = i + 1;
        }
        proof {
            if held_in(self@, name@) {
                let a = choose|a: Seq<char>| self@.contains_key(a) && #[trigger] holds(self@[a].items, name@);
                let v = room_views(self.rooms@);
                let k = choose|k: int| 0 <= k < v.len() && (#[trigger] v[k]).name == a;
                lemma_by_name_at(v, k);
                assert(!holds(self.rooms@[k]@.items, name@));
            }
        }
        false
    }

    /// Adds a room. Fails where a room of that name is there already, where
    /// the room has exits of its own (every exit is made by `link`), or where
    /// one of its items is in the world already; the world is then unchanged.
    pub fn add_room(&mut self, room: Room) -> (r: Result<(), WorldError>)
        requires
            old(self).wf(),
            room.wf(),
        ensures
            final(self).wf(),
            r == add_room_outcome(old(self)@, room@),
            r is Ok ==> final(self)@ == old(self)@.insert(room@.name, room@),
            r is Err ==> final(self)@ == old(self)@,
    {
        if self.index_of(room.name.as_str()).is_some() {
            return Err(WorldError::DuplicateRoom);
        }
        let mut i: usize = 0;
        while i < 8
            invariant
                *self == *old(self),
                self.wf(),
                !self@.contains_key(room@.name),
                room.wf(),
                i <= 8,
                forall|d: Direction| crate::direction::slot_of(d) < i ==> !room@.exits.contains_key(d),
            decreases 8 - i,
        {
            if room.can_move(Direction::at_slot(i)) {
                return Err(WorldError::InvalidLink);
            }
            i = i + 1;
        }
        assert forall|d: Direction| !room@.exits.contains_key(d) by {
            crate::direction::lemma_slot_injective(d, d);
        }
        let mut j: usize = 0;
        while j < room.items.len()
            invariant
                *self == *old(self),
                self.wf(),
                !self@.contains_key(room@.name),
                forall|d: Direction| !room@.exits.contains_key(d),
                room.wf(),
                j <= room.items@.len(),
                forall|k: int| 0 <= k < j ==> !held_in(self@, (#[trigger] room@.items[k]).name),
            decreases room.items@.len() - j,
        {
            if self.holds_item(room.items[j].name.as_str()) {
                assert(held_in(self@, room@.items[j as int].name));
                return Err(WorldError::AlreadyPresent);
            }
            j = j + 1;
        }
        let ghost m = self@;
        let ghost rv = room@;
        let ghost v = room_views(self.rooms@);
        proof {
            if named(v, rv.name) {
                assert(m.contains_key(rv.name));
            }
            lemma_by_name_push(v, rv);
        }
        self.rooms.push(room);
        proof {
            assert(room_views(self.rooms@) =~= v.push(rv));
            let m2 = self@;
            assert(m2 == m.insert(rv.name, rv));
            lemma_by_name_keys(v);
            assert forall|a: Seq<char>, d: Direction|
                m2.contains_key(a) && #[trigger] m2[a].exits.contains_key(d) implies {
                    let b = m2[a].exits[d];
                    &&& m2.contains_key(b)
                    &&& m2[b].exits.contains_key(inverse(d))
                    &&& m2[b].exits[inverse(d)] == a
                } by {
                if a != rv.name {
                    let b = m[a].exits[d];
                    assert(m.contains_key(b));
                }
            }
            assert forall|a: Seq<char>, b: Seq<char>, k: Seq<char>|
                m2.contains_key(a) && m2.contains_key(b) && a != b && holds(m2[a].items, k) implies !holds(
                m2[b].items,
                k,
            ) by {
                if a == rv.name {
                    let x = choose|x: int| 0 <= x < rv.items.len() && crate::text::same_name(#[trigger] rv.items[x].name, k);
                    assert(!held_in(m, rv.items[x].name));
                    if holds(m2[b].items, k) {
                        let y = choose|y: int| 0 <= y < m[b].items.len() && crate::text::same_name(#[trigger] m[b].items[y].name, k);
                        assert(holds(m[b].items, rv.items[x].name));
                    }
                } else if b == rv.name {
                    let x = choose|x: int| 0 <= x < m[a].items.len() && crate::text::same_name(#[trigger] m[a].items[x].name, k);
                    if holds(m2[b].items, k) {
                        let y = choose|y: int| 0 <= y < rv.items.len() && crate::text::same_name(#[trigger] rv.items[y].name, k);
                        assert(!held_in(m, rv.items[y].name));
                        assert(holds(m[a].items, rv.items[y].name));
                    }
                }
            }
            assert forall|i: int| 0 <= i < self.rooms@.len() implies (#[trigger] self.rooms@[i]).wf() by {
                if i < v.len() {
                    assert(old(self).rooms@[i].wf());
                }
            }
        }
        Ok(())
    }

    /// Places an item in the named room. Fails where no room goes by that
    /// name, or where an item of the same name, ignoring case, lies in some
    /// room already; the world is then unchanged.
    pub fn add_item(&mut self, room_name: &str, item: Item) -> (r: Result<(), WorldError>)
        requires
            old(self).wf(),
        ensures
            final(self).wf(),
            r == (if !old(self)@.contains_key(room_name@) {
                Err(WorldError::UnknownRoom)
            } else if held_in(old(self)@, item@.name) {
                Err(WorldError::AlreadyPresent)
            } else {
                Ok(())
            }),
            r is Ok ==> final(self)@ == old(self)@.insert(
                room_name@,
                RoomView { items: old(self)@[room_name@].items.push(item@), ..old(self)@[room_name@] },
            ),
            r is Err ==> final(self)@ == old(self)@,
    {
        let i = match self.index_of(room_name) {
            Some(i) => i,
            None => return Err(WorldError::UnknownRoom),
        };
        if self.holds_item(item.name.as_str()) {
            return Err(WorldError::AlreadyPresent);
        }
        let ghost m = self@;
        let ghost v = room_views(self.rooms@);
        let ghost rooms0 = self.rooms@;
        let ghost it = item@;
        proof {
            lemma_by_name_at(v, i as int);
            assert(!holds(v[i as int].items, it.name));
        }
        let added = self.rooms[i].add_item(item);
        assert(added is Ok);
        proof {
            let r2 = self.rooms@[i as int]@;
            assert(self.rooms@ =~= rooms0.update(i as int, self.rooms@[i as int]));
            assert(room_views(self.rooms@) =~= v.update(i as int, r2));
            lemma_by_name_update(v, i as int, r2);
            lemma_by_name_keys(v);
            assert forall|k: Seq<char>| #[trigger] holds(r2.items, k) implies holds(m[room_name@].items, k) || !held_in(m, k) by {
                let x = choose|x: int| 0 <= x < r2.items.len() && crate::text::same_name(#[trigger] r2.items[x].name, k);
                if x < m[room_name@].items.len() {
                    assert(r2.items[x] == m[room_name@].items[x]);
                } else if held_in(m, k) {
                    let a = choose|a: Seq<char>| m.contains_key(a) && #[trigger] holds(m[a].items, k);
                    let y = choose|y: int| 0 <= y < m[a].items.len() && crate::text::same_name(#[trigger] m[a].items[y].name, k);
                    assert(holds(m[a].items, it.name));
                }
            }
            lemma_items_changed(m, room_name@, r2);
            assert forall|j: int| 0 <= j < self.rooms@.len() implies (#[trigger] self.rooms@[j]).wf() by {
                if j != i {
                    assert(rooms0[j].wf());
                }
            }
        }
        Ok(())
    }

    /// Takes the item of the given name, ignoring case, out of the named
    /// room and hands it over; `None` where there is no such room or item.
    pub fn remove_item(&mut self, room_name: &str, item_name: &str) -> (r: Option<Item>)
        requires
            old(self).wf(),
        ensures
            final(self).wf(),
            r is Some <==> old(self)@.contains_key(room_name@) && holds(
                old(self)@[room_name@].items,
                item_name@,
            ),
            r is None ==> final(self)@ == old(self)@,
            r is Some ==> exists|j: int|
                0 <= j < old(self)@[room_name@].items.len() && crate::text::same_name(
                    #[trigger] old(self)@[room_name@].items[j].name,
                    item_name@,
                ) && r->0@ == old(self)@[room_name@].items[j] && final(self)@ == old(self)@.insert(
                    room_name@,
                    RoomView {
                        items: old(self)@[room_name@].items.remove(j),
                        ..old(self)@[room_name@]
                    },
                ),
    {
        let i = match self.index_of(room_name) {
            Some(i) => i,
            None => return None,
        };
        let ghost m = self@;
        let ghost v = room_views(self.rooms@);
        let ghost rooms0 = self.rooms@;
        proof {
            lemma_by_name_at(v, i as int);
        }
        let taken = self.rooms[i].remove_item(item_name);
        proof {
            let r2 = self.rooms@[i as int]@;
            assert(self.rooms@ =~= rooms0.update(i as int, self.rooms@[i as int]));
            assert(room_views(self.rooms@) =~= v.update(i as int, r2));
            lemma_by_name_update(v, i as int, r2);
            lemma_by_name_keys(v);
            if taken is Some {
                let j = choose|j: int|
                    0 <= j < m[room_name@].items.len() && crate::text::same_name(
                        #[trigger] m[room_name@].items[j].name,
                        item_name@,
                    ) && taken->0@ == m[room_name@].items[j] && r2 == (RoomView {
                        items: m[room_name@].items.remove(j),
                        ..m[room_name@]
                    });
                assert forall|k: Seq<char>| #[trigger] holds(r2.items, k) implies holds(m[room_name@].items, k) || !held_in(m, k) by {
                    let x = choose|x: int| 0 <= x < r2.items.len() && crate::text::same_name(#[trigger] r2.items[x].name, k);
                    let x0 = if x < j { x } else { x + 1 };
                    assert(r2.items[x] == m[room_name@].items[x0]);
                }
            } else {
                assert(r2 == m[room_name@]);
            }
            lemma_items_changed(m, room_name@, r2);
            assert forall|j: int| 0 <= j < self.rooms@.len() implies (#[trigger] self.rooms@[j]).wf() by {
                if j != i {
                    assert(rooms0[j].wf());
                }
            }
            if taken is None {
                assert(self@ =~= m);
            }
        }
        taken
    }

    /// Joins two rooms both ways: `room_a` leads to `room_b` in the given
    /// direction, and `room_b` back to `room_a` in its inverse. Linking a
    /// pair that is linked so already changes nothing and succeeds. On
    /// failure the world is unchanged.
    pub fn link(&mut self, room_a: &str, direction: Direction, room_b: &str) -> (r: Result<(), WorldError>)
        requires
            old(self).wf(),
        ensures
            final(self).wf(),
            r == link_result(old(self)@, room_a@, direction, room_b@),
            r is Ok ==> final(self)@ == linked(old(self)@, room_a@, direction, room_b@),
            r is Err ==> final(self)@ == old(self)@,
    {
        let ia = match self.index_of(room_a) {
            Some(i) => i,
            None => return Err(WorldError::UnknownRoom),
        };
        let ib = match self.index_of(room_b) {
            Some(i) => i,
            None => return Err(WorldError::UnknownRoom),
        };
        let ghost m = self@;
        let ghost v = room_views(self.rooms@);
        proof {
            lemma_by_name_at(v, ia as int);
            lemma_by_name_at(v, ib as int);
        }
        if ia == ib {
            return Err(WorldError::InvalidLink);
        }
        let ghost rooms0 = self.rooms@;
        let mut second = self.rooms.remove(ib);
        let ja: usize = if ia > ib { ia - 1 } else { ia };
        assert(self.rooms@[ja as int] == rooms0[ia as int]);
        assert(rooms0[ia as int].wf());
        let r = Room::link(&mut self.rooms[ja], direction, &mut second);
        let ghost first_after = self.rooms@[ja as int];
        self.rooms.insert(ib, second);
        let ghost rooms1 = rooms0.update(ia as int, first_after).update(ib as int, second);
        assert(self.rooms@ =~= rooms1);
        proof {
            let w1 = v.update(ia as int, first_after@);
            assert(room_views(rooms1) =~= w1.update(ib as int, second@));
            lemma_by_name_update(v, ia as int, first_after@);
            lemma_by_name_update(w1, ib as int, second@);
            lemma_by_name_keys(v);
            assert forall|i: int| 0 <= i < self.rooms@.len() implies (#[trigger] self.rooms@[i]).wf() by {
                if i != ia && i != ib {
                    assert(rooms0[i].wf());
                }
            }
        }
        if r.is_err() {
            proof {
                assert(first_after@ == v[ia as int]);
                assert(second@ == v[ib as int]);
                assert(room_views(rooms1) =~= v);
            }
            return r;
        }
        proof {
            assert(self@ == linked(m, room_a@, direction, room_b@));
            lemma_linked_keeps_invariants(m, room_a@, direction, room_b@);
        }
        r
    }
}

/// The world that a new game starts in: `StartRoom`, and `EastRoom` to the
/// east of it.
pub open spec fn reference_world() -> Map<Seq<char>, RoomView> {
    map![
        "StartRoom"@ => RoomView {
            name: "StartRoom"@,
            description: "A basic room."@,
            items: Seq::empty(),
            exits: map![Direction::East => "EastRoom"@],
        },
        "EastRoom"@ => RoomView {
            name: "EastRoom"@,
            description: "A room to the east of the room you started in."@,
            items: Seq::empty(),
            exits: map![Direction::West => "StartRoom"@],
        },
    ]
}

/// Builds the world that a new game starts in.
pub fn init_rooms() -> (r: World)
    ensures
        r.wf(),
        r@ == reference_world(),
{
    let start_name = "StartRoom";
    let east_name = "EastRoom";
    proof {
        reveal_strlit("StartRoom");
        reveal_strlit("EastRoom");
    }
    assert(start_name@ != east_name@) by {
        assert(start_name@[0] != east_name@[0]);
    }
    let mut ret = World::new();
    let start_room = Room::new(start_name, "A basic room.");
    let east_room = Room::new(east_name, "A room to the east of the room you started in.");
    let added = ret.add_room(start_room);
    assert(added is Ok);
    let added = ret.add_room(east_room);
    assert(added is Ok);
    let linked = ret.link(start_name, Direction::East, east_name);
    assert(linked is Ok);
    assert(ret@ =~~= reference_world());
    ret
}

/// Exits run both ways: in a well-formed world, room `a` leads to room `b`
/// in direction `d` exactly when `b` leads to `a` in the inverse of `d`.
/// Every world built by `new`, `add_room`, `link`, `add_item` and
/// `remove_item` is well-formed.
pub proof fn lemma_exits_symmetric(w: &World, a: Seq<char>, d: Direction, b: Seq<char>)
    requires
        w.wf(),
        w@.contains_key(a),
        w@.contains_key(b),
    ensures
        (w@[a].exits.contains_key(d) && w@[a].exits[d] == b) <==> (w@[b].exits.contains_key(inverse(d))
            && w@[b].exits[inverse(d)] == a),
{
    crate::direction::lemma_inverse_involution(d);
    if w@[b].exits.contains_key(inverse(d)) && w@[b].exits[inverse(d)] == a {
        assert(w@[b].exits.contains_key(inverse(d)));
    }
}

/// Each room of a world is found under its own name, and holds no two
/// items of one name.
pub proof fn lemma_keys_are_names(w: &World)
    requires
        w.wf(),
    ensures
        forall|n: Seq<char>| #[trigger] w@.contains_key(n) ==> w@[n].name == n,
        forall|n: Seq<char>| #[trigger] w@.contains_key(n) ==> crate::room::names_distinct(w@[n].items),
{
    let v = room_views(w.rooms@);
    lemma_by_name_keys(v);
    assert forall|n: Seq<char>| #[trigger] w@.contains_key(n) implies crate::room::names_distinct(w@[n].items) by {
        let i = choose|i: int| 0 <= i < v.len() && (#[trigger] v[i]).name == n;
        lemma_by_name_at(v, i);
        assert(w.rooms@[i].wf());
    }
}

/// A room whose exits stay and whose items are either there before or in
/// no room at all keeps the world's invariants.
proof fn lemma_items_changed(m: Map<Seq<char>, RoomView>, n: Seq<char>, r2: RoomView)
    requires
        exits_consistent(m),
        items_apart(m),
        m.contains_key(n),
        r2.exits == m[n].exits,
        forall|k: Seq<char>| #[trigger] holds(r2.items, k) ==> holds(m[n].items, k) || !held_in(m, k),
    ensures
        exits_consistent(m.insert(n, r2)),
        items_apart(m.insert(n, r2)),
{
    let m2 = m.insert(n, r2);
    assert forall|x: Seq<char>, e: Direction|
        m2.contains_key(x) && #[trigger] m2[x].exits.contains_key(e) implies {
            let y = m2[x].exits[e];
            &&& m2.contains_key(y)
            &&& m2[y].exits.contains_key(inverse(e))
            &&& m2[y].exits[inverse(e)] == x
        } by {
        assert(m[x].exits.contains_key(e));
        let y = m[x].exits[e];
        assert(m.contains_key(y));
    }
    assert forall|a: Seq<char>, b: Seq<char>, k: Seq<char>|
        m2.contains_key(a) && m2.contains_key(b) && a != b && holds(m2[a].items, k) implies !holds(
        m2[b].items,
        k,
    ) by {
        if a == n && holds(m2[b].items, k) {
            assert(holds(m[b].items, k));
            if !holds(m[n].items, k) {
                assert(held_in(m, k));
            }
        } else if b == n && holds(m2[b].items, k) {
            assert(holds(m[a].items, k));
            if !holds(m[n].items, k) {
                assert(held_in(m, k));
            }
        }
    }
}

/// Linking two rooms as `link_outcome` allows keeps every exit two-way and
/// every item in one room.
proof fn lemma_linked_keeps_invariants(m: Map<Seq<char>, RoomView>, a: Seq<char>, d: Direction, b: Seq<char>)
    requires
        exits_consistent(m),
        items_apart(m),
        forall|n: Seq<char>| #[trigger] m.contains_key(n) ==> m[n].name == n,
        m.contains_key(a),
        m.contains_key(b),
        link_outcome(m[a], d, m[b]) is Ok,
    ensures
        exits_consistent(linked(m, a, d, b)),
        items_apart(linked(m, a, d, b)),
{
    let m2 = linked(m, a, d, b);
    crate::direction::lemma_inverse_involution(d);
    assert forall|x: Seq<char>, e: Direction|
        m2.contains_key(x) && #[trigger] m2[x].exits.contains_key(e) implies {
            let y = m2[x].exits[e];
            &&& m2.contains_key(y)
            &&& m2[y].exits.contains_key(inverse(e))
            &&& m2[y].exits[inverse(e)] == x
        } by {
        crate::direction::lemma_inverse_involution(e);
        if x == a && e == d {
        } else if x == b && e == inverse(d) {
        } else {
            let y = m[x].exits[e];
            assert(m[x].exits.contains_key(e));
            assert(m.contains_key(y));
            assert(m[y].exits[inverse(e)] == x);
        }
    }
    assert forall|x: Seq<char>| #[trigger] m2.contains_key(x) implies m2[x].items == m[x].items by {}
}

/// What linking two rooms of a world comes to.
pub open spec fn link_result(m: Map<Seq<char>, RoomView>, a: Seq<char>, d: Direction, b: Seq<char>) -> Result<(), WorldError> {
    if !m.contains_key(a) || !m.contains_key(b) {
        Err(WorldError::UnknownRoom)
    } else {
        link_outcome(m[a], d, m[b])
    }
}

/// The world after `a` was joined to `b` in direction `d`, and `b` to `a`
/// in its inverse.
pub open spec fn linked(m: Map<Seq<char>, RoomView>, a: Seq<char>, d: Direction, b: Seq<char>) -> Map<Seq<char>, RoomView> {
    m.insert(a, RoomView { exits: m[a].exits.insert(d, b), ..m[a] }).insert(
        b,
        RoomView { exits: m[b].exits.insert(inverse(d), a), ..m[b] },
    )
}

/// What adding a room comes to.
pub open spec fn add_room_outcome(m: Map<Seq<char>, RoomView>, room: RoomView) -> Result<(), WorldError> {
    if m.contains_key(room.name) {
        Err(WorldError::DuplicateRoom)
    } else if exists|d: Direction| room.exits.contains_key(d) {
        Err(WorldError::InvalidLink)
    } else if exists|j: int| 0 <= j < room.items.len() && held_in(m, (#[trigger] room.items[j]).name) {
        Err(WorldError::AlreadyPresent)
    } else {
        Ok(())
    }
}

} // verus!
