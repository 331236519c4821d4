use vstd::prelude::*;

use crate::direction::{inverse, slot_of, Direction};
use crate::item::{Item, ItemView};
use crate::text::{chars_of, names_match, same_name};
use crate::world::WorldError;

verus! {

/// Whether some item of a container goes by the name, ignoring case.
pub open spec fn holds(items: Seq<ItemView>, name: Seq<char>) -> bool {
    exists|j: int| 0 <= j < items.len() && same_name(#[trigger] items[j].name, name)
}

/// No two items of a container go by the same name.
pub open spec fn names_distinct(items: Seq<ItemView>) -> bool {
    forall|i: int, j: int|
        0 <= i < items.len() && 0 <= j < items.len() && i != j ==> !same_name(
            #[trigger] items[i].name,
            #[trigger] items[j].name,
        )
}

/// Where the first item of the given name, ignoring case, stands in a list.
pub fn find_item(items: &[Item], name: &str) -> (r: Option<usize>)
    ensures
        r is Some <==> holds(item_views(items@), name@),
        r is Some ==> r->0 < items@.len() && same_name(items@[r->0 as int]@.name, name@),
{
    let key = chars_of(name);
    let mut j: usize = 0;
    while j < items.len()
        invariant
            key@ == name@,
            j <= items@.len(),
            forall|k: int| 0 <= k < j ==> !same_name(#[trigger] item_views(items@)[k].name, name@),
        decreases items@.len() - j,
    {
        let here = chars_of(items[j].name.as_str());
        if names_match(&here, &key) {
            assert(same_name(item_views(items@)[j as int].name, name@));
            return Some(j);
        }
        j = j + 1;
    }
    None
}

/// What a room is to the rules.
pub struct RoomView {
    pub name: Seq<char>,
    pub description: Seq<char>,
    /// The items that lie here, in the order in which they came.
    pub items: Seq<ItemView>,
    /// The name of the room that each exit leads to.
    pub exits: Map<Direction, Seq<char>>,
}

/// The views of the items of a list.
pub open spec fn item_views(items: Seq<Item>) -> Seq<ItemView> {
    items.map_values(|it: Item| it@)
}

/// A named location with the items that lie in it and at most one exit in
/// each direction. An exit holds the name of the room it leads to.
#[derive(Debug)]
pub struct Room {
    pub(crate) name: String,
    pub(crate) description: String,
    pub(crate) items: Vec<Item>,
    /// One place per direction, in the order given by `slot_of`.
    pub(crate) exits: Vec<Option<String>>,
}

impl View for Room {
    type V = RoomView;

    open(crate) spec fn view(&self) -> RoomView {
        RoomView {
            name: self.name@,
            description: self.description@,
            items: item_views(self.items@),
            exits: Map::new(
                |d: Direction| self.exits@[slot_of(d) as int] is Some,
                |d: Direction| self.exits@[slot_of(d) as int]->0@,
            ),
        }
    }
}

impl Room {
    pub open(crate) spec fn wf(&self) -> bool {
        &&& self.exits@.len() == 8
        &&& self.name@.len() > 0
        &&& names_distinct(self@.items)
    }

    pub fn new(name: &str, description: &str) -> (r: Room)
        requires
            name@.len() > 0,
        ensures
            r.wf(),
            r@.name == name@,
            r@.description == description@,
            r@.items == Seq::<ItemView>::empty(),
            r@.exits == Map::<Direction, Seq<char>>::empty(),
    {
        let mut exits: Vec<Option<String>> = Vec::new();
        let mut i: usize = 0;
        while i < 8
            invariant
                i <= 8,
                exits@.len() == i,
                forall|j: int| 0 <= j < i ==> exits@[j] is None,
            decreases 8 - i,
        {
            exits.push(None);
            i = i + 1;
        }
        let r = Room {
            name: String::from_str(name),
            description: String::from_str(description),
            items: Vec::new(),
            exits,
        };
        assert(r@.items =~= Seq::<ItemView>::empty());
        assert(r@.exits =~= Map::<Direction, Seq<char>>::empty());
        r
    }

    pub fn name(&self) -> (r: &str)
        ensures
            r@ == self@.name,
    {
        self.name.as_str()
    }

    pub fn description(&self) -> (r: &str)
        ensures
            r@ == self@.description,
    {
        self.description.as_str()
    }

    /// The items that lie here, in the order in which they came.
    pub fn items(&self) -> (r: &[Item])
        ensures
            item_views(r@) == self@.items,
    {
        self.items.as_slice()
    }

    /// Whether an item of the given name lies here, ignoring case.
    pub fn has_item(&self, name: &str) -> (r: bool)
        ensures
            r == holds(self@.items, name@),
    {
        let key = chars_of(name);
        let mut j: usize = 0;
        while j < self.items.len()
            invariant
                key@ == name@,
                j <= self.items@.len(),
                forall|k: int| 0 <= k < j ==> !same_name(#[trigger] self@.items[k].name, name@),
            decreases self.items@.len() - j,
        {
            let here = chars_of(self.items[j].name.as_str());
            if names_match(&here, &key) {
                assert(same_name(self@.items[j as int].name, name@));
                return true;
            }
            j = j + 1;
        }
        false
    }

    /// Places an item here. Fails where an item of the same name, ignoring
    /// case, lies here already; the room is then unchanged.
    pub fn add_item(&mut self, item: Item) -> (r: Result<(), AlreadyPresent>)
        requires
            old(self).wf(),
        ensures
            final(self).wf(),
            r is Err <==> holds(old(self)@.items, item@.name),
            r is Ok ==> final(self)@ == (RoomView { items: old(self)@.items.push(item@), ..old(self)@ }),
            r is Err ==> final(self)@ == old(self)@,
    {
        if self.has_item(item.name.as_str()) {
            return Err(AlreadyPresent);
        }
        let ghost before = self@;
        self.items.push(item);
        assert(self@.items =~= before.items.push(item@));
        assert forall|i: int, j: int|
            0 <= i < self@.items.len() && 0 <= j < self@.items.len() && i != j implies !same_name(
            #[trigger] self@.items[i].name,
            #[trigger] self@.items[j].name,
        ) by {
            if i == before.items.len() as int {
                assert(!same_name(before.items[j].name, item@.name));
            } else if j == before.items.len() as int {
                assert(!same_name(before.items[i].name, item@.name));
            }
        }
        assert(self@.exits =~= before.exits);
        Ok(())
    }

    /// Takes away the item of the given name, ignoring case, and hands it
    /// over; `None` where no such item lies here.
    pub fn remove_item(&mut self, name: &str) -> (r: Option<Item>)
        requires
            old(self).wf(),
        ensures
            final(self).wf(),
            r is Some <==> holds(old(self)@.items, name@),
            r is None ==> final(self)@ == old(self)@,
            r is Some ==> exists|j: int|
                0 <= j < old(self)@.items.len() && same_name(
                    #[trigger] old(self)@.items[j].name,
                    name@,
                ) && r->0@ == old(self)@.items[j] && final(self)@ == (RoomView {
                    items: old(self)@.items.remove(j),
                    ..old(self)@
                }),
    {
        let key = chars_of(name);
        let mut j: usize = 0;
        while j < self.items.len()
            invariant
                key@ == name@,
                *self == *old(self),
                self.wf(),
                j <= self.items@.len(),
                forall|k: int| 0 <= k < j ==> !same_name(#[trigger] self@.items[k].name, name@),
            decreases self.items@.len() - j,
        {
            let here = chars_of(self.items[j].name.as_str());
            if names_match(&here, &key) {
                let ghost before = self@;
                assert(same_name(before.items[j as int].name, name@));
                let it = self.items.remove(j);
                assert(self@.items =~= before.items.remove(j as int));
                assert(self@.exits =~= before.exits);
                assert(it@ == before.items[j as int]);
                assert(holds(before.items, name@));
                assert forall|a: int, b: int|
                    0 <= a < self@.items.len() && 0 <= b < self@.items.len() && a != b implies !same_name(
                    #[trigger] self@.items[a].name,
                    #[trigger] self@.items[b].name,
                ) by {
                    let a0 = if a < j { a } else { a + 1 };
                    let b0 = if b < j { b } else { b + 1 };
                    assert(self@.items[a] == before.items[a0]);
                    assert(self@.items[b] == before.items[b0]);
                    assert(!same_name(before.items[a0].name, before.items[b0].name));
                }
                return Some(it);
            }
            j = j + 1;
        }
        None
    }

    /// Whether there is an exit in the given direction.
    pub fn can_move(&self, direction: Direction) -> (r: bool)
        requires
            self.wf(),
        ensures
            r == self@.exits.contains_key(direction),
    {
        self.exits[direction.slot()].is_some()
    }

    /// The name of the room that the exit in the given direction leads to.
    pub fn room_for_direction(&self, direction: Direction) -> (r: Option<&str>)
        requires
            self.wf(),
        ensures
            r is Some <==> self@.exits.contains_key(direction),
            r is Some ==> r->0@ == self@.exits[direction],
    {
        match &self.exits[direction.slot()] {
            Some(n) => Some(n.as_str()),
            None => None,
        }
    }

    /// Joins two distinct rooms both ways: `first` leads to `second` in the
    /// given direction and `second` back to `first` in its inverse. Where
    /// either exit is already taken by another room, or the rooms share a
    /// name, nothing changes.
    pub(crate) fn link(first: &mut Room, direction_to_second: Direction, second: &mut Room) -> (r:
        Result<(), WorldError>)
        requires
            old(first).wf(),
            old(second).wf(),
        ensures
            final(first).wf(),
            final(second).wf(),
            r == link_outcome(old(first)@, direction_to_second, old(second)@),
            r is Ok ==> final(first)@ == (RoomView {
                exits: old(first)@.exits.insert(direction_to_second, old(second)@.name),
                ..old(first)@
            }) && final(second)@ == (RoomView {
                exits: old(second)@.exits.insert(inverse(direction_to_second), old(first)@.name),
                ..old(second)@
            }),
            r is Err ==> final(first)@ == old(first)@ && final(second)@ == old(second)@,
    {
        if first.name == second.name {
            return Err(WorldError::InvalidLink);
        }
        let back = crate::direction::reverse_direction(direction_to_second);
        let there = direction_to_second.slot();
        let here = back.slot();
        let taken_there = match &first.exits[there] {
            Some(n) => *n != second.name,
            None => false,
        };
        let taken_here = match &second.exits[here] {
            Some(n) => *n != first.name,
            None => false,
        };
        if taken_there || taken_here {
            return Err(WorldError::ExitOccupied);
        }
        let ghost f0 = first@;
        let ghost s0 = second@;
        first.exits[there] = Some(second.name.clone());
        second.exits[here] = Some(first.name.clone());
        proof {
            crate::direction::lemma_slot_injective(direction_to_second, direction_to_second);
            assert(first@.exits =~= f0.exits.insert(direction_to_second, s0.name)) by {
                assert forall|d: Direction| #[trigger] first@.exits.contains_key(d) == f0.exits.insert(direction_to_second, s0.name).contains_key(d) by {
                    crate::direction::lemma_slot_injective(d, direction_to_second);
                }
                assert forall|d: Direction| first@.exits.contains_key(d) implies #[trigger] first@.exits[d] == f0.exits.insert(direction_to_second, s0.name)[d] by {
                    crate::direction::lemma_slot_injective(d, direction_to_second);
                }
            }
            assert(second@.exits =~= s0.exits.insert(back, f0.name)) by {
                assert forall|d: Direction| #[trigger] second@.exits.contains_key(d) == s0.exits.insert(back, f0.name).contains_key(d) by {
                    crate::direction::lemma_slot_injective(d, back);
                }
                assert forall|d: Direction| second@.exits.contains_key(d) implies #[trigger] second@.exits[d] == s0.exits.insert(back, f0.name)[d] by {
                    crate::direction::lemma_slot_injective(d, back);
                }
            }
        }
        Ok(())
    }
}

/// What linking two rooms comes to: a self-loop is refused, and so is an
/// exit that already leads elsewhere on either side.
pub open spec fn link_outcome(first: RoomView, d: Direction, second: RoomView) -> Result<(), WorldError> {
    if first.name == second.name {
        Err(WorldError::InvalidLink)
    } else if (first.exits.contains_key(d) && first.exits[d] != second.name) || (second.exits.contains_key(inverse(d)) && second.exits[inverse(d)] != first.name) {
        Err(WorldError::ExitOccupied)
    } else {
        Ok(())
    }
}

/// An item of that name is already in the container.
#[derive(Clone, Copy, Debug, PartialEq, Eq, Structural)]
pub struct AlreadyPresent;

} // verus!
