use vstd::prelude::*;

use crate::direction::{direction_at, inverse, word_of, Direction};
use crate::item::{Item, ItemView};
use crate::parse::{command_of_line, parse_command, Command, CommandView};
use crate::room::{find_item, holds, item_views, names_distinct, RoomView};
use crate::text::{chars_of, names_match, same_name};
use crate::world::{exits_consistent, held_in, init_rooms, items_apart, reference_world, World, WorldError};

verus! {

/// What the player is to the rules: where they are, and what they carry.
pub struct PlayerView {
    pub location: Seq<char>,
    pub inventory: Seq<ItemView>,
}

/// The player: the name of the room they are in, and the items they carry.
#[derive(Debug)]
pub struct Player {
    pub(crate) location: String,
    pub(crate) inventory: Vec<Item>,
}

impl View for Player {
    type V = PlayerView;

    open(crate) spec fn view(&self) -> PlayerView {
        PlayerView { location: self.location@, inventory: item_views(self.inventory@) }
    }
}

impl Player {
    /// A player in the named room, carrying nothing. Fails where no room
    /// goes by that name.
    pub fn new(world: &World, start: &str) -> (r: Result<Player, WorldError>)
        requires
            world.wf(),
        ensures
            r is Ok <==> world@.contains_key(start@),
            r is Err ==> r == Err::<Player, WorldError>(WorldError::UnknownRoom),
            r is Ok ==> r->Ok_0@ == (PlayerView { location: start@, inventory: Seq::empty() }),
    {
        if world.room(start).is_none() {
            return Err(WorldError::UnknownRoom);
        }
        let p = Player { location: String::from_str(start), inventory: Vec::new() };
        assert(p@.inventory =~= Seq::<ItemView>::empty());
        Ok(p)
    }

    /// The name of the room the player is in.
    pub fn location(&self) -> (r: &str)
        ensures
            r@ == self@.location,
    {
        self.location.as_str()
    }

    /// The items the player carries, in the order in which they were taken.
    pub fn inventory(&self) -> (r: &[Item])
        ensures
            item_views(r@) == self@.inventory,
    {
        self.inventory.as_slice()
    }

    /// Moves the player to the named room. Fails where no room goes by
    /// that name; the player then stays.
    pub fn move_to(&mut self, world: &World, id: &str) -> (r: Result<(), WorldError>)
        requires
            world.wf(),
        ensures
            r is Ok <==> world@.contains_key(id@),
            r is Err ==> r == Err::<(), WorldError>(WorldError::UnknownRoom) && final(self)@ == old(self)@,
            r is Ok ==> final(self)@ == (PlayerView { location: id@, inventory: old(self)@.inventory }),
    {
        if world.room(id).is_none() {
            return Err(WorldError::UnknownRoom);
        }
        self.location = String::from_str(id);
        Ok(())
    }

    /// Moves the item of the given name, ignoring case, from the room the
    /// player is in to what they carry. Returns whether there was one.
    pub fn take(&mut self, world: &mut World, name: &str) -> (r: bool)
        requires
            old(world).wf(),
        ensures
            final(world).wf(),
            r == (old(world)@.contains_key(old(self)@.location) && holds(
                old(world)@[old(self)@.location].items,
                name@,
            )),
            !r ==> final(world)@ == old(world)@ && final(self)@ == old(self)@,
            r ==> took(
                game_view(old(world)@, old(self)@),
                name@,
                game_view(final(world)@, final(self)@),
            ),
    {
        let ghost w0 = world@;
        let ghost player0 = self@;
        match world.remove_item(self.location.as_str(), name) {
            Some(it) => {
                let ghost inv0 = self@.inventory;
                self.inventory.push(it);
                assert(self@.inventory =~= inv0.push(it@));
                proof {
                    let here = w0[player0.location];
                    let j = choose|j: int|
                        0 <= j < here.items.len() && same_name(#[trigger] here.items[j].name, name@)
                            && it@ == here.items[j] && world@ == w0.insert(
                            player0.location,
                            RoomView { items: here.items.remove(j), ..here },
                        );
                    assert(game_view(world@, self@) == (GameView {
                        world: w0.insert(player0.location, RoomView { items: here.items.remove(j), ..here }),
                        location: player0.location,
                        inventory: player0.inventory.push(here.items[j]),
                    }));
                    let g = game_view(w0, player0);
                    assert(same_name(g.world[g.location].items[j].name, name@));
                    assert(took(game_view(w0, player0), name@, game_view(world@, self@)));
                }
                true
            },
            None => false,
        }
    }

    /// Moves the item of the given name, ignoring case, from what the
    /// player carries to the room they are in. Returns whether they carried
    /// one.
    pub fn drop(&mut self, world: &mut World, name: &str) -> (r: bool)
        requires
            old(world).wf(),
            old(world)@.contains_key(old(self)@.location),
            forall|k: Seq<char>| #[trigger] holds(old(self)@.inventory, k) ==> !held_in(old(world)@, k),
        ensures
            final(world).wf(),
            r == holds(old(self)@.inventory, name@),
            !r ==> final(world)@ == old(world)@ && final(self)@ == old(self)@,
            r ==> dropped(
                game_view(old(world)@, old(self)@),
                name@,
                game_view(final(world)@, final(self)@),
            ),
    {
        match find_item(self.inventory.as_slice(), name) {
            Some(j) => {
                let ghost inv0 = self@.inventory;
                let it = self.inventory.remove(j);
                assert(self@.inventory =~= inv0.remove(j as int));
                assert(it@ == inv0[j as int]);
                assert(holds(inv0, it@.name));
                let ghost w0 = world@;
                let ghost x = it@;
                let placed = world.add_item(self.location.as_str(), it);
                assert(placed is Ok);
                proof {
                    let here = w0[self@.location];
                    assert(game_view(world@, self@) == (GameView {
                        world: w0.insert(self@.location, RoomView { items: here.items.push(inv0[j as int]), ..here }),
                        location: self@.location,
                        inventory: inv0.remove(j as int),
                    }));
                    let g = game_view(w0, PlayerView { location: self@.location, inventory: inv0 });
                    assert(same_name(g.inventory[j as int].name, name@));
                    assert(dropped(g, name@, game_view(world@, self@)));
                }
                true
            },
            None => false,
        }
    }
}

/// A whole game to the rules: the rooms, and the player among them.
pub struct GameView {
    pub world: Map<Seq<char>, RoomView>,
    pub location: Seq<char>,
    pub inventory: Seq<ItemView>,
}

/// What holds of a game at every step: the player stands in a room of the
/// world, exits are two-way, each room is found under its own name, and
/// every item is in one place only.
pub open spec fn game_inv(g: GameView) -> bool {
    &&& exits_consistent(g.world)
    &&& items_apart(g.world)
    &&& forall|n: Seq<char>| #[trigger] g.world.contains_key(n) ==> g.world[n].name == n
    &&& forall|n: Seq<char>| #[trigger] g.world.contains_key(n) ==> names_distinct(g.world[n].items)
    &&& g.world.contains_key(g.location)
    &&& names_distinct(g.inventory)
    &&& forall|k: Seq<char>| #[trigger] holds(g.inventory, k) ==> !held_in(g.world, k)
}

/// The line that tells of an exit.
pub open spec fn exit_line(d: Direction) -> Seq<char> {
    "There is an exit to the "@ + word_of(d) + "."@
}

/// The lines that tell of the exits of a room among the first `k`
/// directions of the listing order.
pub open spec fn exit_lines(r: RoomView, k: nat) -> Seq<Seq<char>>
    decreases k,
{
    if k == 0 {
        Seq::empty()
    } else {
        let d = direction_at((k - 1) as nat);
        if r.exits.contains_key(d) {
            exit_lines(r, (k - 1) as nat).push(exit_line(d))
        } else {
            exit_lines(r, (k - 1) as nat)
        }
    }
}

/// The line that tells of an item in the room.
pub open spec fn item_line(it: ItemView) -> Seq<char> {
    "You see "@ + it.name + "."@
}

/// What the player is told on looking round a room: its description, its
/// exits in the order north, south, east, west, up, down, in, out, and its
/// items in the order in which they came.
pub open spec fn look_lines(r: RoomView) -> Seq<Seq<char>> {
    seq![r.description] + exit_lines(r, 8) + r.items.map_values(|it: ItemView| item_line(it))
}

/// What the player is told on asking what they carry.
pub open spec fn inventory_lines(inv: Seq<ItemView>) -> Seq<Seq<char>> {
    if inv.len() == 0 {
        seq!["You are carrying nothing."@]
    } else {
        seq!["You are carrying:"@] + inv.map_values(|it: ItemView| it.name)
    }
}

/// A game seen as the world and the player in it.
pub open spec fn game_view(w: Map<Seq<char>, RoomView>, p: PlayerView) -> GameView {
    GameView { world: w, location: p.location, inventory: p.inventory }
}

/// `g2` is `g` after the player took the item of name `n` from the room
/// they are in.
pub open spec fn took(g: GameView, n: Seq<char>, g2: GameView) -> bool {
    let here = g.world[g.location];
    exists|j: int|
        0 <= j < here.items.len() && same_name(#[trigger] here.items[j].name, n) && g2 == (GameView {
            world: g.world.insert(g.location, RoomView { items: here.items.remove(j), ..here }),
            location: g.location,
            inventory: g.inventory.push(here.items[j]),
        })
}

/// `g2` is `g` after the player dropped the carried item of name `n` in
/// the room they are in.
pub open spec fn dropped(g: GameView, n: Seq<char>, g2: GameView) -> bool {
    let here = g.world[g.location];
    exists|j: int|
        0 <= j < g.inventory.len() && same_name(#[trigger] g.inventory[j].name, n) && g2 == (GameView {
            world: g.world.insert(g.location, RoomView { items: here.items.push(g.inventory[j]), ..here }),
            location: g.location,
            inventory: g.inventory.remove(j),
        })
}

/// What carrying out a command does: `g2` is the game after it, and
/// `lines` what the player is told.
pub open spec fn executes(g: GameView, c: CommandView, g2: GameView, lines: Seq<Seq<char>>) -> bool {
    let here = g.world[g.location];
    match c {
        CommandView::Go(d) => if here.exits.contains_key(d) {
            &&& g2 == (GameView { location: here.exits[d], ..g })
            &&& lines == look_lines(g.world[here.exits[d]])
        } else {
            g2 == g && lines == seq!["You cannot go that way."@]
        },
        CommandView::Look => g2 == g && lines == look_lines(here),
        CommandView::Take(n) => if holds(here.items, n) {
            took(g, n, g2) && lines == seq!["Taken."@]
        } else {
            g2 == g && lines == seq!["There is no "@ + n + " here."@]
        },
        CommandView::Drop(n) => if holds(g.inventory, n) {
            dropped(g, n, g2) && lines == seq!["Dropped."@]
        } else {
            g2 == g && lines == seq!["You are not carrying "@ + n + "."@]
        },
        CommandView::Inventory => g2 == g && lines == inventory_lines(g.inventory),
        CommandView::Unknown(_) => g2 == g && lines == seq!["I do not recognize that command."@],
        CommandView::BadArgs(v) => g2 == g && lines == seq!["I don't understand how to "@ + v + " that."@],
        CommandView::Empty => g2 == g && lines == Seq::<Seq<char>>::empty(),
        CommandView::Quit => g2 == g && lines == Seq::<Seq<char>>::empty(),
    }
}

/// Taking an item keeps every item in one place.
proof fn lemma_took_keeps(g: GameView, n: Seq<char>, g2: GameView)
    requires
        game_inv(g),
        took(g, n, g2),
        exits_consistent(g2.world),
        items_apart(g2.world),
    ensures
        game_inv(g2),
{
    let here = g.world[g.location];
    let j = choose|j: int|
        0 <= j < here.items.len() && same_name(#[trigger] here.items[j].name, n) && g2 == (GameView {
            world: g.world.insert(g.location, RoomView { items: here.items.remove(j), ..here }),
            location: g.location,
            inventory: g.inventory.push(here.items[j]),
        });
    let x = here.items[j];
    let rest = here.items.remove(j);
    assert(holds(here.items, x.name));
    assert(held_in(g.world, x.name));
    assert(!holds(g.inventory, x.name));
    assert forall|i: int| 0 <= i < rest.len() implies (#[trigger] rest[i]) == here.items[if i < j { i } else { i + 1 }] by {}
    assert forall|a: int, b: int|
        0 <= a < g2.inventory.len() && 0 <= b < g2.inventory.len() && a != b implies !same_name(
        #[trigger] g2.inventory[a].name,
        #[trigger] g2.inventory[b].name,
    ) by {
        if a == g.inventory.len() {
            if same_name(x.name, g.inventory[b].name) {
                assert(holds(g.inventory, x.name));
            }
        } else if b == g.inventory.len() {
            if same_name(x.name, g.inventory[a].name) {
                assert(holds(g.inventory, x.name));
            }
        }
    }
    assert forall|k: Seq<char>| #[trigger] holds(g2.inventory, k) implies !held_in(g2.world, k) by {
        let y = choose|y: int| 0 <= y < g2.inventory.len() && same_name(#[trigger] g2.inventory[y].name, k);
        if held_in(g2.world, k) {
            let a = choose|a: Seq<char>| g2.world.contains_key(a) && #[trigger] holds(g2.world[a].items, k);
            let z = choose|z: int| 0 <= z < g2.world[a].items.len() && same_name(#[trigger] g2.world[a].items[z].name, k);
            if y < g.inventory.len() {
                assert(holds(g.inventory, k));
                if a == g.location {
                    assert(rest[z] == here.items[if z < j { z } else { z + 1 }]);
                    assert(holds(here.items, k));
                } else {
                    assert(holds(g.world[a].items, k));
                }
            } else {
                if a == g.location {
                    let z0 = if z < j { z } else { z + 1 };
                    assert(rest[z] == here.items[z0]);
                    assert(same_name(here.items[z0].name, here.items[j].name));
                } else {
                    assert(holds(g.world[a].items, x.name));
                }
            }
        }
    }
    assert forall|m: Seq<char>| #[trigger] g2.world.contains_key(m) implies names_distinct(g2.world[m].items) by {
        if m == g.location {
            assert forall|a: int, b: int|
                0 <= a < rest.len() && 0 <= b < rest.len() && a != b implies !same_name(
                #[trigger] rest[a].name,
                #[trigger] rest[b].name,
            ) by {
                let a0 = if a < j { a } else { a + 1 };
                let b0 = if b < j { b } else { b + 1 };
                assert(rest[a] == here.items[a0]);
                assert(rest[b] == here.items[b0]);
            }
        }
    }
}

/// Dropping an item keeps every item in one place.
proof fn lemma_dropped_keeps(g: GameView, n: Seq<char>, g2: GameView)
    requires
        game_inv(g),
        dropped(g, n, g2),
        exits_consistent(g2.world),
        items_apart(g2.world),
    ensures
        game_inv(g2),
{
    let here = g.world[g.location];
    let j = choose|j: int|
        0 <= j < g.inventory.len() && same_name(#[trigger] g.inventory[j].name, n) && g2 == (GameView {
            world: g.world.insert(g.location, RoomView { items: here.items.push(g.inventory[j]), ..here }),
            location: g.location,
            inventory: g.inventory.remove(j),
        });
    let x = g.inventory[j];
    let rest = g.inventory.remove(j);
    assert(holds(g.inventory, x.name));
    assert(!held_in(g.world, x.name));
    assert(!holds(here.items, x.name));
    assert forall|a: int, b: int|
        0 <= a < rest.len() && 0 <= b < rest.len() && a != b implies !same_name(
        #[trigger] rest[a].name,
        #[trigger] rest[b].name,
    ) by {
        let a0 = if a < j { a } else { a + 1 };
        let b0 = if b < j { b } else { b + 1 };
        assert(rest[a] == g.inventory[a0]);
        assert(rest[b] == g.inventory[b0]);
    }
    assert forall|k: Seq<char>| #[trigger] holds(g2.inventory, k) implies !held_in(g2.world, k) by {
        let y = choose|y: int| 0 <= y < rest.len() && same_name(#[trigger] rest[y].name, k);
        let y0 = if y < j { y } else { y + 1 };
        assert(rest[y] == g.inventory[y0]);
        assert(holds(g.inventory, k));
        if held_in(g2.world, k) {
            let a = choose|a: Seq<char>| g2.world.contains_key(a) && #[trigger] holds(g2.world[a].items, k);
            let z = choose|z: int| 0 <= z < g2.world[a].items.len() && same_name(#[trigger] g2.world[a].items[z].name, k);
            if a == g.location && z == here.items.len() {
                assert(same_name(g.inventory[y0].name, g.inventory[j].name));
            } else {
                assert(holds(g.world[a].items, k));
            }
        }
    }
    assert forall|m: Seq<char>| #[trigger] g2.world.contains_key(m) implies names_distinct(g2.world[m].items) by {
        if m == g.location {
            let its = here.items.push(x);
            assert forall|a: int, b: int|
                0 <= a < its.len() && 0 <= b < its.len() && a != b implies !same_name(
                #[trigger] its[a].name,
                #[trigger] its[b].name,
            ) by {
                if a == here.items.len() && same_name(its[a].name, its[b].name) {
                    assert(holds(here.items, x.name));
                } else if b == here.items.len() && same_name(its[a].name, its[b].name) {
                    assert(holds(here.items, x.name));
                }
            }
        }
    }
}

/// The characters of each line of a list.
pub open spec fn lines_of(v: Seq<String>) -> Seq<Seq<char>> {
    v.map_values(|s: String| s@)
}

/// A running game: the world and the player in it.
#[derive(Debug)]
pub struct Game {
    pub(crate) world: World,
    pub(crate) player: Player,
}

impl View for Game {
    type V = GameView;

    open(crate) spec fn view(&self) -> GameView {
        GameView {
            world: self.world@,
            location: self.player@.location,
            inventory: self.player@.inventory,
        }
    }
}

/// Appends one line of narration.
fn say(lines: &mut Vec<String>, line: String)
    ensures
        lines_of(final(lines)@) == lines_of(old(lines)@).push(line@),
{
    let ghost before = lines@;
    lines.push(line);
    assert(lines_of(lines@) =~= lines_of(before).push(line@));
}

/// Appends the lines that tell of a room.
fn describe(lines: &mut Vec<String>, room: &crate::room::Room)
    requires
        room.wf(),
    ensures
        lines_of(final(lines)@) == lines_of(old(lines)@) + look_lines(room@),
{
    let ghost start = lines_of(lines@);
    say(lines, String::from_str(room.description()));
    let mut k: usize = 0;
    while k < 8
        invariant
            room.wf(),
            k <= 8,
            lines_of(lines@) == start + seq![room@.description] + exit_lines(room@, k as nat),
        decreases 8 - k,
    {
        let d = Direction::at_slot(k);
        if room.can_move(d) {
            let mut s = String::from_str("There is an exit to the ");
            s.append(d.word());
            s.append(".");
            say(lines, s);
        }
        k = k + 1;
        assert(lines_of(lines@) =~= start + seq![room@.description] + exit_lines(room@, k as nat));
    }
    let items = room.items();
    let mut j: usize = 0;
    while j < items.len()
        invariant
            room.wf(),
            item_views(items@) == room@.items,
            j <= items@.len(),
            lines_of(lines@) == start + seq![room@.description] + exit_lines(room@, 8)
                + room@.items.take(j as int).map_values(|it: ItemView| item_line(it)),
        decreases items@.len() - j,
    {
        let mut s = String::from_str("You see ");
        s.append(items[j].name());
        s.append(".");
        say(lines, s);
        j = j + 1;
        assert(room@.items.take(j as int).map_values(|it: ItemView| item_line(it)) =~= room@.items.take(
            j - 1,
        ).map_values(|it: ItemView| item_line(it)).push(item_line(room@.items[j - 1])));
        assert(lines_of(lines@) =~= start + seq![room@.description] + exit_lines(room@, 8)
            + room@.items.take(j as int).map_values(|it: ItemView| item_line(it)));
    }
    assert(room@.items.take(j as int) =~= room@.items);
    assert(lines_of(lines@) =~= lines_of(old(lines)@) + look_lines(room@));
}

impl Game {
    pub open(crate) spec fn wf(&self) -> bool {
        &&& self.world.wf()
        &&& game_inv(self@)
    }

    /// A game in the given world, with the player in the named room and
    /// carrying nothing. Fails where no room goes by that name.
    pub fn new(world: World, start: &str) -> (r: Result<Game, WorldError>)
        requires
            world.wf(),
        ensures
            r is Err <==> !world@.contains_key(start@),
            r is Err ==> r == Err::<Game, WorldError>(WorldError::UnknownRoom),
            r is Ok ==> r->Ok_0.wf() && r->Ok_0@ == (GameView {
                world: world@,
                location: start@,
                inventory: Seq::empty(),
            }),
    {
        if world.room(start).is_none() {
            return Err(WorldError::UnknownRoom);
        }
        let g = Game {
            world,
            player: Player { location: String::from_str(start), inventory: Vec::new() },
        };
        proof {
            crate::world::lemma_keys_are_names(&g.world);
            assert(g@.inventory =~= Seq::<ItemView>::empty());
        }
        Ok(g)
    }

    /// The rooms of the game.
    pub fn world(&self) -> (r: &World)
        ensures
            r@ == self@.world,
    {
        &self.world
    }

    /// The player of the game.
    pub fn player(&self) -> (r: &Player)
        ensures
            r@.location == self@.location,
            r@.inventory == self@.inventory,
    {
        &self.player
    }

    /// What the player sees of the room they are in.
    pub fn look(&self) -> (r: Vec<String>)
        requires
            self.wf(),
        ensures
            lines_of(r@) == look_lines(self@.world[self@.location]),
    {
        let mut lines: Vec<String> = Vec::new();
        assert(lines_of(lines@) =~= Seq::<Seq<char>>::empty());
        match self.world.room(self.player.location.as_str()) {
            Some(room) => {
                describe(&mut lines, room);
                assert(lines_of(lines@) =~= look_lines(self@.world[self@.location]));
            },
            None => {},
        }
        lines
    }

    /// Carries out one command, as `executes` says, and returns what the
    /// player is told, one line each.
    pub fn execute(&mut self, command: &Command) -> (r: Vec<String>)
        requires
            old(self).wf(),
        ensures
            final(self).wf(),
            executes(old(self)@, command@, final(self)@, lines_of(r@)),
    {
        let ghost g0 = self@;
        let mut lines: Vec<String> = Vec::new();
        assert(lines_of(lines@) =~= Seq::<Seq<char>>::empty());
        proof {
            crate::world::lemma_keys_are_names(&self.world);
        }
        match command {
            Command::Empty => {},
            Command::Quit => {},
            Command::Look => {
                lines = self.look();
            },
            Command::Go(d) => {
                let target: Option<String> = match self.world.room(self.player.location.as_str()) {
                    Some(room) => match room.room_for_direction(*d) {
                        Some(n) => Some(String::from_str(n)),
                        None => None,
                    },
                    None => None,
                };
                match target {
                    Some(t) => {
                        let moved = self.player.move_to(&self.world, t.as_str());
                        assert(moved is Ok);
                        lines = self.look();
                    },
                    None => {
                        say(&mut lines, String::from_str("You cannot go that way."));
                    },
                }
            },
            Command::Take(n) => {
                if self.player.take(&mut self.world, n.as_str()) {
                    proof {
                        crate::world::lemma_keys_are_names(&self.world);
                        lemma_took_keeps(g0, n@, self@);
                    }
                    say(&mut lines, String::from_str("Taken."));
                } else {
                    let mut s = String::from_str("There is no ");
                    s.append(n.as_str());
                    s.append(" here.");
                    say(&mut lines, s);
                }
            },
            Command::Drop(n) => {
                if self.player.drop(&mut self.world, n.as_str()) {
                    proof {
                        lemma_dropped_keeps(g0, n@, self@);
                    }
                    say(&mut lines, String::from_str("Dropped."));
                } else {
                    let mut s = String::from_str("You are not carrying ");
                    s.append(n.as_str());
                    s.append(".");
                    say(&mut lines, s);
                }
            },
            Command::Inventory => {
                let items = self.player.inventory();
                if items.len() == 0 {
                    say(&mut lines, String::from_str("You are carrying nothing."));
                } else {
                    say(&mut lines, String::from_str("You are carrying:"));
                    let mut j: usize = 0;
                    while j < items.len()
                        invariant
                            item_views(items@) == g0.inventory,
                            j <= items@.len(),
                            lines_of(lines@) == seq!["You are carrying:"@] + g0.inventory.take(j as int).map_values(|it: ItemView| it.name),
                        decreases items@.len() - j,
                    {
                        say(&mut lines, String::from_str(items[j].name()));
                        j = j + 1;
                        assert(g0.inventory.take(j as int).map_values(|it: ItemView| it.name) =~= g0.inventory.take(j - 1).map_values(|it: ItemView| it.name).push(g0.inventory[j - 1].name));
                        assert(lines_of(lines@) =~= seq!["You are carrying:"@] + g0.inventory.take(j as int).map_values(|it: ItemView| it.name));
                    }
                    assert(g0.inventory.take(j as int) =~= g0.inventory);
                }
            },
            Command::Unknown(_) => {
                say(&mut lines, String::from_str("I do not recognize that command."));
            },
            Command::BadArgs(v) => {
                let mut s = String::from_str("I don't understand how to ");
                s.append(v.as_str());
                s.append(" that.");
                say(&mut lines, s);
            },
        }
        lines
    }

    /// One turn of the read-eval-print loop: `None` stands for the end of
    /// the input. Every command but `quit` hands control back to the prompt.
    pub fn step(&mut self, input: Option<&str>) -> (r: Reply)
        requires
            old(self).wf(),
        ensures
            final(self).wf(),
            r.quit <==> (input is None || command_of_line(input->0@) is Quit),
            input is None ==> final(self)@ == old(self)@ && r.lines@.len() == 0,
            input is Some ==> executes(
                old(self)@,
                command_of_line(input->0@),
                final(self)@,
                lines_of(r.lines@),
            ),
    {
        match input {
            None => Reply { lines: Vec::new(), quit: true },
            Some(line) => {
                let command = parse_command(line);
                let quit = match command {
                    Command::Quit => true,
                    _ => false,
                };
                let lines = self.execute(&command);
                Reply { lines, quit }
            },
        }
    }
}

/// A new game in the reference world, with the player in `StartRoom`
/// carrying nothing.
pub fn new_game() -> (r: Game)
    ensures
        r.wf(),
        r@ == (GameView { world: reference_world(), location: "StartRoom"@, inventory: Seq::empty() }),
{
    let world = init_rooms();
    proof {
        reveal_strlit("StartRoom");
        reveal_strlit("EastRoom");
        assert("StartRoom"@ != "EastRoom"@) by {
            assert("StartRoom"@[0] != "EastRoom"@[0]);
        }
    }
    let g = Game {
        world,
        player: Player { location: String::from_str("StartRoom"), inventory: Vec::new() },
    };
    proof {
        crate::world::lemma_keys_are_names(&g.world);
        assert(g@.inventory =~= Seq::<ItemView>::empty());
    }
    g
}

/// No two rooms share a name, and no item is in two places at once: not
/// in two rooms, not in a room and in the player's hands, and no container
/// holds two items of one name.
pub proof fn lemma_uniqueness(g: &Game)
    requires
        g.wf(),
    ensures
        forall|a: Seq<char>, b: Seq<char>|
            g@.world.contains_key(a) && g@.world.contains_key(b) && a != b ==> #[trigger] g@.world[a].name
                != #[trigger] g@.world[b].name,
        forall|a: Seq<char>, b: Seq<char>, k: Seq<char>|
            #![trigger holds(g@.world[a].items, k), holds(g@.world[b].items, k)]
            g@.world.contains_key(a) && g@.world.contains_key(b) && a != b && holds(g@.world[a].items, k)
                ==> !holds(g@.world[b].items, k),
        forall|a: Seq<char>, k: Seq<char>|
            g@.world.contains_key(a) && #[trigger] holds(g@.world[a].items, k) ==> !holds(g@.inventory, k),
        forall|a: Seq<char>| #[trigger] g@.world.contains_key(a) ==> names_distinct(g@.world[a].items),
        names_distinct(g@.inventory),
{
}

/// Going back the way one came: where `Go(d)` leads from room A to room B,
/// `Go(inverse(d))` from B succeeds and leads back to A, and nothing else
/// changes on the way.
pub proof fn lemma_move_round_trip(
    g: GameView,
    d: Direction,
    g1: GameView,
    l1: Seq<Seq<char>>,
    g2: GameView,
    l2: Seq<Seq<char>>,
)
    requires
        game_inv(g),
        g.world[g.location].exits.contains_key(d),
        executes(g, CommandView::Go(d), g1, l1),
        executes(g1, CommandView::Go(inverse(d)), g2, l2),
    ensures
        g1.location == g.world[g.location].exits[d],
        g1.world[g1.location].exits.contains_key(inverse(d)),
        g2 == g,
{
}

/// Taking an item and then dropping it in the same room leaves the game as
/// it was, but that the item now comes last among the room's items: the
/// set of items there is the same.
pub proof fn lemma_take_then_drop(
    g: GameView,
    n: Seq<char>,
    g1: GameView,
    l1: Seq<Seq<char>>,
    g2: GameView,
    l2: Seq<Seq<char>>,
)
    requires
        game_inv(g),
        holds(g.world[g.location].items, n),
        executes(g, CommandView::Take(n), g1, l1),
        executes(g1, CommandView::Drop(n), g2, l2),
    ensures
        l1 == seq!["Taken."@],
        l2 == seq!["Dropped."@],
        g2.location == g.location,
        g2.inventory == g.inventory,
        g2.world.dom() == g.world.dom(),
        forall|a: Seq<char>| #[trigger] g.world.contains_key(a) && a != g.location ==> g2.world[a] == g.world[a],
        g2.world[g.location].name == g.world[g.location].name,
        g2.world[g.location].description == g.world[g.location].description,
        g2.world[g.location].exits == g.world[g.location].exits,
        g2.world[g.location].items.to_set() == g.world[g.location].items.to_set(),
{
    let here = g.world[g.location];
    let j = choose|j: int|
        0 <= j < here.items.len() && same_name(#[trigger] here.items[j].name, n) && g1 == (GameView {
            world: g.world.insert(g.location, RoomView { items: here.items.remove(j), ..here }),
            location: g.location,
            inventory: g.inventory.push(here.items[j]),
        });
    let x = here.items[j];
    let rest = here.items.remove(j);
    assert(same_name(here.items[j].name, x.name));
    assert(holds(g.world[g.location].items, x.name));
    assert(held_in(g.world, x.name));
    assert(!holds(g.inventory, x.name));
    assert(g1.inventory[g.inventory.len() as int] == x);
    assert(holds(g1.inventory, n));
    let here1 = g1.world[g1.location];
    let k = choose|k: int|
        0 <= k < g1.inventory.len() && same_name(#[trigger] g1.inventory[k].name, n) && g2 == (GameView {
            world: g1.world.insert(g1.location, RoomView { items: here1.items.push(g1.inventory[k]), ..here1 }),
            location: g1.location,
            inventory: g1.inventory.remove(k),
        });
    if k < g.inventory.len() {
        assert(g1.inventory[k] == g.inventory[k]);
        assert(holds(g.inventory, x.name));
    }
    assert(k == g.inventory.len());
    assert(g2.inventory =~= g.inventory);
    assert(g2.world.dom() =~= g.world.dom());
    let back = rest.push(x);
    assert forall|it: ItemView| back.contains(it) <==> here.items.contains(it) by {
        if back.contains(it) {
            let i = choose|i: int| 0 <= i < back.len() && back[i] == it;
            if i < rest.len() {
                let i0 = if i < j { i } else { i + 1 };
                assert(here.items[i0] == it);
            }
        }
        if here.items.contains(it) {
            let i = choose|i: int| 0 <= i < here.items.len() && here.items[i] == it;
            if i < j {
                assert(back[i] == it);
            } else if i > j {
                assert(back[i - 1] == it);
            } else {
                assert(back[rest.len() as int] == it);
            }
        }
    }
    assert(back.to_set() =~= here.items.to_set());
}

/// What one turn of the game hands back: the lines to print, and whether
/// the session is over.
pub struct Reply {
    pub lines: Vec<String>,
    pub quit: bool,
}

} // verus!
