use adventure::game::{new_game, Game, Player};
use adventure::item::Item;
use adventure::world::WorldError;
use adventure::world::{init_rooms, World};
use adventure::direction::Direction;

fn lines(g: &mut Game, input: &str) -> Vec<String> {
    let r = g.step(Some(input));
    assert!(!r.quit);
    r.lines
}

fn game_with_lamp() -> Game {
    let mut w = init_rooms();
    assert_eq!(w.add_item("StartRoom", Item::new("Lamp", "A brass lamp.")), Ok(()));
    assert_eq!(w.add_item("StartRoom", Item::new("Key", "A small key.")), Ok(()));
    Game::new(w, "StartRoom").unwrap()
}

#[test]
fn look_at_start() {
    let g = new_game();
    assert_eq!(g.look(), vec!["A basic room.", "There is an exit to the east."]);
    assert_eq!(g.player().location(), "StartRoom");
    assert!(g.player().inventory().is_empty());
}

#[test]
fn move_east() {
    let mut g = new_game();
    let out = lines(&mut g, "go east");
    assert_eq!(out[0], "A room to the east of the room you started in.");
    assert_eq!(out[1], "There is an exit to the west.");
    assert_eq!(out.len(), 2);
    assert_eq!(g.player().location(), "EastRoom");
}

#[test]
fn shorthand_and_bare_direction() {
    let mut a = new_game();
    let mut b = new_game();
    let mut c = new_game();
    let long = lines(&mut a, "go east");
    assert_eq!(lines(&mut b, "e"), long);
    assert_eq!(lines(&mut c, "east"), long);
    assert_eq!(b.player().location(), "EastRoom");
    assert_eq!(c.player().location(), "EastRoom");
}

#[test]
fn blocked_move() {
    let mut g = new_game();
    assert_eq!(lines(&mut g, "go north"), vec!["You cannot go that way."]);
    assert_eq!(g.player().location(), "StartRoom");
}

#[test]
fn round_trip() {
    let mut g = new_game();
    lines(&mut g, "go east");
    let back = lines(&mut g, "go west");
    assert_eq!(g.player().location(), "StartRoom");
    assert_eq!(back, vec!["A basic room.", "There is an exit to the east."]);
}

#[test]
fn unknown_verb_narration() {
    let mut g = new_game();
    assert_eq!(lines(&mut g, "frobnicate"), vec!["I do not recognize that command."]);
}

#[test]
fn bad_args_narration() {
    let mut g = new_game();
    assert_eq!(lines(&mut g, "go"), vec!["I don't understand how to go that."]);
    assert_eq!(lines(&mut g, "TAKE"), vec!["I don't understand how to take that."]);
    assert_eq!(g.player().location(), "StartRoom");
}

#[test]
fn quit_exit_and_end_of_input() {
    for input in [Some("quit"), Some("exit"), Some(" Exit "), None] {
        let mut g = new_game();
        let r = g.step(input);
        assert!(r.quit);
        assert!(r.lines.is_empty());
        assert_eq!(g.player().location(), "StartRoom");
    }
}

#[test]
fn empty_line_says_nothing() {
    let mut g = new_game();
    let r = g.step(Some("   "));
    assert!(!r.quit);
    assert!(r.lines.is_empty());
}

#[test]
fn look_lists_exits_in_order_and_items() {
    let mut w = World::new();
    assert_eq!(w.add_room(adventure::room::Room::new("Hub", "The hub.")), Ok(()));
    for (name, d) in [("O", Direction::Out), ("E", Direction::East), ("N", Direction::North), ("U", Direction::Up)] {
        assert_eq!(w.add_room(adventure::room::Room::new(name, "Side.")), Ok(()));
        assert_eq!(w.link("Hub", d, name), Ok(()));
    }
    assert_eq!(w.add_item("Hub", Item::new("Rope", "A rope.")), Ok(()));
    assert_eq!(w.add_item("Hub", Item::new("Coin", "A coin.")), Ok(()));
    let mut g = Game::new(w, "Hub").unwrap();
    assert_eq!(
        lines(&mut g, "look"),
        vec![
            "The hub.",
            "There is an exit to the north.",
            "There is an exit to the east.",
            "There is an exit to the up.",
            "There is an exit to the out.",
            "You see Rope.",
            "You see Coin.",
        ]
    );
}

#[test]
fn take_and_drop() {
    let mut g = game_with_lamp();
    assert_eq!(lines(&mut g, "take lamp"), vec!["Taken."]);
    assert_eq!(lines(&mut g, "look"), vec!["A basic room.", "There is an exit to the east.", "You see Key."]);
    assert_eq!(lines(&mut g, "i"), vec!["You are carrying:", "Lamp"]);
    assert!(!g.world().holds_item("lamp"));
    assert_eq!(lines(&mut g, "e"), vec!["A room to the east of the room you started in.", "There is an exit to the west."]);
    assert_eq!(lines(&mut g, "drop LAMP"), vec!["Dropped."]);
    assert!(g.world().room("EastRoom").unwrap().has_item("lamp"));
    assert_eq!(lines(&mut g, "inventory"), vec!["You are carrying nothing."]);
}

#[test]
fn take_then_drop_restores_the_room() {
    let mut g = game_with_lamp();
    let before = g.look();
    assert_eq!(lines(&mut g, "get Lamp"), vec!["Taken."]);
    assert_eq!(lines(&mut g, "drop lamp"), vec!["Dropped."]);
    let mut after = g.look();
    let mut sorted_before = before.clone();
    sorted_before.sort();
    after.sort();
    assert_eq!(after, sorted_before);
    assert!(g.player().inventory().is_empty());
    assert_eq!(g.player().location(), "StartRoom");
}

#[test]
fn missing_items() {
    let mut g = game_with_lamp();
    assert_eq!(lines(&mut g, "take brass sword"), vec!["There is no brass sword here."]);
    assert_eq!(lines(&mut g, "drop Lamp"), vec!["You are not carrying Lamp."]);
    assert_eq!(lines(&mut g, "inv"), vec!["You are carrying nothing."]);
}

#[test]
fn unknown_start_room() {
    let r = Game::new(init_rooms(), "Nowhere");
    assert_eq!(r.err(), Some(WorldError::UnknownRoom));
}

#[test]
fn player_moves_only_to_known_rooms() {
    let mut w = init_rooms();
    assert_eq!(w.add_item("EastRoom", Item::new("Key", "A key.")), Ok(()));
    assert_eq!(Player::new(&w, "Nowhere").err(), Some(WorldError::UnknownRoom));
    let mut p = Player::new(&w, "StartRoom").unwrap();
    assert_eq!(p.move_to(&w, "Nowhere"), Err(WorldError::UnknownRoom));
    assert_eq!(p.location(), "StartRoom");
    assert_eq!(p.move_to(&w, "EastRoom"), Ok(()));
    assert_eq!(p.location(), "EastRoom");
    assert!(p.take(&mut w, "KEY"));
    assert_eq!(p.inventory()[0].name(), "Key");
    assert!(!p.take(&mut w, "key"));
    assert!(p.drop(&mut w, "key"));
    assert!(!p.drop(&mut w, "key"));
    assert!(w.room("EastRoom").unwrap().has_item("Key"));
}
