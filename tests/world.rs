use adventure::direction::{reverse_direction, Direction};
use adventure::item::Item;
use adventure::room::{AlreadyPresent, Room};
use adventure::world::WorldError;
use adventure::world::{init_rooms, World};

fn three_rooms() -> World {
    let mut w = World::new();
    assert_eq!(w.add_room(Room::new("Hall", "A hall.")), Ok(()));
    assert_eq!(w.add_room(Room::new("Attic", "Dusty.")), Ok(()));
    assert_eq!(w.add_room(Room::new("Cellar", "Damp.")), Ok(()));
    w
}

#[test]
fn reference_world_is_linked_both_ways() {
    let w = init_rooms();
    let start = w.room("StartRoom").unwrap();
    assert_eq!(start.description(), "A basic room.");
    assert_eq!(start.room_for_direction(Direction::East), Some("EastRoom"));
    assert!(!start.can_move(Direction::North));
    let east = w.room("EastRoom").unwrap();
    assert_eq!(east.description(), "A room to the east of the room you started in.");
    assert_eq!(east.room_for_direction(Direction::West), Some("StartRoom"));
    assert_eq!(w.neighbor("StartRoom", Direction::East).unwrap().name(), "EastRoom");
    assert!(w.neighbor("StartRoom", Direction::West).is_none());
    assert!(w.room("Nowhere").is_none());
}

#[test]
fn link_installs_both_exits() {
    let mut w = three_rooms();
    assert_eq!(w.link("Hall", Direction::Up, "Attic"), Ok(()));
    assert_eq!(w.room("Hall").unwrap().room_for_direction(Direction::Up), Some("Attic"));
    assert_eq!(w.room("Attic").unwrap().room_for_direction(Direction::Down), Some("Hall"));
}

#[test]
fn graph_stays_symmetric() {
    let mut w = three_rooms();
    assert_eq!(w.link("Hall", Direction::Up, "Attic"), Ok(()));
    assert_eq!(w.link("Cellar", Direction::Up, "Hall"), Ok(()));
    assert_eq!(w.link("Cellar", Direction::In, "Attic"), Ok(()));
    let names = ["Hall", "Attic", "Cellar"];
    let dirs = [
        Direction::North,
        Direction::South,
        Direction::East,
        Direction::West,
        Direction::Up,
        Direction::Down,
        Direction::In,
        Direction::Out,
    ];
    for a in names {
        for d in dirs {
            if let Some(b) = w.room(a).unwrap().room_for_direction(d) {
                assert_eq!(w.room(b).unwrap().room_for_direction(reverse_direction(d)), Some(a));
            }
        }
    }
}

#[test]
fn linking_again_is_idempotent() {
    let mut w = three_rooms();
    assert_eq!(w.link("Hall", Direction::Up, "Attic"), Ok(()));
    assert_eq!(w.link("Hall", Direction::Up, "Attic"), Ok(()));
    assert_eq!(w.link("Attic", Direction::Down, "Hall"), Ok(()));
}

#[test]
fn occupied_exit_is_refused() {
    let mut w = three_rooms();
    assert_eq!(w.link("Hall", Direction::Up, "Attic"), Ok(()));
    assert_eq!(w.link("Hall", Direction::Up, "Cellar"), Err(WorldError::ExitOccupied));
    assert_eq!(w.link("Cellar", Direction::Up, "Attic"), Err(WorldError::ExitOccupied));
    assert!(!w.room("Cellar").unwrap().can_move(Direction::Down));
    assert!(!w.room("Cellar").unwrap().can_move(Direction::Up));
}

#[test]
fn unknown_room_is_refused() {
    let mut w = three_rooms();
    assert_eq!(w.link("Hall", Direction::Up, "Nowhere"), Err(WorldError::UnknownRoom));
    assert_eq!(w.link("Nowhere", Direction::Up, "Hall"), Err(WorldError::UnknownRoom));
    assert!(!w.room("Hall").unwrap().can_move(Direction::Up));
}

#[test]
fn self_loop_is_refused() {
    let mut w = three_rooms();
    assert_eq!(w.link("Hall", Direction::North, "Hall"), Err(WorldError::InvalidLink));
}

#[test]
fn duplicate_room_is_refused() {
    let mut w = three_rooms();
    assert_eq!(w.add_room(Room::new("Hall", "Another hall.")), Err(WorldError::DuplicateRoom));
    assert_eq!(w.room("Hall").unwrap().description(), "A hall.");
}

#[test]
fn room_item_names_are_unique_ignoring_case() {
    let mut r = Room::new("Hall", "A hall.");
    assert_eq!(r.add_item(Item::new("Lamp", "A brass lamp.")), Ok(()));
    assert_eq!(r.add_item(Item::new("LAMP", "Another lamp.")), Err(AlreadyPresent));
    assert_eq!(r.add_item(Item::new("Key", "A key.")), Ok(()));
    let names: Vec<&str> = r.items().iter().map(|i| i.name()).collect();
    assert_eq!(names, vec!["Lamp", "Key"]);
    assert!(r.has_item("key"));
}

#[test]
fn remove_item_ignores_case() {
    let mut r = Room::new("Hall", "A hall.");
    assert_eq!(r.add_item(Item::new("Lamp", "A brass lamp.")), Ok(()));
    assert!(r.remove_item("sword").is_none());
    let it = r.remove_item("lAMP").unwrap();
    assert_eq!(it.name(), "Lamp");
    assert_eq!(it.description(), "A brass lamp.");
    assert!(r.items().is_empty());
}

#[test]
fn world_items_are_in_one_room_only() {
    let mut w = three_rooms();
    assert_eq!(w.add_item("Hall", Item::new("Lamp", "A lamp.")), Ok(()));
    assert_eq!(w.add_item("Attic", Item::new("lamp", "A lamp.")), Err(WorldError::AlreadyPresent));
    assert_eq!(w.add_item("Nowhere", Item::new("Key", "A key.")), Err(WorldError::UnknownRoom));
    assert!(w.holds_item("LAMP"));
    assert!(!w.holds_item("key"));
    let mut r = Room::new("Study", "Quiet.");
    assert_eq!(r.add_item(Item::new("Lamp", "A lamp.")), Ok(()));
    assert_eq!(w.add_room(r), Err(WorldError::AlreadyPresent));
    assert!(w.room("Study").is_none());
}

#[test]
fn world_remove_item() {
    let mut w = three_rooms();
    assert_eq!(w.add_item("Hall", Item::new("Lamp", "A lamp.")), Ok(()));
    assert!(w.remove_item("Attic", "lamp").is_none());
    assert!(w.remove_item("Nowhere", "lamp").is_none());
    assert_eq!(w.remove_item("Hall", "lamp").unwrap().name(), "Lamp");
    assert!(!w.holds_item("lamp"));
}
