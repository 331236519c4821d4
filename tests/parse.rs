use adventure::direction::Direction;
use adventure::parse::{parse_command, Command};

#[test]
fn go_with_a_direction() {
    assert_eq!(parse_command("go east"), Command::Go(Direction::East));
    assert_eq!(parse_command("GO East"), Command::Go(Direction::East));
    assert_eq!(parse_command("go in"), Command::Go(Direction::In));
}

#[test]
fn bare_direction_is_go() {
    assert_eq!(parse_command("e"), Command::Go(Direction::East));
    assert_eq!(parse_command("east"), Command::Go(Direction::East));
    assert_eq!(parse_command("Down"), Command::Go(Direction::Down));
    assert_eq!(parse_command("out"), Command::Go(Direction::Out));
}

#[test]
fn blank_lines_are_empty() {
    assert_eq!(parse_command(""), Command::Empty);
    assert_eq!(parse_command("   \t  "), Command::Empty);
    assert_eq!(parse_command("\u{3000}\u{a0}"), Command::Empty);
}

#[test]
fn surrounding_white_space_is_ignored() {
    assert_eq!(parse_command("  go   east  \n"), Command::Go(Direction::East));
    assert_eq!(parse_command("\u{3000}go\teast\u{a0}"), Command::Go(Direction::East));
}

#[test]
fn unknown_verb() {
    assert_eq!(parse_command("frobnicate"), Command::Unknown("frobnicate".to_string()));
    assert_eq!(parse_command("Frob the lamp"), Command::Unknown("frob".to_string()));
}

#[test]
fn wrong_arity_is_bad_args() {
    assert_eq!(parse_command("go"), Command::BadArgs("go".to_string()));
    assert_eq!(parse_command("go east now"), Command::BadArgs("go".to_string()));
    assert_eq!(parse_command("go sideways"), Command::BadArgs("go".to_string()));
    assert_eq!(parse_command("look around"), Command::BadArgs("look".to_string()));
    assert_eq!(parse_command("take"), Command::BadArgs("take".to_string()));
    assert_eq!(parse_command("DROP"), Command::BadArgs("drop".to_string()));
    assert_eq!(parse_command("inventory all"), Command::BadArgs("inventory".to_string()));
    assert_eq!(parse_command("quit now"), Command::BadArgs("quit".to_string()));
    assert_eq!(parse_command("east now"), Command::BadArgs("east".to_string()));
}

#[test]
fn look_and_aliases() {
    assert_eq!(parse_command("look"), Command::Look);
    assert_eq!(parse_command("L"), Command::Look);
}

#[test]
fn take_joins_the_name() {
    assert_eq!(parse_command("take lamp"), Command::Take("lamp".to_string()));
    assert_eq!(parse_command("get  Brass   Lamp "), Command::Take("Brass Lamp".to_string()));
    assert_eq!(parse_command("drop Brass Lamp"), Command::Drop("Brass Lamp".to_string()));
}

#[test]
fn inventory_and_aliases() {
    assert_eq!(parse_command("inventory"), Command::Inventory);
    assert_eq!(parse_command("inv"), Command::Inventory);
    assert_eq!(parse_command("i"), Command::Inventory);
}

#[test]
fn quit_and_exit() {
    assert_eq!(parse_command("quit"), Command::Quit);
    assert_eq!(parse_command("exit"), Command::Quit);
    assert_eq!(parse_command("  QUIT "), Command::Quit);
}
