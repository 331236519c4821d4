use adventure::direction::{reverse_direction, str_to_direction, Direction};

const ALL: [Direction; 8] = [
    Direction::North,
    Direction::South,
    Direction::East,
    Direction::West,
    Direction::Up,
    Direction::Down,
    Direction::In,
    Direction::Out,
];

#[test]
fn inverse_is_an_involution() {
    for d in ALL {
        assert_eq!(reverse_direction(reverse_direction(d)), d);
        assert_ne!(reverse_direction(d), d);
    }
}

#[test]
fn inverse_pairs() {
    assert_eq!(reverse_direction(Direction::East), Direction::West);
    assert_eq!(reverse_direction(Direction::West), Direction::East);
    assert_eq!(reverse_direction(Direction::North), Direction::South);
    assert_eq!(reverse_direction(Direction::South), Direction::North);
    assert_eq!(reverse_direction(Direction::Up), Direction::Down);
    assert_eq!(reverse_direction(Direction::Down), Direction::Up);
    assert_eq!(reverse_direction(Direction::In), Direction::Out);
    assert_eq!(reverse_direction(Direction::Out), Direction::In);
}

#[test]
fn full_words_parse() {
    let words = ["north", "south", "east", "west", "up", "down", "in", "out"];
    for (w, d) in words.iter().zip(ALL) {
        assert_eq!(str_to_direction(w), Some(d));
        assert_eq!(d.word(), *w);
    }
}

#[test]
fn shorthands_parse() {
    assert_eq!(str_to_direction("n"), Some(Direction::North));
    assert_eq!(str_to_direction("s"), Some(Direction::South));
    assert_eq!(str_to_direction("e"), Some(Direction::East));
    assert_eq!(str_to_direction("w"), Some(Direction::West));
    assert_eq!(str_to_direction("u"), Some(Direction::Up));
    assert_eq!(str_to_direction("d"), Some(Direction::Down));
}

#[test]
fn in_and_out_have_no_shorthand() {
    assert_eq!(str_to_direction("i"), None);
    assert_eq!(str_to_direction("o"), None);
}

#[test]
fn direction_case_is_ignored() {
    assert_eq!(str_to_direction("EAST"), Some(Direction::East));
    assert_eq!(str_to_direction("E"), Some(Direction::East));
    assert_eq!(str_to_direction("oUt"), Some(Direction::Out));
}

#[test]
fn other_words_are_no_direction() {
    assert_eq!(str_to_direction(""), None);
    assert_eq!(str_to_direction("sideways"), None);
    assert_eq!(str_to_direction("east "), None);
    assert_eq!(str_to_direction("ea"), None);
}
