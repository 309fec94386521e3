use hex_sweeper::player::{eliminate_current, next_turn};
use hex_sweeper::Player;

#[test]
fn new_player_starts_at_zero() {
    let p = Player::new(String::from("one"));
    assert_eq!(p.name, "one");
    assert_eq!(p.score, 0);
}

#[test]
fn add_score_accumulates() {
    let mut p = Player::new(String::from("one"));
    p.add_score(3);
    p.add_score(4);
    assert_eq!(p.score, 7);
}

#[test]
fn next_turn_advances_by_cascade_size() {
    assert_eq!(next_turn(0, 3, 1), 1);
    assert_eq!(next_turn(2, 3, 1), 0);
    assert_eq!(next_turn(2, 3, 5), 1);
    assert_eq!(next_turn(0, 1, 9), 0);
}

#[test]
fn eliminate_moves_current_behind_alive() {
    let mut players = vec![
        Player::new(String::from("a")),
        Player::new(String::from("b")),
        Player::new(String::from("c")),
    ];
    let mut alive: usize = 3;
    let mut current: usize = 1;
    eliminate_current(&mut players, &mut alive, &mut current);
    assert_eq!(alive, 2);
    assert_eq!(current, 1);
    assert_eq!(players[0].name, "a");
    assert_eq!(players[1].name, "c");
    assert_eq!(players[2].name, "b");
}

#[test]
fn eliminate_last_player_leaves_none_alive() {
    let mut players = vec![Player::new(String::from("a"))];
    let mut alive: usize = 1;
    let mut current: usize = 0;
    eliminate_current(&mut players, &mut alive, &mut current);
    assert_eq!(alive, 0);
    assert_eq!(current, 0);
    assert_eq!(players[0].name, "a");
}

#[test]
fn eliminate_wraps_turn_pointer() {
    let mut players = vec![
        Player::new(String::from("a")),
        Player::new(String::from("b")),
        Player::new(String::from("c")),
    ];
    let mut alive: usize = 3;
    let mut current: usize = 2;
    eliminate_current(&mut players, &mut alive, &mut current);
    assert_eq!(alive, 2);
    assert_eq!(current, 0);
    assert_eq!(players[2].name, "c");
}