use maze::controls::{button_update, keyboard_direction, steer};
use maze::maze::remove_walls_between_positions;
use maze::player::{can_move, decide_move, wall_in_direction, Direction, MoveDecision};
use maze::tile::{Tile, TileColor, Wall};
use maze::utils::Vec2d;

fn corridor() -> Vec2d<Tile> {
    // Three cells in a row; (0,0) and (1,0) are joined.
    let cells = (0..3).map(|c| Tile::new(c, 0, 0, 0, 8, 8, TileColor::Wall)).collect();
    let mut g = Vec2d::new(cells, 1, 3).unwrap();
    remove_walls_between_positions(&mut g, (0, 0), (1, 0));
    g
}

#[test]
fn walls_for_directions() {
    assert_eq!(wall_in_direction(Direction::Up), Some(Wall::Top));
    assert_eq!(wall_in_direction(Direction::Right), Some(Wall::Right));
    assert_eq!(wall_in_direction(Direction::Down), Some(Wall::Bottom));
    assert_eq!(wall_in_direction(Direction::Left), Some(Wall::Left));
    assert_eq!(wall_in_direction(Direction::Stop), None);
}

#[test]
fn can_move_only_through_open_sides() {
    let g = corridor();
    assert!(can_move(&g, (0, 0), Direction::Right));
    assert!(!can_move(&g, (0, 0), Direction::Left));
    assert!(!can_move(&g, (0, 0), Direction::Up));
    assert!(can_move(&g, (1, 0), Direction::Left));
    assert!(!can_move(&g, (1, 0), Direction::Right));
    assert!(can_move(&g, (2, 0), Direction::Stop));
}

#[test]
fn decide_move_outcomes() {
    let mut g = corridor();
    assert_eq!(decide_move(&g, (0, 0), Direction::Stop, (0, 0)), MoveDecision::Idle);
    assert_eq!(decide_move(&g, (0, 0), Direction::Up, (0, 0)), MoveDecision::Blocked);
    assert_eq!(
        decide_move(&g, (0, 0), Direction::Right, (0, 0)),
        MoveDecision::Advance { col: 0, row: 0 }
    );
    assert_eq!(
        decide_move(&g, (0, 0), Direction::Right, (1, 0)),
        MoveDecision::Advance { col: 1, row: 0 }
    );
    // A target off the grid keeps the token on its tile.
    assert_eq!(
        decide_move(&g, (1, 0), Direction::Left, (7, 0)),
        MoveDecision::Advance { col: 1, row: 0 }
    );
    g.index_mut(1, 0).exit = true;
    assert_eq!(decide_move(&g, (1, 0), Direction::Up, (1, 0)), MoveDecision::Exit);
}

#[test]
fn button_reports() {
    assert_eq!(button_update(false, true, true, Direction::Up), (true, Some(Direction::Up)));
    assert_eq!(button_update(true, true, false, Direction::Up), (false, Some(Direction::Stop)));
    assert_eq!(button_update(false, true, false, Direction::Up), (false, None));
    assert_eq!(button_update(true, false, false, Direction::Left), (false, Some(Direction::Stop)));
    assert_eq!(button_update(true, false, true, Direction::Left), (true, None));
    assert_eq!(button_update(false, false, true, Direction::Left), (false, None));
}

#[test]
fn keyboard_priority() {
    assert_eq!(keyboard_direction(true, true, true, true), Some(Direction::Up));
    assert_eq!(keyboard_direction(false, true, true, false), Some(Direction::Right));
    assert_eq!(keyboard_direction(false, false, true, true), Some(Direction::Down));
    assert_eq!(keyboard_direction(false, false, false, true), Some(Direction::Left));
    assert_eq!(keyboard_direction(false, false, false, false), None);
}

#[test]
fn steer_combines_buttons_and_keys() {
    let events = vec![Some(Direction::Down), None, Some(Direction::Stop)];
    assert_eq!(steer(Direction::Up, &events, false, false, false, false), Direction::Down);
    assert_eq!(steer(Direction::Up, &events, false, false, false, true), Direction::Left);
    assert_eq!(steer(Direction::Right, &vec![None, None], false, false, false, false), Direction::Right);
}
