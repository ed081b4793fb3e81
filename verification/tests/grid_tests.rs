use rust_game_common::model::grid::Direction;

#[test]
fn direction_translation_signs() {
    assert_eq!(Direction::North.translation(), (0, -1));
    assert_eq!(Direction::South.translation(), (0, 1));
    assert_eq!(Direction::East.translation(), (1, 0));
    assert_eq!(Direction::West.translation(), (-1, 0));
}

#[test]
fn reverse_translations_cancel() {
    let pairs = [
        (Direction::North, Direction::South),
        (Direction::East, Direction::West),
    ];
    for (a, b) in pairs {
        let (ax, az) = a.translation();
        let (bx, bz) = b.translation();
        assert_eq!((ax + bx, az + bz), (0, 0));
    }
}
