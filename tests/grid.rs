use new_ecs::{Direction, GridPosition};

#[test]
fn manhattan_counts_row_and_column_steps() {
    let a = GridPosition::new(2, 7);
    let b = GridPosition::new(5, 3);
    assert_eq!(a.manhattan(&b), 7);
    assert_eq!(b.manhattan(&a), 7);
    assert_eq!(a.manhattan(&a), 0);
}

#[test]
fn direction_of_a_step() {
    let c = GridPosition::new(4, 4);
    assert_eq!(Direction::get_direction_from_positions(c, GridPosition::new(5, 4)), Direction::South);
    assert_eq!(Direction::get_direction_from_positions(c, GridPosition::new(3, 4)), Direction::North);
    assert_eq!(Direction::get_direction_from_positions(c, GridPosition::new(4, 5)), Direction::East);
    assert_eq!(Direction::get_direction_from_positions(c, GridPosition::new(4, 3)), Direction::West);
}
