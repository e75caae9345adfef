use redstone_circuit::direction::{GlobalDirection, InvalidDirection};
use redstone_circuit::geometry::Position;
use redstone_circuit::graph::{wire_length, wire_positions};

fn pos(x: i32, y: i32, z: i32) -> Position {
    Position { x, y, z }
}

#[test]
fn distance_is_manhattan() {
    assert_eq!(pos(1, 2, 3).distance(pos(-2, 6, 3)), 7);
    assert_eq!(pos(0, 0, 0).distance(pos(0, 0, 0)), 0);
    assert_eq!(pos(i32::MIN, 0, 0).distance(pos(i32::MAX, 0, 0)), u32::MAX as u64);
}

#[test]
fn neighbors_in_axis_order() {
    let n = pos(5, 6, 7).neighbors();
    assert_eq!(
        n,
        vec![pos(6, 6, 7), pos(4, 6, 7), pos(5, 7, 7), pos(5, 5, 7), pos(5, 6, 8), pos(5, 6, 6)]
    );
}

#[test]
fn add_and_to_slice() {
    assert_eq!(pos(1, -2, 3).add(pos(10, 20, -30)), pos(11, 18, -27));
    assert_eq!(pos(4, 5, 6).to_slice(), [4, 5, 6]);
}

#[test]
fn parse_compass_names() {
    assert_eq!(GlobalDirection::parse("south"), Ok(GlobalDirection::South));
    assert_eq!(GlobalDirection::parse("North"), Ok(GlobalDirection::North));
    assert_eq!(GlobalDirection::parse("west"), Ok(GlobalDirection::West));
    assert_eq!(GlobalDirection::parse("East"), Ok(GlobalDirection::East));
    assert_eq!(GlobalDirection::parse("up"), Err(InvalidDirection));
    assert_eq!(GlobalDirection::parse("SOUTH"), Err(InvalidDirection));
    assert_eq!(GlobalDirection::parse(""), Err(InvalidDirection));
}

#[test]
fn opposite_directions() {
    assert_eq!(GlobalDirection::East.opposite(), GlobalDirection::West);
    assert_eq!(GlobalDirection::Up.opposite(), GlobalDirection::Down);
    assert_eq!(GlobalDirection::of_offset(4), GlobalDirection::South);
}

#[test]
fn straight_wire_positions() {
    let ps = wire_positions(&pos(0, 0, 0), &pos(3, 0, 0));
    assert_eq!(ps, vec![pos(0, 0, 0), pos(1, 0, 0), pos(2, 0, 0), pos(3, 0, 0)]);
    let back = wire_positions(&pos(0, 0, 2), &pos(0, 0, 0));
    assert_eq!(back, vec![pos(0, 0, 2), pos(0, 0, 1), pos(0, 0, 0)]);
}

#[test]
fn diagonal_wire_rounds_towards_start() {
    let ps = wire_positions(&pos(0, 0, 0), &pos(4, 0, -2));
    assert_eq!(ps, vec![pos(0, 0, 0), pos(1, 0, 0), pos(2, 0, -1), pos(3, 0, -1), pos(4, 0, -2)]);
}

#[test]
fn zero_length_wire_has_one_point() {
    assert_eq!(wire_positions(&pos(2, 3, 4), &pos(2, 3, 4)), vec![pos(2, 3, 4)]);
    assert_eq!(wire_length(&pos(2, 3, 4), &pos(2, 3, 4)), 0);
    assert_eq!(wire_length(&pos(0, 0, 0), &pos(3, -4, 5)), 12);
}
