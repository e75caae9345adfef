use mc_schem::{Block, Region};
use redstone_circuit::circuit::{ComponentModelObject, Port};
use redstone_circuit::direction::GlobalDirection;
use redstone_circuit::geometry::Position;
use redstone_circuit::sim::{redstone_propagatable, simulate_component, CalcRecord, SimError};

fn pos(x: i32, y: i32, z: i32) -> Position {
    Position { x, y, z }
}

fn port(name: &str, p: Position) -> Port {
    Port { name: name.to_string(), position: p }
}

fn model(size: [i32; 3], inputs: Vec<Port>, outputs: Vec<Port>) -> ComponentModelObject {
    ComponentModelObject {
        name: "m".to_string(),
        model_type: "component".to_string(),
        nbt: "m.nbt".to_string(),
        size,
        inputs,
        outputs,
    }
}

/// A region of `shape` at the origin, air except for the listed blocks.
fn content(shape: [i32; 3], blocks: &[([i32; 3], &str)]) -> Region {
    let mut region = Region::with_shape(shape);
    for (p, id) in blocks {
        region.set_block(*p, &Block::from_id(id).unwrap()).unwrap();
    }
    region
}

fn level_of(out: &Vec<(String, i32)>, name: &str) -> i32 {
    out.iter().find(|(n, _)| n == name).unwrap().1
}

#[test]
fn adjacent_ports_lose_one_level() {
    let m = model([2, 1, 1], vec![port("in", pos(0, 0, 0))], vec![port("out", pos(1, 0, 0))]);
    let s = content([2, 1, 1], &[([0, 0, 0], "redstone_wire"), ([1, 0, 0], "redstone_wire")]);
    let out = simulate_component(&m, &vec![("in".to_string(), 15)], &s).unwrap();
    assert_eq!(out, vec![("out".to_string(), 14)]);
}

#[test]
fn signal_decays_along_a_line() {
    let m = model([5, 1, 1], vec![port("in", pos(0, 0, 0))], vec![port("far", pos(4, 0, 0)), port("near", pos(1, 0, 0))]);
    let s = content([5, 1, 1], &[]);
    let out = simulate_component(&m, &vec![("in".to_string(), 10)], &s).unwrap();
    assert_eq!(out, vec![("far".to_string(), 6), ("near".to_string(), 9)]);
}

#[test]
fn level_keeps_the_stronger_signal() {
    let m = model([3, 1, 1], vec![port("weak", pos(0, 0, 0)), port("strong", pos(2, 0, 0))], vec![port("mid", pos(1, 0, 0))]);
    let s = content([3, 1, 1], &[]);
    let one_way = simulate_component(&m, &vec![("weak".to_string(), 5), ("strong".to_string(), 15)], &s).unwrap();
    let other_way = simulate_component(&m, &vec![("strong".to_string(), 15), ("weak".to_string(), 5)], &s).unwrap();
    assert_eq!(level_of(&one_way, "mid"), 14);
    assert_eq!(level_of(&other_way, "mid"), 14);
}

#[test]
fn weak_signal_bottoms_out_at_zero() {
    let m = model([4, 1, 1], vec![port("in", pos(0, 0, 0))], vec![port("out", pos(3, 0, 0))]);
    let s = content([4, 1, 1], &[]);
    let out = simulate_component(&m, &vec![("in".to_string(), 1)], &s).unwrap();
    assert_eq!(level_of(&out, "out"), 0);
}

#[test]
fn glass_blocks_the_signal() {
    let m = model([3, 1, 1], vec![port("in", pos(0, 0, 0))], vec![port("out", pos(2, 0, 0))]);
    let s = content([3, 1, 1], &[([1, 0, 0], "glass")]);
    let out = simulate_component(&m, &vec![("in".to_string(), 15)], &s).unwrap();
    assert_eq!(level_of(&out, "out"), 0);
}

#[test]
fn torch_regenerates_full_power() {
    let m = model([4, 1, 1], vec![port("in", pos(0, 0, 0))], vec![port("torch", pos(2, 0, 0)), port("out", pos(3, 0, 0))]);
    let s = content([4, 1, 1], &[([2, 0, 0], "redstone_torch")]);
    let out = simulate_component(&m, &vec![("in".to_string(), 3)], &s).unwrap();
    assert_eq!(level_of(&out, "torch"), 15);
    assert_eq!(level_of(&out, "out"), 14);
}

#[test]
fn repeater_conducts_only_through_its_input_face() {
    let m = model([3, 1, 1], vec![port("in", pos(0, 0, 0))], vec![port("out", pos(2, 0, 0))]);
    let ok = content([3, 1, 1], &[([1, 0, 0], "repeater[facing=west]"), ([2, 0, 0], "glass")]);
    let out = simulate_component(&m, &vec![("in".to_string(), 4)], &ok).unwrap();
    assert_eq!(level_of(&out, "out"), 0);
    let m2 = model([3, 1, 1], vec![port("in", pos(0, 0, 0))], vec![port("rep", pos(1, 0, 0))]);
    let through = simulate_component(&m2, &vec![("in".to_string(), 4)], &ok).unwrap();
    assert_eq!(level_of(&through, "rep"), 15);
    let blocked = content([3, 1, 1], &[([1, 0, 0], "repeater[facing=east]")]);
    let none = simulate_component(&m2, &vec![("in".to_string(), 4)], &blocked).unwrap();
    assert_eq!(level_of(&none, "rep"), 0);
}

#[test]
fn unreached_output_reads_zero() {
    let m = model([3, 1, 1], vec![port("in", pos(0, 0, 0))], vec![port("out", pos(2, 0, 0)), port("outside", pos(9, 9, 9))]);
    let s = content([3, 1, 1], &[([1, 0, 0], "glass")]);
    let out = simulate_component(&m, &vec![], &s).unwrap();
    assert_eq!(out, vec![("out".to_string(), 0), ("outside".to_string(), 0)]);
}

#[test]
fn unknown_input_port_is_an_error() {
    let m = model([2, 1, 1], vec![port("in", pos(0, 0, 0))], vec![port("out", pos(1, 0, 0))]);
    let s = content([2, 1, 1], &[]);
    match simulate_component(&m, &vec![("in".to_string(), 3), ("nope".to_string(), 5)], &s) {
        Err(SimError::UnknownPort(name)) => assert_eq!(name, "nope"),
        other => panic!("unexpected result {:?}", other),
    }
}

#[test]
fn simulation_is_repeatable() {
    let m = model([3, 2, 3], vec![port("a", pos(0, 0, 0)), port("b", pos(2, 0, 2))], vec![port("q", pos(1, 1, 1)), port("r", pos(2, 0, 0))]);
    let s = content([3, 2, 3], &[([1, 0, 1], "glass"), ([1, 1, 0], "redstone_torch")]);
    let inputs = vec![("a".to_string(), 12), ("b".to_string(), 7)];
    let first = simulate_component(&m, &inputs, &s).unwrap();
    let second = simulate_component(&m, &inputs, &s).unwrap();
    assert_eq!(first, second);
}

#[test]
fn port_outside_the_content_keeps_its_level() {
    let m = model([1, 1, 1], vec![port("in", pos(5, 0, 0))], vec![port("out", pos(5, 0, 0)), port("next", pos(6, 0, 0))]);
    let s = content([1, 1, 1], &[]);
    let out = simulate_component(&m, &vec![("in".to_string(), 7)], &s).unwrap();
    assert_eq!(out, vec![("out".to_string(), 7), ("next".to_string(), 0)]);
}

#[test]
fn offset_region_is_read_at_its_place() {
    let m = model([3, 1, 1], vec![port("in", pos(10, 0, 0))], vec![port("out", pos(12, 0, 0))]);
    let mut s = content([3, 1, 1], &[]);
    s.offset = [10, 0, 0];
    let out = simulate_component(&m, &vec![("in".to_string(), 9)], &s).unwrap();
    assert_eq!(out, vec![("out".to_string(), 7)]);
}

#[test]
fn propagatable_rules() {
    assert!(redstone_propagatable(&"stone".to_string(), &None, GlobalDirection::East));
    assert!(!redstone_propagatable(&"white_stained_glass".to_string(), &None, GlobalDirection::East));
    assert!(redstone_propagatable(&"repeater".to_string(), &Some("west".to_string()), GlobalDirection::East));
    assert!(!redstone_propagatable(&"repeater".to_string(), &Some("east".to_string()), GlobalDirection::East));
    assert!(!redstone_propagatable(&"repeater".to_string(), &None, GlobalDirection::East));
    assert!(!redstone_propagatable(&"glass_repeater".to_string(), &Some("west".to_string()), GlobalDirection::East));
}

#[test]
fn calc_record_flags() {
    let mut r = CalcRecord::new();
    assert!(!r.get_direct_result(GlobalDirection::Up));
    r.set_direct_result(GlobalDirection::Up, true);
    assert!(r.get_direct_result(GlobalDirection::Up));
    assert!(!r.get_direct_result(GlobalDirection::Down));
    r.set_direct_result(GlobalDirection::Up, false);
    assert_eq!(r, CalcRecord::new());
}
