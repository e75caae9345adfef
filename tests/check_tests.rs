use redstone_circuit::check::check_circuit;
use redstone_circuit::circuit::{
    BlockInfo, Circuit, Component, ComponentModelObject, ModelObject, Port, Properties, Wire,
};
use redstone_circuit::geometry::Position;
use redstone_circuit::graph::{create_graph, EdgeDirect};

fn pos(x: i32, y: i32, z: i32) -> Position {
    Position { x, y, z }
}

fn port(name: &str, p: Position) -> Port {
    Port { name: name.to_string(), position: p }
}

fn wire(name: &str, start: Position, end: Position) -> Wire {
    Wire { name: name.to_string(), start, end, base_material: "stone".to_string() }
}

fn repeater(p: Position, facing: &str) -> BlockInfo {
    BlockInfo {
        position: p,
        id: "repeater".to_string(),
        properties: Some(Properties { facing: facing.to_string(), delay: 1, locked: false, powered: false, power: 0 }),
    }
}

fn lamp_model() -> Vec<ModelObject> {
    vec![ModelObject::Component(ComponentModelObject {
        name: "lamp".to_string(),
        model_type: "component".to_string(),
        nbt: "lamp.nbt".to_string(),
        size: [1, 1, 1],
        inputs: vec![port("in", pos(0, 0, 0))],
        outputs: vec![],
    })]
}

fn lamp_at(p: Position) -> Component {
    Component { name: "l".to_string(), model: "lamp".to_string(), position: p }
}

fn circuit(inputs: Vec<Port>, components: Vec<Component>, wires: Vec<Wire>, blocks: Vec<BlockInfo>) -> Circuit {
    Circuit {
        name: "test".to_string(),
        size: pos(64, 4, 64),
        imports: vec![],
        components,
        wires,
        blocks,
        inputs,
        outputs: vec![],
    }
}

#[test]
fn short_wire_passes() {
    let c = circuit(vec![port("x", pos(0, 0, 0))], vec![lamp_at(pos(10, 0, 0))], vec![wire("w", pos(0, 0, 0), pos(10, 0, 0))], vec![]);
    assert_eq!(check_circuit(&c, &lamp_model()).unwrap(), (true, vec![]));
}

#[test]
fn wire_of_exactly_fifteen_passes() {
    let c = circuit(vec![port("x", pos(0, 0, 0))], vec![lamp_at(pos(0, 0, 15))], vec![wire("w", pos(0, 0, 0), pos(0, 0, 15))], vec![]);
    assert_eq!(check_circuit(&c, &lamp_model()).unwrap(), (true, vec![]));
}

#[test]
fn long_plain_wire_is_reported() {
    let c = circuit(vec![port("x", pos(0, 0, 0))], vec![lamp_at(pos(20, 0, 0))], vec![wire("w", pos(0, 0, 0), pos(20, 0, 0))], vec![]);
    assert_eq!(check_circuit(&c, &lamp_model()).unwrap(), (false, vec![(0, 1)]));
}

#[test]
fn repeater_at_the_far_end_restores_power() {
    let c = circuit(
        vec![port("x", pos(0, 0, 0))],
        vec![lamp_at(pos(20, 0, 0))],
        vec![wire("w", pos(0, 0, 0), pos(20, 0, 0))],
        vec![repeater(pos(20, 0, 0), "east")],
    );
    let g = create_graph(&c, &lamp_model()).unwrap();
    assert_eq!(g.edges[0].direct, EdgeDirect::Nonreversed);
    assert_eq!(check_circuit(&c, &lamp_model()).unwrap(), (true, vec![]));
}

#[test]
fn repeater_at_a_junction_boosts_the_next_wire() {
    let c = circuit(
        vec![port("x", pos(0, 0, 0))],
        vec![lamp_at(pos(20, 0, 0))],
        vec![wire("a", pos(0, 0, 0), pos(10, 0, 0)), wire("b", pos(10, 0, 0), pos(20, 0, 0))],
        vec![repeater(pos(10, 0, 0), "east")],
    );
    let g = create_graph(&c, &lamp_model()).unwrap();
    assert_eq!(g.get_distance(0, 1), Some(20));
    assert_eq!(check_circuit(&c, &lamp_model()).unwrap(), (true, vec![]));
}

#[test]
fn forward_repeater_mid_wire_restores_power() {
    let c = circuit(
        vec![port("x", pos(0, 0, 0))],
        vec![lamp_at(pos(20, 0, 0))],
        vec![wire("w", pos(0, 0, 0), pos(20, 0, 0))],
        vec![repeater(pos(10, 0, 0), "east")],
    );
    let g = create_graph(&c, &lamp_model()).unwrap();
    assert_eq!(g.edges[0].direct, EdgeDirect::Nonreversed);
    assert_eq!(g.edges[0].tail, 10);
    assert_eq!(check_circuit(&c, &lamp_model()).unwrap(), (true, vec![]));
}

#[test]
fn long_run_after_the_last_repeater_is_reported() {
    let c = circuit(
        vec![port("x", pos(0, 0, 0))],
        vec![lamp_at(pos(30, 0, 0))],
        vec![wire("w", pos(0, 0, 0), pos(30, 0, 0))],
        vec![repeater(pos(5, 0, 0), "east")],
    );
    assert_eq!(check_circuit(&c, &lamp_model()).unwrap(), (false, vec![(0, 1)]));
}

#[test]
fn reversed_edge_restores_power() {
    let c = circuit(
        vec![port("x", pos(0, 0, 0))],
        vec![lamp_at(pos(20, 0, 0))],
        vec![wire("w", pos(0, 0, 0), pos(20, 0, 0))],
        vec![repeater(pos(10, 0, 0), "west")],
    );
    assert_eq!(check_circuit(&c, &lamp_model()).unwrap(), (true, vec![]));
}

#[test]
fn paths_follow_wires_from_start_to_end() {
    let c = circuit(vec![port("x", pos(0, 0, 0))], vec![lamp_at(pos(20, 0, 0))], vec![wire("w", pos(20, 0, 0), pos(0, 0, 0))], vec![]);
    let g = create_graph(&c, &lamp_model()).unwrap();
    assert_eq!(g.edges[0].start, 1);
    assert_eq!(g.has_powered_path(&c.blocks, 0, 1), false);
    assert_eq!(check_circuit(&c, &lamp_model()).unwrap(), (false, vec![(0, 1)]));
}

#[test]
fn each_far_pair_is_reported_once() {
    let c = circuit(
        vec![port("x", pos(0, 0, 0)), port("y", pos(40, 0, 0))],
        vec![lamp_at(pos(20, 0, 0))],
        vec![wire("a", pos(0, 0, 0), pos(20, 0, 0)), wire("b", pos(40, 0, 0), pos(20, 0, 0))],
        vec![],
    );
    assert_eq!(check_circuit(&c, &lamp_model()).unwrap(), (false, vec![(0, 1), (0, 2), (1, 0), (1, 2)]));
}

#[test]
fn conflicting_wire_leaves_target_unreached() {
    let c = circuit(
        vec![port("x", pos(0, 0, 0))],
        vec![lamp_at(pos(20, 0, 0))],
        vec![wire("w", pos(0, 0, 0), pos(20, 0, 0))],
        vec![repeater(pos(5, 0, 0), "east"), repeater(pos(15, 0, 0), "west")],
    );
    let g = create_graph(&c, &lamp_model()).unwrap();
    assert!(g.edges.is_empty());
    assert_eq!(g.conflicts, vec![0]);
    assert_eq!(check_circuit(&c, &lamp_model()).unwrap(), (true, vec![]));
}
