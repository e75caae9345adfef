use redstone_circuit::check::{check_circuit, MAX_REDSTONE_DISTANCE};
use redstone_circuit::circuit::{
    BlockInfo, Circuit, Component, ComponentModelObject, ModelObject, Port, Properties, Wire,
};
use redstone_circuit::geometry::Position;
use redstone_circuit::graph::{
    create_graph, repeater_direction, BuildError, Dot, Edge, EdgeDirect, Graph, NodeType, RepeaterDirection,
};
use redstone_circuit::direction::GlobalDirection;

fn pos(x: i32, y: i32, z: i32) -> Position {
    Position { x, y, z }
}

fn port(name: &str, p: Position) -> Port {
    Port { name: name.to_string(), position: p }
}

fn wire(name: &str, start: Position, end: Position) -> Wire {
    Wire { name: name.to_string(), start, end, base_material: "stone".to_string() }
}

fn block(p: Position, id: &str, facing: Option<&str>) -> BlockInfo {
    BlockInfo {
        position: p,
        id: id.to_string(),
        properties: facing.map(|f| Properties {
            facing: f.to_string(),
            delay: 1,
            locked: false,
            powered: false,
            power: 0,
        }),
    }
}

fn circuit(inputs: Vec<Port>, components: Vec<Component>, wires: Vec<Wire>, blocks: Vec<BlockInfo>) -> Circuit {
    Circuit {
        name: "test".to_string(),
        size: pos(32, 4, 32),
        imports: vec![],
        components,
        wires,
        blocks,
        inputs,
        outputs: vec![],
    }
}

fn lamp_model() -> ModelObject {
    ModelObject::Component(ComponentModelObject {
        name: "lamp".to_string(),
        model_type: "component".to_string(),
        nbt: "lamp.nbt".to_string(),
        size: [1, 1, 1],
        inputs: vec![port("in", pos(0, 0, 0))],
        outputs: vec![],
    })
}

fn lamp_at(p: Position) -> Component {
    Component { name: "l".to_string(), model: "lamp".to_string(), position: p }
}

fn single_edge(g: &Graph) -> Edge {
    assert_eq!(g.edges.len(), 1);
    g.edges[0]
}

#[test]
fn ports_become_dots() {
    let models = vec![ModelObject::Component(ComponentModelObject {
        name: "gate".to_string(),
        model_type: "component".to_string(),
        nbt: "gate.nbt".to_string(),
        size: [3, 1, 3],
        inputs: vec![port("a", pos(0, 0, 0)), port("b", pos(0, 0, 2))],
        outputs: vec![port("q", pos(2, 0, 1))],
    })];
    let comps = vec![Component { name: "g1".to_string(), model: "gate".to_string(), position: pos(10, 0, 10) }];
    let c = circuit(vec![port("x", pos(0, 0, 0))], comps, vec![], vec![]);
    let g = create_graph(&c, &models).unwrap();
    assert_eq!(
        g.dots,
        vec![
            Dot { pos: pos(0, 0, 0), type_: NodeType::Output },
            Dot { pos: pos(10, 0, 10), type_: NodeType::Input },
            Dot { pos: pos(10, 0, 12), type_: NodeType::Input },
            Dot { pos: pos(12, 0, 11), type_: NodeType::Output },
        ]
    );
    assert_eq!(g.outputs, vec![0, 3]);
    assert_eq!(g.inputs, vec![1, 2]);
}

#[test]
fn unknown_model_is_a_build_error() {
    let comps = vec![Component { name: "g1".to_string(), model: "missing".to_string(), position: pos(0, 0, 0) }];
    let c = circuit(vec![], comps, vec![], vec![]);
    match create_graph(&c, &vec![lamp_model()]) {
        Err(BuildError::UnknownModel(name)) => assert_eq!(name, "missing"),
        other => panic!("unexpected result {:?}", other),
    }
    assert!(check_circuit(&c, &vec![lamp_model()]).is_err());
}

#[test]
fn wire_ends_reuse_port_dots() {
    let c = circuit(
        vec![port("x", pos(0, 0, 0))],
        vec![lamp_at(pos(5, 0, 0))],
        vec![wire("w", pos(0, 0, 0), pos(5, 0, 0)), wire("v", pos(5, 0, 0), pos(5, 0, 3))],
        vec![],
    );
    let g = create_graph(&c, &vec![lamp_model()]).unwrap();
    assert_eq!(g.dots.len(), 3);
    assert_eq!(g.dots[2], Dot { pos: pos(5, 0, 3), type_: NodeType::Input });
    assert_eq!(
        g.edges,
        vec![
            Edge { start: 0, end: 1, length: 5, direct: EdgeDirect::Bidirectional, tail: 0 },
            Edge { start: 1, end: 2, length: 3, direct: EdgeDirect::Bidirectional, tail: 0 },
        ]
    );
    assert!(g.conflicts.is_empty());
}

#[test]
fn plain_wire_is_bidirectional() {
    let c = circuit(vec![], vec![], vec![wire("w", pos(0, 0, 0), pos(0, 0, 9))], vec![block(pos(0, 1, 4), "repeater", Some("south"))]);
    let g = create_graph(&c, &vec![]).unwrap();
    assert_eq!(single_edge(&g).direct, EdgeDirect::Bidirectional);
}

#[test]
fn forward_repeater_makes_nonreversed_edge() {
    let c = circuit(
        vec![],
        vec![],
        vec![wire("w", pos(0, 0, 0), pos(8, 0, 0))],
        vec![block(pos(3, 0, 0), "repeater", Some("east")), block(pos(6, 0, 0), "repeater", Some("East"))],
    );
    let g = create_graph(&c, &vec![]).unwrap();
    assert_eq!(single_edge(&g).direct, EdgeDirect::Nonreversed);
}

#[test]
fn backward_repeater_makes_reversed_edge() {
    let c = circuit(vec![], vec![], vec![wire("w", pos(0, 0, 0), pos(8, 0, 0))], vec![block(pos(3, 0, 0), "repeater", Some("west"))]);
    let g = create_graph(&c, &vec![]).unwrap();
    assert_eq!(single_edge(&g).direct, EdgeDirect::Reversed);
}

#[test]
fn opposing_repeaters_drop_the_wire() {
    let c = circuit(
        vec![],
        vec![],
        vec![wire("w", pos(0, 0, 0), pos(0, 0, 10))],
        vec![block(pos(0, 0, 3), "repeater", Some("south")), block(pos(0, 0, 7), "repeater", Some("north"))],
    );
    let g = create_graph(&c, &vec![]).unwrap();
    assert!(g.edges.is_empty());
    assert_eq!(g.conflicts, vec![0]);
    assert_eq!(g.dots.len(), 2);
}

#[test]
fn repeater_without_facing_is_an_error() {
    let c = circuit(vec![], vec![], vec![wire("a", pos(0, 0, 0), pos(2, 0, 0)), wire("b", pos(0, 0, 5), pos(4, 0, 5))], vec![block(pos(2, 0, 5), "repeater", None)]);
    match create_graph(&c, &vec![]) {
        Err(BuildError::InvalidRepeaterFacing(j)) => assert_eq!(j, 1),
        other => panic!("unexpected result {:?}", other),
    }
    let c2 = circuit(vec![], vec![], vec![wire("a", pos(0, 0, 0), pos(2, 0, 0))], vec![block(pos(1, 0, 0), "repeater", Some("sideways"))]);
    assert!(create_graph(&c2, &vec![]).is_err());
}

#[test]
fn only_first_block_at_a_point_counts() {
    let c = circuit(
        vec![],
        vec![],
        vec![wire("w", pos(0, 0, 0), pos(6, 0, 0))],
        vec![block(pos(2, 0, 0), "stone", None), block(pos(2, 0, 0), "repeater", Some("west"))],
    );
    let g = create_graph(&c, &vec![]).unwrap();
    assert_eq!(single_edge(&g).direct, EdgeDirect::Bidirectional);
}

#[test]
fn single_edge_distance_both_ways() {
    let c = circuit(vec![], vec![], vec![wire("w", pos(0, 0, 0), pos(3, 0, 4))], vec![]);
    let g = create_graph(&c, &vec![]).unwrap();
    assert_eq!(g.get_distance(0, 1), Some(7));
    assert_eq!(g.get_distance(1, 0), Some(7));
    assert_eq!(g.get_distance(0, 0), Some(0));
}

#[test]
fn shortest_distance_takes_the_cheaper_route() {
    let c = circuit(
        vec![],
        vec![],
        vec![
            wire("long", pos(0, 0, 0), pos(30, 0, 0)),
            wire("a", pos(0, 0, 0), pos(0, 0, 5)),
            wire("b", pos(0, 0, 5), pos(30, 0, 0)),
        ],
        vec![],
    );
    let g = create_graph(&c, &vec![]).unwrap();
    assert_eq!(g.get_distance(0, 1), Some(30));
    let d = g.get_distance(0, 2);
    assert_eq!(d, Some(5));
    assert_eq!(g.get_reachables(0), vec![0, 1, 2]);
}

#[test]
fn unreached_dot_has_no_distance() {
    let c = circuit(vec![port("x", pos(9, 9, 9))], vec![], vec![wire("w", pos(0, 0, 0), pos(1, 0, 0))], vec![]);
    let g = create_graph(&c, &vec![]).unwrap();
    assert_eq!(g.get_distance(0, 1), None);
    assert_eq!(g.get_reachables(0), vec![0]);
    assert_eq!(MAX_REDSTONE_DISTANCE, 15);
}

#[test]
fn repeater_direction_finds_the_first_repeater_at_a_point() {
    let blocks = vec![
        block(pos(2, 0, 0), "stone", None),
        block(pos(2, 0, 0), "repeater", Some("east")),
        block(pos(2, 0, 0), "repeater", Some("west")),
    ];
    assert_eq!(repeater_direction(&pos(2, 0, 0), &blocks, GlobalDirection::East), Ok(Some(RepeaterDirection::Forward)));
    assert_eq!(repeater_direction(&pos(3, 0, 0), &blocks, GlobalDirection::East), Ok(None));
}

#[test]
fn lone_edge_distance_ignores_other_wires() {
    let c = circuit(
        vec![],
        vec![],
        vec![wire("a", pos(0, 0, 0), pos(0, 0, 6)), wire("b", pos(10, 0, 0), pos(14, 0, 0))],
        vec![],
    );
    let g = create_graph(&c, &vec![]).unwrap();
    assert_eq!(g.get_distance(0, 1), Some(6));
    assert_eq!(g.get_distance(1, 0), Some(6));
    assert_eq!(g.get_distance(2, 3), Some(4));
    assert_eq!(g.get_distance(0, 3), None);
}
