use redstone_circuit::circuit::ComponentModelObject;
use redstone_circuit::geometry::Position;
use redstone_circuit::netlist::{
    CalculationUnit, Connection, PhysicalPoint, PointType, PowerPoint, PowerPointType, SimFuncs, Simulation, TruthTable,
};

fn gate(name: &str) -> ComponentModelObject {
    ComponentModelObject {
        name: name.to_string(),
        model_type: "component".to_string(),
        nbt: String::new(),
        size: [1, 1, 1],
        inputs: vec![],
        outputs: vec![],
    }
}

#[test]
fn truth_table_set_and_get() {
    let mut t = TruthTable::new(vec!["a".to_string(), "b".to_string(), "q".to_string()]);
    assert_eq!(t.get(vec![0, 1]), None);
    t.set(vec![0, 1], vec![1]);
    t.set(vec![1, 1], vec![0]);
    assert_eq!(t.get(vec![0, 1]), Some(vec![1]));
    assert_eq!(t.get(vec![1, 1]), Some(vec![0]));
    assert_eq!(t.get(vec![1, 0]), None);
}

#[test]
fn truth_table_replaces_identical_row() {
    let mut t = TruthTable::new(vec![]);
    t.set(vec![0], vec![1]);
    t.set(vec![1], vec![1]);
    t.set(vec![0], vec![1]);
    assert_eq!(t.rows, vec![vec![1, 1], vec![0, 1]]);
    t.set(vec![1], vec![0]);
    assert_eq!(t.rows, vec![vec![1, 1], vec![0, 1], vec![1, 0]]);
    assert_eq!(t.get(vec![1]), Some(vec![1]));
}

#[test]
fn func_from_model_name() {
    assert_eq!(CalculationUnit::get_func_from_model(&gate("and")), SimFuncs::AND);
    assert_eq!(CalculationUnit::get_func_from_model(&gate("or")), SimFuncs::OR);
    assert_eq!(CalculationUnit::get_func_from_model(&gate("not")), SimFuncs::NOT);
    assert_eq!(CalculationUnit::get_func_from_model(&gate("xor")), SimFuncs::COPY);
}

#[test]
fn records_are_built_from_their_parts() {
    let p = Position { x: 1, y: 2, z: 3 };
    let mut u = CalculationUnit::new("w1", p, SimFuncs::WIRE);
    assert_eq!(u.name, "w1");
    assert!(u.vars.is_empty());
    u.set_vars(vec![7]);
    assert_eq!(u.vars, vec![7]);
    let pp = PhysicalPoint::new("w1.3", 0, p, PointType::PART_OF_WIRE);
    assert_eq!(pp.name, "w1.3");
    assert_eq!(pp.point_type, PointType::PART_OF_WIRE);
    let pw = PowerPoint::new("g.a", 2, 9, PowerPointType::INPUT);
    assert_eq!((pw.name.as_str(), pw.simpoint_index, pw.power, pw.powerpoint_type), ("g.a", 2, 9, PowerPointType::INPUT));
    let c = Connection::new(u.clone(), CalculationUnit::new("g", p, SimFuncs::AND));
    assert_eq!(c.from.name, "w1");
    assert_eq!(c.to.func, SimFuncs::AND);
    let s = Simulation::new();
    assert!(s.units.is_empty() && s.connections.is_empty() && s.powerpoints.is_empty());
}
