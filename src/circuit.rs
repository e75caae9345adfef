//! The circuit description and the component models that it refers to.

use vstd::prelude::*;
use crate::geometry::Position;

verus! {

/// A named, positioned interface point of a model.
#[derive(Debug, Clone)]
pub struct Port {
    pub name: String,
    pub position: Position,
}

/// A placed instance of a model.
#[derive(Debug, Clone)]
pub struct Component {
    pub name: String,
    pub model: String,
    pub position: Position,
}

/// A straight wire between two lattice points, laid on a base material.
#[derive(Debug, Clone)]
pub struct Wire {
    pub name: String,
    pub start: Position,
    pub end: Position,
    pub base_material: String,
}

/// The block state attributes that a placed block may carry.
#[derive(Debug, Clone)]
pub struct Properties {
    pub facing: String,
    pub delay: i32,
    pub locked: bool,
    pub powered: bool,
    pub power: i32,
}

impl Default for Properties {
    /// No facing, no delay, unlocked, unpowered, at power zero.
    fn default() -> (r: Properties)
        ensures
            r.facing@ == Seq::<char>::empty(),
            r.delay == 0,
            !r.locked,
            !r.powered,
            r.power == 0,
    {
        Properties { facing: String::new(), delay: 0, locked: false, powered: false, power: 0 }
    }
}

/// An auxiliary block placed in the circuit, such as a repeater.
#[derive(Debug, Clone)]
pub struct BlockInfo {
    pub position: Position,
    pub id: String,
    pub properties: Option<Properties>,
}

/// A model that the circuit imports, and where its description lives.
#[derive(Debug, Clone)]
pub struct ImportItem {
    pub model_name: String,
    pub model_type: String,
    pub path: String,
}

/// A whole circuit: its components, wires, extra blocks and external ports.
#[derive(Debug, Clone)]
pub struct Circuit {
    pub name: String,
    pub size: Position,
    pub imports: Vec<ImportItem>,
    pub components: Vec<Component>,
    pub wires: Vec<Wire>,
    pub blocks: Vec<BlockInfo>,
    pub inputs: Vec<Port>,
    pub outputs: Vec<Port>,
}

/// A component model: its ports, its size and the file holding its blocks.
#[derive(Debug, Clone)]
pub struct ComponentModelObject {
    pub name: String,
    pub model_type: String,
    pub nbt: String,
    pub size: [i32; 3],
    pub inputs: Vec<Port>,
    pub outputs: Vec<Port>,
}

/// An entry of the model table: a component model or a whole sub-circuit.
#[derive(Debug, Clone)]
pub enum ModelObject {
    Component(ComponentModelObject),
    Circuit(Circuit),
}

impl ModelObject {
    pub open spec fn name_view(&self) -> Seq<char> {
        match self {
            ModelObject::Component(m) => m.name@,
            ModelObject::Circuit(c) => c.name@,
        }
    }

    pub open spec fn inputs_view(&self) -> Seq<Port> {
        match self {
            ModelObject::Component(m) => m.inputs@,
            ModelObject::Circuit(c) => c.inputs@,
        }
    }

    pub open spec fn outputs_view(&self) -> Seq<Port> {
        match self {
            ModelObject::Component(m) => m.outputs@,
            ModelObject::Circuit(c) => c.outputs@,
        }
    }

    /// The model's name.
    pub fn get_name(&self) -> (r: &String)
        ensures
            r@ == self.name_view(),
    {
        match self {
            ModelObject::Component(m) => &m.name,
            ModelObject::Circuit(c) => &c.name,
        }
    }

    /// The model's input ports.
    pub fn get_inputs(&self) -> (r: &Vec<Port>)
        ensures
            r@ == self.inputs_view(),
    {
        match self {
            ModelObject::Component(m) => &m.inputs,
            ModelObject::Circuit(c) => &c.inputs,
        }
    }

    /// The model's output ports.
    pub fn get_outputs(&self) -> (r: &Vec<Port>)
        ensures
            r@ == self.outputs_view(),
    {
        match self {
            ModelObject::Component(m) => &m.outputs,
            ModelObject::Circuit(c) => &c.outputs,
        }
    }

    /// The kind of model: "component" or "circuit".
    pub fn get_type(&self) -> (r: &'static str)
        ensures
            r@ == (match self {
                ModelObject::Component(_) => "component"@,
                ModelObject::Circuit(_) => "circuit"@,
            }),
    {
        match self {
            ModelObject::Component(_) => "component",
            ModelObject::Circuit(_) => "circuit",
        }
    }

    /// The path of the block file, which only a component model has.
    pub fn get_nbt_path(&self) -> (r: Option<&String>)
        ensures
            r == (match self {
                ModelObject::Component(m) => Some(&m.nbt),
                ModelObject::Circuit(_) => None,
            }),
    {
        match self {
            ModelObject::Component(m) => Some(&m.nbt),
            ModelObject::Circuit(_) => None,
        }
    }
}

} // verus!
