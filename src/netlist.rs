//! Records for simulating a circuit as a network of calculation units, and
//! the truth table that collects simulation results.

use vstd::prelude::*;
use crate::geometry::Position;
use crate::circuit::ComponentModelObject;
use crate::text::str_eq;

verus! {

/// Rows of input levels followed by output levels, under a header.
#[derive(Debug, Clone)]
pub struct TruthTable {
    pub header: Vec<String>,
    pub rows: Vec<Vec<i32>>,
}

/// The first index at or after `i` of a row equal to `row`.
pub open spec fn find_row_from(rows: Seq<Seq<i32>>, row: Seq<i32>, i: int) -> Option<int>
    decreases rows.len() - i,
{
    if i < 0 || i >= rows.len() {
        None
    } else if rows[i] == row {
        Some(i)
    } else {
        find_row_from(rows, row, i + 1)
    }
}

/// The first index at or after `i` of a row that starts with `inputs`.
pub open spec fn find_case_from(rows: Seq<Seq<i32>>, inputs: Seq<i32>, i: int) -> Option<int>
    decreases rows.len() - i,
{
    if i < 0 || i >= rows.len() {
        None
    } else if inputs.len() <= rows[i].len() && rows[i].subrange(0, inputs.len() as int) == inputs {
        Some(i)
    } else {
        find_case_from(rows, inputs, i + 1)
    }
}

/// The rows after recording `row`: the first row equal to it, if any, is
/// dropped, and `row` is appended.
pub open spec fn rows_after_set(rows: Seq<Seq<i32>>, row: Seq<i32>) -> Seq<Seq<i32>> {
    match find_row_from(rows, row, 0) {
        Some(i) => rows.remove(i).push(row),
        None => rows.push(row),
    }
}

fn same_levels(a: &Vec<i32>, b: &Vec<i32>) -> (r: bool)
    ensures
        r == (a@ == b@),
{
    if a.len() != b.len() {
        return false;
    }
    let mut i: usize = 0;
    while i < a.len()
        invariant
            a@.len() == b@.len(),
            i <= a@.len(),
            forall|k: int| 0 <= k < i ==> a@[k] == b@[k],
        decreases a@.len() - i,
    {
        if a[i] != b[i] {
            return false;
        }
        i = i + 1;
    }
    assert(a@ =~= b@);
    true
}

fn starts_with(row: &Vec<i32>, prefix: &Vec<i32>) -> (r: bool)
    ensures
        r == (prefix@.len() <= row@.len() && row@.subrange(0, prefix@.len() as int) == prefix@),
{
    if prefix.len() > row.len() {
        return false;
    }
    let mut i: usize = 0;
    while i < prefix.len()
        invariant
            prefix@.len() <= row@.len(),
            i <= prefix@.len(),
            forall|k: int| 0 <= k < i ==> row@[k] == prefix@[k],
        decreases prefix@.len() - i,
    {
        if row[i] != prefix[i] {
            assert(row@.subrange(0, prefix@.len() as int)[i as int] != prefix@[i as int]);
            return false;
        }
        i = i + 1;
    }
    assert(row@.subrange(0, prefix@.len() as int) =~= prefix@);
    true
}

impl TruthTable {
    /// The rows, as sequences of levels.
    pub open spec fn rows_view(&self) -> Seq<Seq<i32>> {
        Seq::new(self.rows@.len(), |i: int| self.rows@[i]@)
    }

    /// An empty table under `header`.
    pub fn new(header: Vec<String>) -> (r: TruthTable)
        ensures
            r.header@ == header@,
            r.rows_view().len() == 0,
    {
        TruthTable { header, rows: Vec::new() }
    }

    /// Records one case: the input levels followed by the output levels,
    /// replacing an identical row already present.
    pub fn set(&mut self, inputs: Vec<i32>, outputs: Vec<i32>)
        ensures
            final(self).header@ == old(self).header@,
            final(self).rows_view() == rows_after_set(old(self).rows_view(), inputs@ + outputs@),
    {
        let ghost rows0 = self.rows_view();
        let mut row: Vec<i32> = Vec::new();
        let mut i: usize = 0;
        while i < inputs.len()
            invariant
                i <= inputs@.len(),
                row@ == inputs@.take(i as int),
            decreases inputs@.len() - i,
        {
            row.push(inputs[i]);
            assert(inputs@.take(i as int + 1) =~= inputs@.take(i as int).push(inputs@[i as int]));
            i = i + 1;
        }
        let mut k: usize = 0;
        while k < outputs.len()
            invariant
                i == inputs@.len(),
                k <= outputs@.len(),
                row@ == inputs@ + outputs@.take(k as int),
            decreases outputs@.len() - k,
        {
            row.push(outputs[k]);
            assert(outputs@.take(k as int + 1) =~= outputs@.take(k as int).push(outputs@[k as int]));
            k = k + 1;
        }
        assert(inputs@.take(i as int) =~= inputs@);
        assert(outputs@.take(k as int) =~= outputs@);
        let mut j: usize = 0;
        let mut found: Option<usize> = None;
        while j < self.rows.len() && found.is_none()
            invariant
                self.rows_view() == rows0,
                j <= self.rows@.len(),
                found is None ==> find_row_from(rows0, row@, 0) == find_row_from(rows0, row@, j as int),
                found matches Some(x) ==> find_row_from(rows0, row@, 0) == Some(x as int) && x < self.rows@.len(),
            decreases self.rows@.len() - j,
        {
            if same_levels(&self.rows[j], &row) {
                found = Some(j);
            }
            j = j + 1;
        }
        match found {
            Some(idx) => {
                assert(find_row_from(rows0, row@, 0) == Some(idx as int));
                self.rows.remove(idx);
                assert(self.rows_view() =~= rows0.remove(idx as int));
            },
            None => {
                assert(find_row_from(rows0, row@, 0) is None);
            },
        }
        let ghost mid = self.rows_view();
        self.rows.push(row);
        assert(self.rows_view() =~= mid.push(inputs@ + outputs@));
    }

    /// The output levels of the first row whose leading levels are `inputs`.
    pub fn get(&self, inputs: Vec<i32>) -> (r: Option<Vec<i32>>)
        ensures
            match find_case_from(self.rows_view(), inputs@, 0) {
                Some(i) => r matches Some(v) && v@ == self.rows_view()[i].subrange(inputs@.len() as int, self.rows_view()[i].len() as int),
                None => r is None,
            },
    {
        let ghost rows = self.rows_view();
        let mut i: usize = 0;
        while i < self.rows.len()
            invariant
                rows == self.rows_view(),
                i <= self.rows@.len(),
                find_case_from(rows, inputs@, 0) == find_case_from(rows, inputs@, i as int),
            decreases self.rows@.len() - i,
        {
            let row = &self.rows[i];
            if starts_with(row, &inputs) {
                let mut out: Vec<i32> = Vec::new();
                let mut k: usize = inputs.len();
                while k < row.len()
                    invariant
                        inputs@.len() <= k <= row@.len(),
                        out@ == row@.subrange(inputs@.len() as int, k as int),
                    decreases row@.len() - k,
                {
                    out.push(row[k]);
                    assert(row@.subrange(inputs@.len() as int, k as int + 1) =~= row@.subrange(inputs@.len() as int, k as int).push(row@[k as int]));
                    k = k + 1;
                }
                return Some(out);
            }
            i = i + 1;
        }
        None
    }
}

/// What a calculation unit does to a signal passing through it.
#[allow(non_camel_case_types)]
#[derive(Debug, Clone, Copy, PartialEq, Eq, Structural, Hash)]
pub enum SimFuncs {
    COPY,
    /// Wire behaviour: the signal decays by the wire's length.
    WIRE,
    AND,
    OR,
    NOT,
}

/// A node of the simulation network: a wire or a component.
#[derive(Debug, Clone)]
pub struct CalculationUnit {
    pub name: String,
    pub position: Position,
    pub func: SimFuncs,
    pub vars: Vec<u64>,
}

/// The function of a component model, by its name: "and", "or" and "not"
/// are the gates, any other model copies its signal.
pub open spec fn func_of_name(name: Seq<char>) -> SimFuncs {
    if name == "and"@ {
        SimFuncs::AND
    } else if name == "or"@ {
        SimFuncs::OR
    } else if name == "not"@ {
        SimFuncs::NOT
    } else {
        SimFuncs::COPY
    }
}

impl CalculationUnit {
    /// A unit with no parameters.
    pub fn new(name: &str, position: Position, func: SimFuncs) -> (r: CalculationUnit)
        ensures
            r.name@ == name@,
            r.position == position,
            r.func == func,
            r.vars@.len() == 0,
    {
        CalculationUnit { name: name.to_owned(), position, func, vars: Vec::new() }
    }

    /// Replaces the unit's parameters.
    pub fn set_vars(&mut self, vars: Vec<u64>)
        ensures
            final(self).vars@ == vars@,
            final(self).name@ == old(self).name@,
            final(self).position == old(self).position,
            final(self).func == old(self).func,
    {
        self.vars = vars;
    }

    /// The function that a component model computes.
    pub fn get_func_from_model(model: &ComponentModelObject) -> (r: SimFuncs)
        ensures
            r == func_of_name(model.name@),
    {
        let name = model.name.as_str();
        if str_eq(name, "and") {
            SimFuncs::AND
        } else if str_eq(name, "or") {
            SimFuncs::OR
        } else if str_eq(name, "not") {
            SimFuncs::NOT
        } else {
            SimFuncs::COPY
        }
    }
}

/// Where a physical point lies on its unit.
#[allow(non_camel_case_types)]
#[derive(Debug, Clone, Copy, PartialEq, Eq, Structural)]
pub enum PointType {
    /// An end of a wire, or a port of a component.
    ENDING,
    /// A point of a wire between its ends.
    PART_OF_WIRE,
}

/// A lattice point that belongs to a calculation unit.
#[derive(Debug, Clone)]
pub struct PhysicalPoint {
    pub name: String,
    pub simpoint: usize,
    pub position: Position,
    pub point_type: PointType,
}

impl PhysicalPoint {
    pub fn new(name: &str, simpoint: usize, position: Position, point_type: PointType) -> (r: PhysicalPoint)
        ensures
            r.name@ == name@,
            r.simpoint == simpoint,
            r.position == position,
            r.point_type == point_type,
    {
        PhysicalPoint { name: name.to_owned(), simpoint, position, point_type }
    }
}

/// A link from one calculation unit to another.
#[derive(Debug, Clone)]
pub struct Connection {
    pub from: CalculationUnit,
    pub to: CalculationUnit,
}

impl Connection {
    pub fn new(from: CalculationUnit, to: CalculationUnit) -> (r: Connection)
        ensures
            r.from == from,
            r.to == to,
    {
        Connection { from, to }
    }
}

/// Whether a power point receives or gives signal.
#[derive(Debug, Clone, Copy, PartialEq, Eq, Structural)]
pub enum PowerPointType {
    INPUT,
    OUTPUT,
}

/// The signal level held at a port of a unit.
#[derive(Debug, Clone)]
pub struct PowerPoint {
    pub name: String,
    pub simpoint_index: usize,
    pub power: i32,
    pub powerpoint_type: PowerPointType,
}

impl PowerPoint {
    pub fn new(name: &str, simpoint_index: usize, power: i32, powerpoint_type: PowerPointType) -> (r: PowerPoint)
        ensures
            r.name@ == name@,
            r.simpoint_index == simpoint_index,
            r.power == power,
            r.powerpoint_type == powerpoint_type,
    {
        PowerPoint { name: name.to_owned(), simpoint_index, power, powerpoint_type }
    }
}

/// Units, the connections between them, and their power points.
#[derive(Debug, Clone)]
pub struct Simulation {
    pub units: Vec<CalculationUnit>,
    pub connections: Vec<Connection>,
    pub powerpoints: Vec<PowerPoint>,
}

impl Simulation {
    /// An empty simulation.
    pub fn new() -> (r: Simulation)
        ensures
            r.units@.len() == 0,
            r.connections@.len() == 0,
            r.powerpoints@.len() == 0,
    {
        Simulation { units: Vec::new(), connections: Vec::new(), powerpoints: Vec::new() }
    }
}

} // verus!
