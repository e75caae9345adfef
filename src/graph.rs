//! The connectivity graph: dots for ports and wire ends, edges for wires.

use vstd::prelude::*;
use vstd::arithmetic::div_mod::{lemma_div_is_ordered, lemma_div_by_multiple, lemma_div_pos_is_pos};
use vstd::arithmetic::mul::lemma_mul_inequality;
use crate::geometry::{Position, abs_int, manhattan, translate, sum_fits};
use crate::direction::{GlobalDirection, InvalidDirection, direction_named};
use crate::circuit::{BlockInfo, Circuit, Component, ModelObject, Port, Wire};
use crate::text::{has_substring, str_contains};

verus! {

/// Whether a dot consumes signal or drives it.
#[derive(Debug, Clone, Copy, PartialEq, Eq, Structural, Hash)]
pub enum NodeType {
    Input,
    Output,
}

/// Which way signal may travel along an edge: both ways, only from `end`
/// to `start`, or only from `start` to `end`.
#[derive(Debug, Clone, Copy, PartialEq, Eq, Structural, Hash)]
pub enum EdgeDirect {
    Bidirectional,
    Reversed,
    Nonreversed,
}

impl NodeType {
    /// The kind's name, as diagnostics print it.
    pub fn as_str(&self) -> (r: &'static str)
        ensures
            r@ == (match self {
                NodeType::Input => "input"@,
                NodeType::Output => "output"@,
            }),
    {
        match self {
            NodeType::Input => "input",
            NodeType::Output => "output",
        }
    }
}

impl EdgeDirect {
    /// The direction's name, as diagnostics print it.
    pub fn as_str(&self) -> (r: &'static str)
        ensures
            r@ == (match self {
                EdgeDirect::Bidirectional => "bidirectional"@,
                EdgeDirect::Reversed => "reversed"@,
                EdgeDirect::Nonreversed => "nonreversed"@,
            }),
    {
        match self {
            EdgeDirect::Bidirectional => "bidirectional",
            EdgeDirect::Reversed => "reversed",
            EdgeDirect::Nonreversed => "nonreversed",
        }
    }
}

/// How a repeater on a wire lies relative to the wire's heading.
#[derive(Debug, Clone, Copy, PartialEq, Eq, Structural, Hash)]
pub enum RepeaterDirection {
    Forward,
    Backward,
}

/// A node of the graph.
#[derive(Debug, Clone, Copy, PartialEq, Eq, Structural)]
pub struct Dot {
    pub pos: Position,
    pub type_: NodeType,
}

/// A wire between the dots `start` and `end`, by index.
#[derive(Debug, Clone, Copy, PartialEq, Eq, Structural)]
pub struct Edge {
    pub start: usize,
    pub end: usize,
    pub length: u64,
    pub direct: EdgeDirect,
    /// How far signal runs after the last forward repeater on the wire.
    pub tail: u64,
}

/// Dots and edges, the indices of the output and input dots in insertion
/// order, and the indices of the wires left out for opposing repeaters.
#[derive(Debug, Clone)]
pub struct Graph {
    pub dots: Vec<Dot>,
    pub edges: Vec<Edge>,
    pub outputs: Vec<usize>,
    pub inputs: Vec<usize>,
    pub conflicts: Vec<usize>,
}

/// The indices of the dots of kind `kind`, in increasing order.
pub open spec fn kind_indices(dots: Seq<Dot>, kind: NodeType) -> Seq<usize>
    decreases dots.len(),
{
    if dots.len() == 0 {
        Seq::empty()
    } else {
        let prev = kind_indices(dots.drop_last(), kind);
        if dots.last().type_ == kind {
            prev.push((dots.len() - 1) as usize)
        } else {
            prev
        }
    }
}

/// The first index at or after `i` of a dot at `p`.
pub open spec fn first_dot_from(dots: Seq<Dot>, p: Position, i: int) -> Option<int>
    decreases dots.len() - i,
{
    if i < 0 || i >= dots.len() {
        None
    } else if dots[i].pos == p {
        Some(i)
    } else {
        first_dot_from(dots, p, i + 1)
    }
}

/// The index of the first dot at `p`, or the index that a new dot there gets.
pub open spec fn dot_index(dots: Seq<Dot>, p: Position) -> int {
    match first_dot_from(dots, p, 0) {
        Some(i) => i,
        None => dots.len() as int,
    }
}

/// The dots with one at `p` added, as an input, when none is there yet.
pub open spec fn with_dot(dots: Seq<Dot>, p: Position) -> Seq<Dot> {
    match first_dot_from(dots, p, 0) {
        Some(_) => dots,
        None => dots.push(Dot { pos: p, type_: NodeType::Input }),
    }
}

impl Graph {
    /// Edges join existing dots, and the index lists match the dots' kinds.
    pub open spec fn wf(&self) -> bool {
        &&& forall|i: int|
            0 <= i < self.edges@.len() ==> #[trigger] self.edges@[i].start < self.dots@.len()
                && self.edges@[i].end < self.dots@.len()
        &&& self.outputs@ == kind_indices(self.dots@, NodeType::Output)
        &&& self.inputs@ == kind_indices(self.dots@, NodeType::Input)
    }

    /// The empty graph.
    pub fn new() -> (r: Graph)
        ensures
            r.wf(),
            r.dots@.len() == 0,
            r.edges@.len() == 0,
            r.conflicts@.len() == 0,
    {
        Graph { dots: Vec::new(), edges: Vec::new(), outputs: Vec::new(), inputs: Vec::new(), conflicts: Vec::new() }
    }

    /// Appends `dot` and returns its index.
    pub fn add_dot(&mut self, dot: Dot) -> (r: usize)
        requires
            old(self).wf(),
        ensures
            final(self).wf(),
            r == old(self).dots@.len(),
            final(self).dots@ == old(self).dots@.push(dot),
            final(self).edges@ == old(self).edges@,
            final(self).conflicts@ == old(self).conflicts@,
    {
        let idx = self.dots.len();
        match dot.type_ {
            NodeType::Input => self.inputs.push(idx),
            NodeType::Output => self.outputs.push(idx),
        }
        self.dots.push(dot);
        assert(self.dots@.drop_last() =~= old(self).dots@);
        idx
    }

    /// The index of the first dot at `pos`.
    pub fn find_dot(&self, pos: Position) -> (r: Option<usize>)
        ensures
            r matches Some(i) ==> first_dot_from(self.dots@, pos, 0) == Some(i as int),
            r is None ==> first_dot_from(self.dots@, pos, 0) is None,
    {
        let mut i: usize = 0;
        while i < self.dots.len()
            invariant
                i <= self.dots@.len(),
                first_dot_from(self.dots@, pos, 0) == first_dot_from(self.dots@, pos, i as int),
            decreases self.dots@.len() - i,
        {
            if self.dots[i].pos == pos {
                return Some(i);
            }
            i = i + 1;
        }
        None
    }

    /// The index of the first dot at `pos`, adding an input dot there first
    /// when there is none.
    pub fn find_dot_or_add(&mut self, pos: Position) -> (r: usize)
        requires
            old(self).wf(),
        ensures
            final(self).wf(),
            r == dot_index(old(self).dots@, pos),
            final(self).dots@ == with_dot(old(self).dots@, pos),
            final(self).edges@ == old(self).edges@,
            final(self).conflicts@ == old(self).conflicts@,
    {
        match self.find_dot(pos) {
            Some(idx) => idx,
            None => self.add_dot(Dot { pos, type_: NodeType::Input }),
        }
    }

    /// Appends `edge`.
    pub fn add_edge(&mut self, edge: Edge)
        requires
            old(self).wf(),
            edge.start < old(self).dots@.len(),
            edge.end < old(self).dots@.len(),
        ensures
            final(self).wf(),
            final(self).dots@ == old(self).dots@,
            final(self).edges@ == old(self).edges@.push(edge),
            final(self).conflicts@ == old(self).conflicts@,
    {
        self.edges.push(edge);
    }
}

/// The number of steps of a wire: its largest extent along one axis.
pub open spec fn wire_steps(s: Position, e: Position) -> int {
    let dx = abs_int(e.x - s.x);
    let dy = abs_int(e.y - s.y);
    let dz = abs_int(e.z - s.z);
    if dx >= dy && dx >= dz {
        dx
    } else if dy >= dz {
        dy
    } else {
        dz
    }
}

/// The coordinate `i` steps of `steps` along from `a` to `b`, rounded
/// towards `a`.
pub open spec fn lerp(a: int, b: int, i: int, steps: int) -> int {
    if steps <= 0 {
        a
    } else if b >= a {
        a + (b - a) * i / steps
    } else {
        a - (a - b) * i / steps
    }
}

/// The `i`-th lattice point of the straight line from `s` to `e`.
pub open spec fn wire_point(s: Position, e: Position, i: int) -> Position {
    let n = wire_steps(s, e);
    Position { x: lerp(s.x as int, e.x as int, i, n) as i32, y: lerp(s.y as int, e.y as int, i, n) as i32, z: lerp(s.z as int, e.z as int, i, n) as i32 }
}

proof fn lemma_lerp_between(a: int, b: int, i: int, steps: int)
    requires
        0 <= i <= steps,
        abs_int(b - a) <= steps,
    ensures
        a <= b ==> a <= lerp(a, b, i, steps) <= b,
        b < a ==> b <= lerp(a, b, i, steps) <= a,
{
    if steps > 0 {
        let d = if b >= a { b - a } else { a - b };
        lemma_mul_inequality(i, steps, d);
        assert(d * i == i * d) by (nonlinear_arith);
        assert(d * steps == steps * d) by (nonlinear_arith);
        lemma_div_is_ordered(d * i, d * steps, steps);
        lemma_div_by_multiple(d, steps);
        assert(0 <= d * i) by (nonlinear_arith)
            requires 0 <= d, 0 <= i;
        lemma_div_pos_is_pos(d * i, steps);
    }
}

fn abs_diff(a: i32, b: i32) -> (r: u64)
    ensures
        r == abs_int(b - a),
{
    let d: i64 = b as i64 - a as i64;
    if d < 0 {
        (-d) as u64
    } else {
        d as u64
    }
}

fn lerp_exec(a: i32, b: i32, i: u64, steps: u64) -> (r: i32)
    requires
        i <= steps,
        steps <= 0x1_0000_0000u64,
        abs_int(b - a) <= steps,
    ensures
        r == lerp(a as int, b as int, i as int, steps as int),
{
    proof {
        lemma_lerp_between(a as int, b as int, i as int, steps as int);
    }
    if steps == 0 {
        a
    } else if b >= a {
        let d: u128 = abs_diff(a, b) as u128;
        assert(d * (i as u128) <= 0x1_0000_0000u128 * 0x1_0000_0000u128) by (nonlinear_arith)
            requires d <= 0x1_0000_0000u128, i as u128 <= 0x1_0000_0000u128, d >= 0;
        let off: u128 = d * (i as u128) / (steps as u128);
        (a as i64 + off as i64) as i32
    } else {
        let d: u128 = abs_diff(a, b) as u128;
        assert(d * (i as u128) <= 0x1_0000_0000u128 * 0x1_0000_0000u128) by (nonlinear_arith)
            requires d <= 0x1_0000_0000u128, i as u128 <= 0x1_0000_0000u128, d >= 0;
        let off: u128 = d * (i as u128) / (steps as u128);
        (a as i64 - off as i64) as i32
    }
}

/// Every lattice point that the straight wire from `start` to `end` passes,
/// one per step along its longest axis, from `start` to `end`.
pub fn wire_positions(start: &Position, end: &Position) -> (r: Vec<Position>)
    ensures
        r@.len() == wire_steps(*start, *end) + 1,
        forall|i: int| 0 <= i < r@.len() ==> #[trigger] r@[i] == wire_point(*start, *end, i),
{
    let dx = abs_diff(start.x, end.x);
    let dy = abs_diff(start.y, end.y);
    let dz = abs_diff(start.z, end.z);
    let steps: u64 = if dx >= dy && dx >= dz {
        dx
    } else if dy >= dz {
        dy
    } else {
        dz
    };
    let mut positions: Vec<Position> = Vec::new();
    let mut i: u64 = 0;
    while i <= steps
        invariant
            steps == wire_steps(*start, *end),
            steps <= 0x1_0000_0000u64,
            i <= steps + 1,
            positions@.len() == i,
            forall|k: int| 0 <= k < i ==> #[trigger] positions@[k] == wire_point(*start, *end, k),
        decreases steps + 1 - i,
    {
        let p = Position {
            x: lerp_exec(start.x, end.x, i, steps),
            y: lerp_exec(start.y, end.y, i, steps),
            z: lerp_exec(start.z, end.z, i, steps),
        };
        positions.push(p);
        i = i + 1;
    }
    positions
}

/// The wire's length: the Manhattan distance between its ends.
pub fn wire_length(start: &Position, end: &Position) -> (r: u64)
    ensures
        r == manhattan(*start, *end),
{
    start.distance(*end)
}

/// The first index at or after `i` of a block at `p`.
pub open spec fn first_block_from(blocks: Seq<BlockInfo>, p: Position, i: int) -> Option<int>
    decreases blocks.len() - i,
{
    if i < 0 || i >= blocks.len() {
        None
    } else if blocks[i].position == p {
        Some(i)
    } else {
        first_block_from(blocks, p, i + 1)
    }
}

/// A block identity that names a repeater.
pub open spec fn is_repeater_id(id: Seq<char>) -> bool {
    has_substring(id, "repeater"@)
}

/// The facing that a block's properties name, if they name a compass direction.
pub open spec fn facing_of(b: BlockInfo) -> Option<GlobalDirection> {
    match b.properties {
        Some(pr) => direction_named(pr.facing@),
        None => None,
    }
}

/// When the first block at `p` is a repeater, its facing (`None` when the
/// facing is missing or not a compass name).
pub open spec fn repeater_facing_at(blocks: Seq<BlockInfo>, p: Position) -> Option<Option<GlobalDirection>> {
    match first_block_from(blocks, p, 0) {
        Some(k) => if is_repeater_id(blocks[k].id@) {
            Some(facing_of(blocks[k]))
        } else {
            None
        },
        None => None,
    }
}

/// A repeater facing the wire's heading lies forward, any other backward.
pub open spec fn relative_direction(facing: GlobalDirection, heading: GlobalDirection) -> RepeaterDirection {
    if facing == heading {
        RepeaterDirection::Forward
    } else {
        RepeaterDirection::Backward
    }
}

/// The compass heading of a wire from `s` to `e`: along x when x changes,
/// else along z; a wire that changes neither heads north.
pub open spec fn heading_of(s: Position, e: Position) -> GlobalDirection {
    if s.x < e.x {
        GlobalDirection::East
    } else if s.x > e.x {
        GlobalDirection::West
    } else if s.z < e.z {
        GlobalDirection::South
    } else {
        GlobalDirection::North
    }
}

/// The `i`-th point of the wire holds a repeater without a usable facing.
pub open spec fn wire_bad_at(blocks: Seq<BlockInfo>, w: Wire, i: int) -> bool {
    repeater_facing_at(blocks, wire_point(w.start, w.end, i)) == Some(None::<GlobalDirection>)
}

/// How the repeater at the `i`-th point of the wire lies, if one with a
/// usable facing is there.
pub open spec fn wire_repeater_at(blocks: Seq<BlockInfo>, w: Wire, i: int) -> Option<RepeaterDirection> {
    match repeater_facing_at(blocks, wire_point(w.start, w.end, i)) {
        Some(Some(f)) => Some(relative_direction(f, heading_of(w.start, w.end))),
        _ => None,
    }
}

/// Some point of the wire holds a repeater without a usable facing.
pub open spec fn wire_is_bad(blocks: Seq<BlockInfo>, w: Wire) -> bool {
    exists|i: int| 0 <= i <= wire_steps(w.start, w.end) && #[trigger] wire_bad_at(blocks, w, i)
}

/// Some point of the wire holds a repeater lying `rd`.
pub open spec fn wire_has(blocks: Seq<BlockInfo>, w: Wire, rd: RepeaterDirection) -> bool {
    exists|i: int| 0 <= i <= wire_steps(w.start, w.end) && #[trigger] wire_repeater_at(blocks, w, i) == Some(rd)
}

/// The direction of the edge that a wire gives, or `None` when repeaters on
/// it lie both ways and the wire is left out.
pub open spec fn wire_direction(blocks: Seq<BlockInfo>, w: Wire) -> Option<EdgeDirect> {
    let f = wire_has(blocks, w, RepeaterDirection::Forward);
    let b = wire_has(blocks, w, RepeaterDirection::Backward);
    if f && b {
        None
    } else if f {
        Some(EdgeDirect::Nonreversed)
    } else if b {
        Some(EdgeDirect::Reversed)
    } else {
        Some(EdgeDirect::Bidirectional)
    }
}

/// The first index at or after `i` of a repeater at `p`.
pub open spec fn first_repeater_from(blocks: Seq<BlockInfo>, p: Position, i: int) -> Option<int>
    decreases blocks.len() - i,
{
    if i < 0 || i >= blocks.len() {
        None
    } else if blocks[i].position == p && is_repeater_id(blocks[i].id@) {
        Some(i)
    } else {
        first_repeater_from(blocks, p, i + 1)
    }
}

/// The facing of the first repeater at `p`, when there is one (`None` when
/// its facing is missing or not a compass name).
pub open spec fn repeater_facing(blocks: Seq<BlockInfo>, p: Position) -> Option<Option<GlobalDirection>> {
    match first_repeater_from(blocks, p, 0) {
        Some(k) => Some(facing_of(blocks[k])),
        None => None,
    }
}

proof fn lemma_first_block_is_first_repeater(blocks: Seq<BlockInfo>, p: Position, i: int, k: int)
    requires
        0 <= i,
        first_block_from(blocks, p, i) == Some(k),
        0 <= k < blocks.len(),
        is_repeater_id(blocks[k].id@),
    ensures
        first_repeater_from(blocks, p, i) == Some(k),
    decreases blocks.len() - i,
{
    lemma_first_block_bounds(blocks, p, i);
    if i < k {
        assert(blocks[i].position != p);
        lemma_first_block_is_first_repeater(blocks, p, i + 1, k);
    } else {
        lemma_first_block_bounds(blocks, p, i + 1);
        assert(blocks[k].position == p);
    }
}

proof fn lemma_first_block_bounds(blocks: Seq<BlockInfo>, p: Position, i: int)
    requires
        0 <= i,
    ensures
        first_block_from(blocks, p, i) matches Some(k) ==> i <= k < blocks.len(),
    decreases blocks.len() - i,
{
    if i < blocks.len() && blocks[i].position != p {
        lemma_first_block_bounds(blocks, p, i + 1);
    }
}

/// The first repeater at `pos`, if any, and how it lies relative to
/// `wire_direction`.
pub fn repeater_direction(pos: &Position, blocks: &Vec<BlockInfo>, wire_direction: GlobalDirection) -> (r: Result<Option<RepeaterDirection>, InvalidDirection>)
    ensures
        r == (match repeater_facing(blocks@, *pos) {
            None => Ok::<Option<RepeaterDirection>, InvalidDirection>(None),
            Some(None) => Err(InvalidDirection),
            Some(Some(f)) => Ok(Some(relative_direction(f, wire_direction))),
        }),
{
    let mut i: usize = 0;
    while i < blocks.len()
        invariant
            i <= blocks@.len(),
            first_repeater_from(blocks@, *pos, 0) == first_repeater_from(blocks@, *pos, i as int),
        decreases blocks@.len() - i,
    {
        let block = &blocks[i];
        if block.position == *pos && str_contains(block.id.as_str(), "repeater") {
            let facing = match &block.properties {
                Some(pr) => GlobalDirection::parse(pr.facing.as_str()),
                None => Err(InvalidDirection),
            };
            return match facing {
                Ok(f) => if f == wire_direction {
                    Ok(Some(RepeaterDirection::Forward))
                } else {
                    Ok(Some(RepeaterDirection::Backward))
                },
                Err(e) => Err(e),
            };
        }
        i = i + 1;
    }
    Ok(None)
}

/// Whether the first block at `pos` is a repeater.
fn first_block_is_repeater(pos: &Position, blocks: &Vec<BlockInfo>) -> (r: bool)
    ensures
        r == (first_block_from(blocks@, *pos, 0) matches Some(k) && is_repeater_id(blocks@[k].id@)),
{
    let mut i: usize = 0;
    while i < blocks.len()
        invariant
            i <= blocks@.len(),
            first_block_from(blocks@, *pos, 0) == first_block_from(blocks@, *pos, i as int),
        decreases blocks@.len() - i,
    {
        if blocks[i].position == *pos {
            return str_contains(blocks[i].id.as_str(), "repeater");
        }
        i = i + 1;
    }
    false
}

/// The last point of the first `k` points of the wire that holds a forward
/// repeater.
pub open spec fn last_forward_upto(blocks: Seq<BlockInfo>, w: Wire, k: int) -> Option<int>
    decreases k,
{
    if k <= 0 {
        None
    } else if wire_repeater_at(blocks, w, k - 1) == Some(RepeaterDirection::Forward) {
        Some(k - 1)
    } else {
        last_forward_upto(blocks, w, k - 1)
    }
}

/// How far signal runs from the wire's last forward repeater to its end
/// (zero when it has none).
pub open spec fn wire_tail(blocks: Seq<BlockInfo>, w: Wire) -> int {
    match last_forward_upto(blocks, w, wire_steps(w.start, w.end) + 1) {
        Some(i) => manhattan(wire_point(w.start, w.end, i), w.end),
        None => 0,
    }
}

fn wire_heading(s: &Position, e: &Position) -> (r: GlobalDirection)
    ensures
        r == heading_of(*s, *e),
{
    if s.x < e.x {
        GlobalDirection::East
    } else if s.x > e.x {
        GlobalDirection::West
    } else if s.z < e.z {
        GlobalDirection::South
    } else {
        GlobalDirection::North
    }
}

/// The direction of the edge that `wire` gives (`None` for opposing
/// repeaters), with the run after its last forward repeater, or an error when a repeater on it has no usable facing. A point
/// holds a repeater when the first block listed there is one.
#[verifier::rlimit(60)]
pub fn wire_edge_direct(blocks: &Vec<BlockInfo>, wire: &Wire) -> (r: Result<Option<(EdgeDirect, u64)>, InvalidDirection>)
    ensures
        r is Err <==> wire_is_bad(blocks@, *wire),
        !wire_is_bad(blocks@, *wire) ==> r == Ok::<Option<(EdgeDirect, u64)>, InvalidDirection>(match wire_direction(blocks@, *wire) {
            Some(d) => Some((d, wire_tail(blocks@, *wire) as u64)),
            None => None,
        }),
{
    let heading = wire_heading(&wire.start, &wire.end);
    let positions = wire_positions(&wire.start, &wire.end);
    let ghost w = *wire;
    let mut fwd = false;
    let mut bwd = false;
    let mut last: Option<usize> = None;
    let mut i: usize = 0;
    while i < positions.len()
        invariant
            positions@.len() == wire_steps(w.start, w.end) + 1,
            forall|k: int| 0 <= k < positions@.len() ==> #[trigger] positions@[k] == wire_point(w.start, w.end, k),
            heading == heading_of(w.start, w.end),
            w == *wire,
            i <= positions@.len(),
            fwd == exists|k: int| 0 <= k < i && #[trigger] wire_repeater_at(blocks@, w, k) == Some(RepeaterDirection::Forward),
            bwd == exists|k: int| 0 <= k < i && #[trigger] wire_repeater_at(blocks@, w, k) == Some(RepeaterDirection::Backward),
            forall|k: int| 0 <= k < i ==> !#[trigger] wire_bad_at(blocks@, w, k),
            (match last { Some(x) => Some(x as int), None => None::<int> }) == last_forward_upto(blocks@, w, i as int),
            last matches Some(x) ==> x < i,
        decreases positions@.len() - i,
    {
        let pos = positions[i];
        if first_block_is_repeater(&pos, blocks) {
            proof {
                let k = first_block_from(blocks@, pos, 0)->Some_0;
                lemma_first_block_bounds(blocks@, pos, 0);
                lemma_first_block_is_first_repeater(blocks@, pos, 0, k);
            }
            let rd = repeater_direction(&pos, blocks, heading);
            match rd {
                Err(e) => {
                    assert(wire_bad_at(blocks@, w, i as int));
                    return Err(e);
                },
                Ok(Some(RepeaterDirection::Forward)) => {
                    assert(wire_repeater_at(blocks@, w, i as int) == Some(RepeaterDirection::Forward));
                    fwd = true;
                    last = Some(i);
                },
                Ok(Some(RepeaterDirection::Backward)) => {
                    assert(wire_repeater_at(blocks@, w, i as int) == Some(RepeaterDirection::Backward));
                    bwd = true;
                },
                Ok(None) => {},
            }
        }
        assert(!wire_bad_at(blocks@, w, i as int));
        i = i + 1;
    }
    let tail: u64 = match last {
        Some(k) => positions[k].distance(wire.end),
        None => 0,
    };
    let d = if fwd && bwd {
        None
    } else if fwd {
        Some((EdgeDirect::Nonreversed, tail))
    } else if bwd {
        Some((EdgeDirect::Reversed, tail))
    } else {
        Some((EdgeDirect::Bidirectional, tail))
    };
    Ok(d)
}

/// Why a graph could not be built.
#[derive(Debug, Clone)]
pub enum BuildError {
    /// A component refers to a model that the table does not hold.
    UnknownModel(String),
    /// The wire with this index holds a repeater without a usable facing.
    InvalidRepeaterFacing(usize),
}

/// The first index at or after `i` of a model named `name`.
pub open spec fn find_model_from(models: Seq<ModelObject>, name: Seq<char>, i: int) -> Option<int>
    decreases models.len() - i,
{
    if i < 0 || i >= models.len() {
        None
    } else if models[i].name_view() == name {
        Some(i)
    } else {
        find_model_from(models, name, i + 1)
    }
}

/// The model table holds no model for the `k`-th component.
pub open spec fn model_missing(circuit: Circuit, models: Seq<ModelObject>, k: int) -> bool {
    find_model_from(models, circuit.components@[k].model@, 0) is None
}

/// Every port of every placed component lies within the `i32` lattice.
pub open spec fn ports_fit(circuit: Circuit, models: Seq<ModelObject>) -> bool {
    forall|k: int| 0 <= k < circuit.components@.len() ==> #[trigger] component_fits(models, circuit.components@[k])
}

/// Every port of the component's model, moved to the component, lies within
/// the `i32` lattice.
pub open spec fn component_fits(models: Seq<ModelObject>, comp: Component) -> bool {
    match find_model_from(models, comp.model@, 0) {
        Some(m) => (forall|j: int| 0 <= j < models[m].inputs_view().len() ==> sum_fits(#[trigger] models[m].inputs_view()[j].position, comp.position))
            && (forall|j: int| 0 <= j < models[m].outputs_view().len() ==> sum_fits(#[trigger] models[m].outputs_view()[j].position, comp.position)),
        None => true,
    }
}

/// Dots of kind `kind` at the ports, moved to `at`.
pub open spec fn port_dots(ports: Seq<Port>, at: Position, kind: NodeType) -> Seq<Dot> {
    Seq::new(ports.len(), |k: int| Dot { pos: translate(ports[k].position, at), type_: kind })
}

/// The circuit's own input ports, which drive signal into it: output dots.
pub open spec fn external_dots(ports: Seq<Port>) -> Seq<Dot> {
    Seq::new(ports.len(), |k: int| Dot { pos: ports[k].position, type_: NodeType::Output })
}

/// The dots of a placed component: its model's inputs, then its outputs.
pub open spec fn component_dots(models: Seq<ModelObject>, comp: Component) -> Seq<Dot> {
    match find_model_from(models, comp.model@, 0) {
        Some(m) => port_dots(models[m].inputs_view(), comp.position, NodeType::Input) + port_dots(models[m].outputs_view(), comp.position, NodeType::Output),
        None => Seq::empty(),
    }
}

/// The port dots after the circuit's inputs and the first `k` components.
pub open spec fn port_dots_upto(circuit: Circuit, models: Seq<ModelObject>, k: int) -> Seq<Dot>
    decreases k,
{
    if k <= 0 {
        external_dots(circuit.inputs@)
    } else {
        port_dots_upto(circuit, models, k - 1) + component_dots(models, circuit.components@[k - 1])
    }
}

/// Dots, edges and left-out wires.
pub type BuildState = (Seq<Dot>, Seq<Edge>, Seq<usize>);

/// The graph after wire `j`: dots at both ends when none are there yet, and
/// an edge, unless the wire's repeaters oppose each other.
pub open spec fn wire_step(st: BuildState, blocks: Seq<BlockInfo>, w: Wire, j: int) -> BuildState {
    let d1 = with_dot(st.0, w.start);
    let si = dot_index(st.0, w.start);
    let d2 = with_dot(d1, w.end);
    let ei = dot_index(d1, w.end);
    match wire_direction(blocks, w) {
        Some(dir) => (d2, st.1.push(Edge {
            start: si as usize,
            end: ei as usize,
            length: manhattan(w.start, w.end) as u64,
            direct: dir,
            tail: wire_tail(blocks, w) as u64,
        }), st.2),
        None => (d2, st.1, st.2.push(j as usize)),
    }
}

/// The graph after the first `k` wires, from the port dots `dots0`.
pub open spec fn wires_built(dots0: Seq<Dot>, circuit: Circuit, k: int) -> BuildState
    decreases k,
{
    if k <= 0 {
        (dots0, Seq::empty(), Seq::empty())
    } else {
        wire_step(wires_built(dots0, circuit, k - 1), circuit.blocks@, circuit.wires@[k - 1], k - 1)
    }
}

/// The graph of a circuit: its dots, edges and left-out wires.
pub open spec fn graph_of(circuit: Circuit, models: Seq<ModelObject>) -> BuildState {
    wires_built(port_dots_upto(circuit, models, circuit.components@.len() as int), circuit, circuit.wires@.len() as int)
}

proof fn lemma_first_dot_bounds(dots: Seq<Dot>, p: Position, i: int)
    requires
        0 <= i,
    ensures
        first_dot_from(dots, p, i) matches Some(k) ==> i <= k < dots.len() && dots[k].pos == p,
    decreases dots.len() - i,
{
    if i < dots.len() && dots[i].pos != p {
        lemma_first_dot_bounds(dots, p, i + 1);
    }
}

fn find_model(models: &Vec<ModelObject>, name: &String) -> (r: Option<usize>)
    ensures
        r matches Some(i) ==> find_model_from(models@, name@, 0) == Some(i as int),
        r is None ==> find_model_from(models@, name@, 0) is None,
{
    let mut i: usize = 0;
    while i < models.len()
        invariant
            i <= models@.len(),
            find_model_from(models@, name@, 0) == find_model_from(models@, name@, i as int),
        decreases models@.len() - i,
    {
        if *models[i].get_name() == *name {
            return Some(i);
        }
        i = i + 1;
    }
    None
}

fn add_port_dots(graph: &mut Graph, ports: &Vec<Port>, at: Position, kind: NodeType)
    requires
        old(graph).wf(),
        forall|j: int| 0 <= j < ports@.len() ==> sum_fits(#[trigger] ports@[j].position, at),
    ensures
        final(graph).wf(),
        final(graph).dots@ == old(graph).dots@ + port_dots(ports@, at, kind),
        final(graph).edges@ == old(graph).edges@,
        final(graph).conflicts@ == old(graph).conflicts@,
{
    let ghost base = graph.dots@;
    let mut k: usize = 0;
    while k < ports.len()
        invariant
            graph.wf(),
            k <= ports@.len(),
            forall|j: int| 0 <= j < ports@.len() ==> sum_fits(#[trigger] ports@[j].position, at),
            graph.dots@ == base + port_dots(ports@, at, kind).take(k as int),
            graph.edges@ == old(graph).edges@,
            graph.conflicts@ == old(graph).conflicts@,
        decreases ports@.len() - k,
    {
        let pos = ports[k].position.add(at);
        graph.add_dot(Dot { pos, type_: kind });
        assert(port_dots(ports@, at, kind).take(k as int + 1) =~= port_dots(ports@, at, kind).take(k as int).push(Dot { pos, type_: kind }));
        k = k + 1;
    }
    assert(port_dots(ports@, at, kind).take(k as int) =~= port_dots(ports@, at, kind));
}

/// Builds the connectivity graph of a circuit: an output dot for each of
/// the circuit's inputs, a dot for each port of each placed component, and
/// for each wire the dots at its ends (when none are there yet) and an edge,
/// unless repeaters on it lie both ways, in which case the wire's index is
/// recorded in `conflicts` instead.
pub fn create_graph(circuit: &Circuit, model_objects: &Vec<ModelObject>) -> (r: Result<Graph, BuildError>)
    requires
        ports_fit(*circuit, model_objects@),
    ensures
        match r {
            Ok(g) => {
                &&& g.wf()
                &&& forall|k: int| 0 <= k < circuit.components@.len() ==> !#[trigger] model_missing(*circuit, model_objects@, k)
                &&& forall|j: int| 0 <= j < circuit.wires@.len() ==> !wire_is_bad(circuit.blocks@, #[trigger] circuit.wires@[j])
                &&& (g.dots@, g.edges@, g.conflicts@) == graph_of(*circuit, model_objects@)
            },
            Err(BuildError::UnknownModel(name)) => exists|k: int| {
                &&& 0 <= k < circuit.components@.len()
                &&& #[trigger] model_missing(*circuit, model_objects@, k)
                &&& forall|k2: int| 0 <= k2 < k ==> !#[trigger] model_missing(*circuit, model_objects@, k2)
                &&& name@ == circuit.components@[k].model@
            },
            Err(BuildError::InvalidRepeaterFacing(j)) => {
                &&& forall|k: int| 0 <= k < circuit.components@.len() ==> !#[trigger] model_missing(*circuit, model_objects@, k)
                &&& j < circuit.wires@.len()
                &&& wire_is_bad(circuit.blocks@, circuit.wires@[j as int])
                &&& forall|j2: int| 0 <= j2 < j ==> !wire_is_bad(circuit.blocks@, #[trigger] circuit.wires@[j2])
            },
        },
{
    let mut graph = Graph::new();
    let mut i: usize = 0;
    while i < circuit.inputs.len()
        invariant
            graph.wf(),
            i <= circuit.inputs@.len(),
            graph.dots@ == external_dots(circuit.inputs@).take(i as int),
            graph.edges@.len() == 0,
            graph.conflicts@.len() == 0,
        decreases circuit.inputs@.len() - i,
    {
        let d = Dot { pos: circuit.inputs[i].position, type_: NodeType::Output };
        graph.add_dot(d);
        assert(external_dots(circuit.inputs@).take(i as int + 1) =~= external_dots(circuit.inputs@).take(i as int).push(d));
        i = i + 1;
    }
    assert(external_dots(circuit.inputs@).take(i as int) =~= external_dots(circuit.inputs@));
    let mut c: usize = 0;
    while c < circuit.components.len()
        invariant
            graph.wf(),
            ports_fit(*circuit, model_objects@),
            c <= circuit.components@.len(),
            graph.dots@ == port_dots_upto(*circuit, model_objects@, c as int),
            graph.edges@.len() == 0,
            graph.conflicts@.len() == 0,
            forall|k: int| 0 <= k < c ==> !#[trigger] model_missing(*circuit, model_objects@, k),
        decreases circuit.components@.len() - c,
    {
        let comp = &circuit.components[c];
        match find_model(model_objects, &comp.model) {
            None => {
                assert(model_missing(*circuit, model_objects@, c as int));
                return Err(BuildError::UnknownModel(comp.model.clone()));
            },
            Some(mi) => {
                proof {
                    lemma_find_model_bounds(model_objects@, comp.model@, 0);
                }
                assert(component_fits(model_objects@, circuit.components@[c as int]));
                let model = &model_objects[mi];
                add_port_dots(&mut graph, model.get_inputs(), comp.position, NodeType::Input);
                add_port_dots(&mut graph, model.get_outputs(), comp.position, NodeType::Output);
                assert(graph.dots@ =~= port_dots_upto(*circuit, model_objects@, c as int + 1));
            },
        }
        c = c + 1;
    }
    let ghost dots0 = graph.dots@;
    let mut j: usize = 0;
    while j < circuit.wires.len()
        invariant
            graph.wf(),
            j <= circuit.wires@.len(),
            (graph.dots@, graph.edges@, graph.conflicts@) == wires_built(dots0, *circuit, j as int),
            dots0 == port_dots_upto(*circuit, model_objects@, circuit.components@.len() as int),
            forall|k: int| 0 <= k < circuit.components@.len() ==> !#[trigger] model_missing(*circuit, model_objects@, k),
            forall|j2: int| 0 <= j2 < j ==> !wire_is_bad(circuit.blocks@, #[trigger] circuit.wires@[j2]),
        decreases circuit.wires@.len() - j,
    {
        let wire = &circuit.wires[j];
        let ghost d0 = graph.dots@;
        let si = graph.find_dot_or_add(wire.start);
        let ghost d1 = graph.dots@;
        let ei = graph.find_dot_or_add(wire.end);
        proof {
            lemma_first_dot_bounds(d0, wire.start, 0);
            lemma_first_dot_bounds(d1, wire.end, 0);
        }
        match wire_edge_direct(&circuit.blocks, wire) {
            Err(_) => {
                return Err(BuildError::InvalidRepeaterFacing(j));
            },
            Ok(Some((direct, tail))) => {
                let length = wire_length(&wire.start, &wire.end);
                graph.add_edge(Edge { start: si, end: ei, length, direct, tail });
            },
            Ok(None) => {
                graph.conflicts.push(j);
            },
        }
        j = j + 1;
    }
    Ok(graph)
}

proof fn lemma_find_model_bounds(models: Seq<ModelObject>, name: Seq<char>, i: int)
    requires
        0 <= i,
    ensures
        find_model_from(models, name, i) matches Some(k) ==> i <= k < models.len() && models[k].name_view() == name,
    decreases models.len() - i,
{
    if i < models.len() && models[i].name_view() != name {
        lemma_find_model_bounds(models, name, i + 1);
    }
}

/// `a` is a prefix of `b`.
pub open spec fn extends<T>(a: Seq<T>, b: Seq<T>) -> bool {
    a.len() <= b.len() && forall|i: int| 0 <= i < a.len() ==> #[trigger] b[i] == a[i]
}

/// Where the edge of wire `k` stands in the graph's edge list: after the
/// edges of the wires before it.
pub open spec fn wire_edge_index(circuit: Circuit, models: Seq<ModelObject>, k: int) -> int {
    wires_built(port_dots_upto(circuit, models, circuit.components@.len() as int), circuit, k).1.len() as int
}

/// Some dot of `dots` lies at `p`.
pub open spec fn has_dot_at(dots: Seq<Dot>, p: Position) -> bool {
    exists|i: int| 0 <= i < dots.len() && #[trigger] dots[i].pos == p
}

proof fn lemma_with_dot(d: Seq<Dot>, p: Position)
    ensures
        extends(d, with_dot(d, p)),
        0 <= dot_index(d, p) < with_dot(d, p).len(),
        with_dot(d, p)[dot_index(d, p)].pos == p,
{
    lemma_first_dot_bounds(d, p, 0);
}

proof fn lemma_built_grows(dots0: Seq<Dot>, circuit: Circuit, k: int, kk: int)
    requires
        0 <= k <= kk <= circuit.wires@.len(),
    ensures
        extends(wires_built(dots0, circuit, k).0, wires_built(dots0, circuit, kk).0),
        extends(wires_built(dots0, circuit, k).1, wires_built(dots0, circuit, kk).1),
        extends(wires_built(dots0, circuit, k).2, wires_built(dots0, circuit, kk).2),
    decreases kk - k,
{
    if k < kk {
        lemma_built_grows(dots0, circuit, k, kk - 1);
        let st = wires_built(dots0, circuit, kk - 1);
        let w = circuit.wires@[kk - 1];
        lemma_with_dot(st.0, w.start);
        lemma_with_dot(with_dot(st.0, w.start), w.end);
        let a = wires_built(dots0, circuit, k);
        let b = wires_built(dots0, circuit, kk);
        assert forall|i: int| 0 <= i < a.0.len() implies #[trigger] b.0[i] == a.0[i] by {
            assert(st.0[i] == a.0[i]);
            assert(with_dot(st.0, w.start)[i] == st.0[i]);
        };
        assert forall|i: int| 0 <= i < a.1.len() implies #[trigger] b.1[i] == a.1[i] by {
            assert(st.1[i] == a.1[i]);
        };
        assert forall|i: int| 0 <= i < a.2.len() implies #[trigger] b.2[i] == a.2[i] by {
            assert(st.2[i] == a.2[i]);
        };
    }
}

proof fn lemma_wire_in_graph(circuit: Circuit, models: Seq<ModelObject>, k: int)
    requires
        0 <= k < circuit.wires@.len(),
        graph_of(circuit, models).0.len() <= usize::MAX,
    ensures
        has_dot_at(graph_of(circuit, models).0, circuit.wires@[k].start),
        has_dot_at(graph_of(circuit, models).0, circuit.wires@[k].end),
        wire_direction(circuit.blocks@, circuit.wires@[k]) matches Some(d) ==> {
            let g = graph_of(circuit, models);
            let e = g.1[wire_edge_index(circuit, models, k)];
            &&& wire_edge_index(circuit, models, k) < g.1.len()
            &&& e.direct == d
            &&& e.length == manhattan(circuit.wires@[k].start, circuit.wires@[k].end)
            &&& e.start < g.0.len() && g.0[e.start as int].pos == circuit.wires@[k].start
            &&& e.end < g.0.len() && g.0[e.end as int].pos == circuit.wires@[k].end
        },
        wire_direction(circuit.blocks@, circuit.wires@[k]) is None ==> {
            &&& graph_of(circuit, models).2.contains(k as usize)
            &&& wires_built(port_dots_upto(circuit, models, circuit.components@.len() as int), circuit, k + 1).1
                == wires_built(port_dots_upto(circuit, models, circuit.components@.len() as int), circuit, k).1
        },
{
    let dots0 = port_dots_upto(circuit, models, circuit.components@.len() as int);
    let nw = circuit.wires@.len() as int;
    let st = wires_built(dots0, circuit, k);
    let next = wires_built(dots0, circuit, k + 1);
    let g = graph_of(circuit, models);
    let w = circuit.wires@[k];
    lemma_built_grows(dots0, circuit, k + 1, nw);
    let d1 = with_dot(st.0, w.start);
    let si = dot_index(st.0, w.start);
    let ei = dot_index(d1, w.end);
    lemma_with_dot(st.0, w.start);
    lemma_with_dot(d1, w.end);
    assert(next.0 == with_dot(d1, w.end));
    assert(next.0[si] == d1[si]);
    assert(g.0[si] == next.0[si]);
    assert(g.0[ei] == next.0[ei]);
    assert(has_dot_at(g.0, w.start));
    assert(has_dot_at(g.0, w.end));
    match wire_direction(circuit.blocks@, w) {
        Some(d) => {
            assert(g.1[st.1.len() as int] == next.1[st.1.len() as int]);
            assert(next.1[st.1.len() as int] == Edge {
                start: si as usize,
                end: ei as usize,
                length: manhattan(w.start, w.end) as u64,
                direct: d,
                tail: wire_tail(circuit.blocks@, w) as u64,
            });
            assert(si < g.0.len() && ei < g.0.len());
        },
        None => {
            assert(g.2[st.2.len() as int] == next.2[st.2.len() as int]);
        },
    }
}

/// A wire with no repeater on any of its points gives, in the circuit's
/// graph, a bidirectional edge of the wire's length between dots at its two
/// ends, and is not recorded as a conflict.
pub proof fn lemma_plain_wire_bidirectional(circuit: Circuit, models: Seq<ModelObject>, k: int)
    requires
        0 <= k < circuit.wires@.len(),
        graph_of(circuit, models).0.len() <= usize::MAX,
        forall|i: int| 0 <= i <= wire_steps(circuit.wires@[k].start, circuit.wires@[k].end)
            ==> (#[trigger] repeater_facing_at(circuit.blocks@, wire_point(circuit.wires@[k].start, circuit.wires@[k].end, i))) is None,
    ensures
        wire_direction(circuit.blocks@, circuit.wires@[k]) == Some(EdgeDirect::Bidirectional),
        wire_edge_index(circuit, models, k) < graph_of(circuit, models).1.len(),
        graph_of(circuit, models).1[wire_edge_index(circuit, models, k)].direct == EdgeDirect::Bidirectional,
        graph_of(circuit, models).1[wire_edge_index(circuit, models, k)].length == manhattan(circuit.wires@[k].start, circuit.wires@[k].end),
        graph_of(circuit, models).0[graph_of(circuit, models).1[wire_edge_index(circuit, models, k)].start as int].pos == circuit.wires@[k].start,
        graph_of(circuit, models).0[graph_of(circuit, models).1[wire_edge_index(circuit, models, k)].end as int].pos == circuit.wires@[k].end,
{
    let w = circuit.wires@[k];
    let blocks = circuit.blocks@;
    assert forall|i: int| 0 <= i <= wire_steps(w.start, w.end) implies #[trigger] wire_repeater_at(blocks, w, i) is None by {
        assert(repeater_facing_at(blocks, wire_point(w.start, w.end, i)) is None);
    };
    lemma_wire_in_graph(circuit, models, k);
}

/// A wire whose repeaters all lie the same way `rd` (at least one) gives,
/// in the circuit's graph, an edge of the matching direction between dots at
/// its ends: non-reversed for forward repeaters, reversed for backward ones.
pub proof fn lemma_agreeing_repeaters(circuit: Circuit, models: Seq<ModelObject>, k: int, rd: RepeaterDirection)
    requires
        0 <= k < circuit.wires@.len(),
        graph_of(circuit, models).0.len() <= usize::MAX,
        wire_has(circuit.blocks@, circuit.wires@[k], rd),
        !wire_has(circuit.blocks@, circuit.wires@[k], if rd == RepeaterDirection::Forward { RepeaterDirection::Backward } else { RepeaterDirection::Forward }),
    ensures
        wire_edge_index(circuit, models, k) < graph_of(circuit, models).1.len(),
        graph_of(circuit, models).1[wire_edge_index(circuit, models, k)].direct
            == (if rd == RepeaterDirection::Forward { EdgeDirect::Nonreversed } else { EdgeDirect::Reversed }),
        graph_of(circuit, models).0[graph_of(circuit, models).1[wire_edge_index(circuit, models, k)].start as int].pos == circuit.wires@[k].start,
        graph_of(circuit, models).0[graph_of(circuit, models).1[wire_edge_index(circuit, models, k)].end as int].pos == circuit.wires@[k].end,
{
    lemma_wire_in_graph(circuit, models, k);
}

/// A wire with repeaters lying both ways gives no edge: building it adds
/// none, its index is recorded as a conflict, and dots at its ends remain.
pub proof fn lemma_opposing_repeaters(circuit: Circuit, models: Seq<ModelObject>, k: int)
    requires
        0 <= k < circuit.wires@.len(),
        graph_of(circuit, models).0.len() <= usize::MAX,
        wire_has(circuit.blocks@, circuit.wires@[k], RepeaterDirection::Forward),
        wire_has(circuit.blocks@, circuit.wires@[k], RepeaterDirection::Backward),
    ensures
        wire_direction(circuit.blocks@, circuit.wires@[k]) is None,
        graph_of(circuit, models).2.contains(k as usize),
        wire_edge_index(circuit, models, k + 1) == wire_edge_index(circuit, models, k),
        has_dot_at(graph_of(circuit, models).0, circuit.wires@[k].start),
        has_dot_at(graph_of(circuit, models).0, circuit.wires@[k].end),
{
    lemma_wire_in_graph(circuit, models, k);
}

} // verus!
