//! Single-shot signal propagation through the blocks of one component.

use vstd::prelude::*;
use mc_schem::Region;
use mc_schem::region::WorldSlice;
use vstd::arithmetic::div_mod::lemma_fundamental_div_mod_converse;
use crate::geometry::{Position, unit_offset};
use crate::direction::{GlobalDirection, direction_named, offset_direction, opposite_of};
use crate::circuit::{ComponentModelObject, Port};
use crate::text::{has_substring, str_contains};

verus! {

/// For one block, which incoming directions have already set its level.
#[derive(Debug, Clone, Copy, PartialEq, Eq, Structural)]
pub struct CalcRecord {
    pub north: bool,
    pub south: bool,
    pub west: bool,
    pub east: bool,
    pub up: bool,
    pub down: bool,
}

/// The flag of `r` for direction `d`.
pub open spec fn flag_of(r: CalcRecord, d: GlobalDirection) -> bool {
    match d {
        GlobalDirection::North => r.north,
        GlobalDirection::South => r.south,
        GlobalDirection::West => r.west,
        GlobalDirection::East => r.east,
        GlobalDirection::Up => r.up,
        GlobalDirection::Down => r.down,
    }
}

/// `r` with the flag for `d` set to `v`.
pub open spec fn with_flag(r: CalcRecord, d: GlobalDirection, v: bool) -> CalcRecord {
    match d {
        GlobalDirection::North => CalcRecord { north: v, ..r },
        GlobalDirection::South => CalcRecord { south: v, ..r },
        GlobalDirection::West => CalcRecord { west: v, ..r },
        GlobalDirection::East => CalcRecord { east: v, ..r },
        GlobalDirection::Up => CalcRecord { up: v, ..r },
        GlobalDirection::Down => CalcRecord { down: v, ..r },
    }
}

/// The record with no direction set.
pub open spec fn blank_record() -> CalcRecord {
    CalcRecord { north: false, south: false, west: false, east: false, up: false, down: false }
}

impl CalcRecord {
    /// A record with no direction set.
    pub fn new() -> (r: CalcRecord)
        ensures
            r == blank_record(),
    {
        CalcRecord { north: false, south: false, west: false, east: false, up: false, down: false }
    }

    /// Whether the level has been set from `direction`.
    pub fn get_direct_result(&self, direction: GlobalDirection) -> (r: bool)
        ensures
            r == flag_of(*self, direction),
    {
        match direction {
            GlobalDirection::North => self.north,
            GlobalDirection::South => self.south,
            GlobalDirection::West => self.west,
            GlobalDirection::East => self.east,
            GlobalDirection::Up => self.up,
            GlobalDirection::Down => self.down,
        }
    }

    /// Records whether the level has been set from `direction`.
    pub fn set_direct_result(&mut self, direction: GlobalDirection, result: bool)
        ensures
            *final(self) == with_flag(*old(self), direction, result),
    {
        match direction {
            GlobalDirection::North => self.north = result,
            GlobalDirection::South => self.south = result,
            GlobalDirection::West => self.west = result,
            GlobalDirection::East => self.east = result,
            GlobalDirection::Up => self.up = result,
            GlobalDirection::Down => self.down = result,
        }
    }
}

#[verifier::external_type_specification]
#[verifier::external_body]
pub struct ExRegion(Region);

/// The global position of a region's origin.
pub uninterp spec fn region_offset(r: Region) -> Seq<i32>;

/// A region's extent along x, y and z.
pub uninterp spec fn region_shape(r: Region) -> Seq<i32>;

/// The palette index stored at each position inside a region, relative to
/// its origin (positions outside the region's shape are not read).
pub uninterp spec fn region_indices(r: Region) -> Map<(i32, i32, i32), u16>;

/// A region's palette: the identity and `facing` attribute of each block.
pub uninterp spec fn region_palette(r: Region) -> Seq<(Seq<char>, Option<Seq<char>>)>;

/// The position with the three coordinates of `rel`.
pub open spec fn key_of(rel: Seq<i32>) -> (i32, i32, i32) {
    (rel[0], rel[1], rel[2])
}

/// The characters of an optional string.
pub open spec fn text_view(s: Option<String>) -> Option<Seq<char>> {
    match s {
        Some(f) => Some(f@),
        None => None,
    }
}

/// Relies on the field `Region::offset`: the global position of the origin.
#[verifier::external_body]
fn offset_of(r: &Region) -> (res: [i32; 3])
    ensures
        res@ == region_offset(*r),
{
    r.offset
}

/// Relies on `WorldSlice::shape` for `Region`: its extent along x, y and z.
#[verifier::external_body]
fn shape_of(r: &Region) -> (res: [i32; 3])
    ensures
        res@ == region_shape(*r),
{
    r.shape()
}

/// Relies on `WorldSlice::block_index_at` for `Region`: inside the region's
/// shape it gives the palette index stored at the relative position.
#[verifier::external_body]
fn block_index_at(r: &Region, rel: [i32; 3]) -> (res: Option<u16>)
    requires
        0 <= rel[0] < region_shape(*r)[0],
        0 <= rel[1] < region_shape(*r)[1],
        0 <= rel[2] < region_shape(*r)[2],
    ensures
        res == Some(region_indices(*r)[key_of(rel@)]),
{
    r.block_index_at(rel)
}

/// Relies on `Vec::len` of the field `Region::palette`.
#[verifier::external_body]
fn palette_len(r: &Region) -> (res: usize)
    ensures
        res == region_palette(*r).len(),
{
    r.palette.len()
}

/// Relies on indexing the field `Region::palette`: the block's identity and
/// its `facing` attribute.
#[verifier::external_body]
fn palette_block(r: &Region, i: usize) -> (res: (String, Option<String>))
    requires
        i < region_palette(*r).len(),
    ensures
        res.0@ == region_palette(*r)[i as int].0,
        text_view(res.1) == region_palette(*r)[i as int].1,
{
    let b = &r.palette[i];
    (b.id.clone(), b.attributes.get("facing").cloned())
}

/// The relative position in a region of the global position `k`.
pub open spec fn relative_key(r: Region, k: (i32, i32, i32)) -> (i32, i32, i32) {
    ((k.0 - region_offset(r)[0]) as i32, (k.1 - region_offset(r)[1]) as i32, (k.2 - region_offset(r)[2]) as i32)
}

/// The region covers the global position `k` and stores there a valid
/// palette index.
pub open spec fn region_holds(r: Region, k: (i32, i32, i32)) -> bool {
    &&& 0 <= k.0 - region_offset(r)[0] < region_shape(r)[0]
    &&& 0 <= k.1 - region_offset(r)[1] < region_shape(r)[1]
    &&& 0 <= k.2 - region_offset(r)[2] < region_shape(r)[2]
    &&& region_indices(r)[relative_key(r, k)] < region_palette(r).len()
}

/// What a region holds, by global position: identity and facing.
pub open spec fn region_blocks(r: Region) -> Blocks {
    Map::new(|k: (i32, i32, i32)| region_holds(r, k), |k: (i32, i32, i32)| region_palette(r)[region_indices(r)[relative_key(r, k)] as int])
}

/// The block of `content` at `pos`, if the region covers it.
fn block_at(content: &Region, off: &[i32; 3], shape: &[i32; 3], pos: Position) -> (r: Option<(String, Option<String>)>)
    requires
        off@ == region_offset(*content),
        shape@ == region_shape(*content),
    ensures
        match r {
            None => !region_blocks(*content).contains_key((pos.x, pos.y, pos.z)),
            Some((id, facing)) => {
                &&& region_blocks(*content).contains_key((pos.x, pos.y, pos.z))
                &&& region_blocks(*content)[(pos.x, pos.y, pos.z)] == (id@, match facing {
                    Some(f) => Some(f@),
                    None => None::<Seq<char>>,
                })
            },
        },
{
    let rx: i64 = pos.x as i64 - off[0] as i64;
    let ry: i64 = pos.y as i64 - off[1] as i64;
    let rz: i64 = pos.z as i64 - off[2] as i64;
    if rx < 0 || rx >= shape[0] as i64 || ry < 0 || ry >= shape[1] as i64 || rz < 0 || rz >= shape[2] as i64 {
        return None;
    }
    let rel = [rx as i32, ry as i32, rz as i32];
    match block_index_at(content, rel) {
        Some(i) => {
            if (i as usize) < palette_len(content) {
                Some(palette_block(content, i as usize))
            } else {
                None
            }
        },
        None => None,
    }
}

/// Why a simulation could not start.
#[derive(Debug, Clone)]
pub enum SimError {
    /// An assigned input names no input port of the model.
    UnknownPort(String),
    /// The lattice that the content and the ports span has more cells than
    /// memory can index.
    TooLarge,
}

/// The content that the simulation reads: identity and facing by position.
pub type Blocks = Map<(i32, i32, i32), (Seq<char>, Option<Seq<char>>)>;

/// Levels and direction records of every cell of the model's volume, and
/// the positions still to visit.
pub type SimState = (Seq<i32>, Seq<CalcRecord>, Seq<Position>);

/// The full signal level.
pub const MAX_POWER: i32 = 15;

/// A box of the lattice: its lowest corner (x, y, z) and its extent along
/// each axis.
pub type SimBox = (int, int, int, int, int, int);

/// The point (x, y, z) lies in the box.
pub open spec fn in_box3(size: SimBox, x: int, y: int, z: int) -> bool {
    size.0 <= x < size.0 + size.3 && size.1 <= y < size.1 + size.4 && size.2 <= z < size.2 + size.5
}

/// `p` lies in the box.
pub open spec fn in_box(size: SimBox, p: Position) -> bool {
    in_box3(size, p.x as int, p.y as int, p.z as int)
}

/// The cell of `p` in the box.
pub open spec fn box_index(size: SimBox, p: Position) -> int {
    ((p.x - size.0) * size.4 + (p.y - size.1)) * size.5 + (p.z - size.2)
}

/// The number of cells of the box.
pub open spec fn box_volume(size: SimBox) -> int {
    size.3 * size.4 * size.5
}

/// A block that regenerates the signal to full power.
pub open spec fn is_amplifier_id(id: Seq<char>) -> bool {
    has_substring(id, "repeater"@) || has_substring(id, "torch"@) || has_substring(id, "redstone_block"@)
}

/// Signal travelling in direction `travel` may enter the block: a glass
/// block never; a repeater only through its input face, against its facing;
/// any other block always.
pub open spec fn conducts(block: (Seq<char>, Option<Seq<char>>), travel: GlobalDirection) -> bool {
    if has_substring(block.0, "glass"@) {
        false
    } else if has_substring(block.0, "repeater"@) {
        match block.1 {
            Some(f) => direction_named(f) == Some(opposite_of(travel)),
            None => false,
        }
    } else {
        true
    }
}

/// The `k`-th neighbour of `p` lies in the box.
pub open spec fn neighbor_inside(size: SimBox, p: Position, k: int) -> bool {
    in_box3(size, p.x + unit_offset(k).0, p.y + unit_offset(k).1, p.z + unit_offset(k).2)
}

/// The `k`-th neighbour of `p`.
pub open spec fn neighbor(p: Position, k: int) -> Position {
    Position { x: (p.x + unit_offset(k).0) as i32, y: (p.y + unit_offset(k).1) as i32, z: (p.z + unit_offset(k).2) as i32 }
}

/// The larger of two integers.
pub open spec fn max_int(a: int, b: int) -> int {
    if a >= b { a } else { b }
}

/// Propagation from `p` to its `k`-th neighbour `n`, when `n` lies in the
/// box, holds a block that conducts signal arriving that way, and has not
/// yet been reached that way: `n` takes full power if it is an amplifier,
/// else one less than `p` (not below zero), unless it already holds more;
/// the direction is recorded and `n` is queued.
pub open spec fn relax_dir(size: SimBox, blocks: Blocks, st: SimState, p: Position, k: int) -> SimState {
    let n = neighbor(p, k);
    let dir = offset_direction(k);
    let key = (n.x, n.y, n.z);
    let i = box_index(size, n);
    if neighbor_inside(size, p, k) && blocks.contains_key(key) && conducts(blocks[key], dir) && !flag_of(st.1[i], dir) {
        let cand = if is_amplifier_id(blocks[key].0) {
            MAX_POWER as int
        } else {
            max_int(st.0[box_index(size, p)] - 1, 0)
        };
        (st.0.update(i, max_int(st.0[i] as int, cand) as i32), st.1.update(i, with_flag(st.1[i], dir, true)), st.2.push(n))
    } else {
        st
    }
}

/// Propagation from `p` to its first `k` neighbours, in order.
pub open spec fn relax_upto(size: SimBox, blocks: Blocks, st: SimState, p: Position, k: int) -> SimState
    decreases k,
{
    if k <= 0 {
        st
    } else {
        relax_dir(size, blocks, relax_upto(size, blocks, st, p, k - 1), p, k - 1)
    }
}

/// One step: take the last queued position and propagate from it to all
/// six neighbours. A state with nothing queued is final.
pub open spec fn sim_step(size: SimBox, blocks: Blocks, st: SimState) -> SimState {
    if st.2.len() == 0 {
        st
    } else {
        relax_upto(size, blocks, (st.0, st.1, st.2.drop_last()), st.2.last(), 6)
    }
}

/// `fuel` steps from `st`.
pub open spec fn sim_run(size: SimBox, blocks: Blocks, st: SimState, fuel: nat) -> SimState
    decreases fuel,
{
    if fuel == 0 {
        st
    } else {
        sim_run(size, blocks, sim_step(size, blocks, st), (fuel - 1) as nat)
    }
}

/// The number of unset direction flags of a record.
pub open spec fn count_unset(r: CalcRecord) -> int {
    (if r.north { 0int } else { 1int }) + (if r.south { 0int } else { 1int }) + (if r.west { 0int } else { 1int })
        + (if r.east { 0int } else { 1int }) + (if r.up { 0int } else { 1int }) + (if r.down { 0int } else { 1int })
}

/// The number of unset direction flags over all records.
pub open spec fn unmarked(flags: Seq<CalcRecord>) -> int
    decreases flags.len(),
{
    if flags.len() == 0 {
        0
    } else {
        unmarked(flags.drop_last()) + count_unset(flags.last())
    }
}

/// What bounds the remaining work: each step sets one more flag for each
/// position that it queues, and takes one position off the queue.
pub open spec fn sim_measure(st: SimState) -> int {
    unmarked(st.1) + st.2.len()
}

/// The first index at or after `j` of a port named `name`.
pub open spec fn find_port_from(ports: Seq<Port>, name: Seq<char>, j: int) -> Option<int>
    decreases ports.len() - j,
{
    if j < 0 || j >= ports.len() {
        None
    } else if ports[j].name@ == name {
        Some(j)
    } else {
        find_port_from(ports, name, j + 1)
    }
}

/// The state before propagation, after the first `i` assignments: each
/// assigned input port inside the box takes its level, a later assignment to
/// the same position winning, and is queued.
pub open spec fn seed_state(size: SimBox, ports: Seq<Port>, inputs: Seq<(String, i32)>, i: int) -> SimState
    decreases i,
{
    if i <= 0 {
        (Seq::new(box_volume(size) as nat, |c: int| 0i32), Seq::new(box_volume(size) as nat, |c: int| blank_record()), Seq::empty())
    } else {
        let st = seed_state(size, ports, inputs, i - 1);
        match find_port_from(ports, inputs[i - 1].0@, 0) {
            Some(j) => if in_box(size, ports[j].position) {
                (st.0.update(box_index(size, ports[j].position), inputs[i - 1].1), st.1, st.2.push(ports[j].position))
            } else {
                st
            },
            None => st,
        }
    }
}

/// The state in which propagation ends.
pub open spec fn simulated(size: SimBox, ports: Seq<Port>, inputs: Seq<(String, i32)>, blocks: Blocks) -> SimState {
    let init = seed_state(size, ports, inputs, inputs.len() as int);
    sim_run(size, blocks, init, sim_measure(init) as nat)
}

/// The level that a final state gives at `p`: zero outside the box.
pub open spec fn level_at(size: SimBox, st: SimState, p: Position) -> i32 {
    if in_box(size, p) {
        st.0[box_index(size, p)]
    } else {
        0
    }
}

/// The box lies within the `i32` lattice and has a volume that memory can
/// index.
pub open spec fn volume_fits(size: SimBox) -> bool {
    &&& size.3 >= 0 && size.4 >= 0 && size.5 >= 0
    &&& i32::MIN <= size.0 && size.0 + size.3 <= i32::MAX + 1
    &&& i32::MIN <= size.1 && size.1 + size.4 <= i32::MAX + 1
    &&& i32::MIN <= size.2 && size.2 + size.5 <= i32::MAX + 1
    &&& box_volume(size) <= usize::MAX
}

/// A state of the box: one level in 0..=15 and one record per cell, and
/// only positions inside the box queued.
pub open spec fn state_wf(size: SimBox, st: SimState) -> bool {
    &&& st.0.len() == box_volume(size)
    &&& st.1.len() == box_volume(size)
    &&& forall|c: int| 0 <= c < st.0.len() ==> 0 <= #[trigger] st.0[c] <= MAX_POWER
    &&& forall|w: int| 0 <= w < st.2.len() ==> in_box(size, #[trigger] st.2[w])
}

proof fn lemma_box_index(size: SimBox, p: Position)
    requires
        volume_fits(size),
        in_box(size, p),
    ensures
        0 <= box_index(size, p) < box_volume(size),
{
    let (a, b, c) = (size.3, size.4, size.5);
    let (x, y, z) = (p.x - size.0, p.y - size.1, p.z - size.2);
    assert(0 <= x * b + y < a * b) by (nonlinear_arith)
        requires 0 <= x < a, 0 <= y < b;
    assert(0 <= (x * b + y) * c + z < (a * b) * c) by (nonlinear_arith)
        requires 0 <= x * b + y < a * b, 0 <= z < c;
}

proof fn lemma_unmarked_update(flags: Seq<CalcRecord>, i: int, r: CalcRecord)
    requires
        0 <= i < flags.len(),
    ensures
        unmarked(flags.update(i, r)) == unmarked(flags) - count_unset(flags[i]) + count_unset(r),
    decreases flags.len(),
{
    let u = flags.update(i, r);
    if i == flags.len() - 1 {
        assert(u.drop_last() =~= flags.drop_last());
    } else {
        assert(u.drop_last() =~= flags.drop_last().update(i, r));
        lemma_unmarked_update(flags.drop_last(), i, r);
    }
}

proof fn lemma_unmarked_nonneg(flags: Seq<CalcRecord>)
    ensures
        unmarked(flags) >= 0,
    decreases flags.len(),
{
    if flags.len() > 0 {
        lemma_unmarked_nonneg(flags.drop_last());
    }
}

proof fn lemma_neighbor_inside(size: SimBox, p: Position, k: int)
    requires
        volume_fits(size),
        neighbor_inside(size, p, k),
    ensures
        in_box(size, neighbor(p, k)),
        neighbor(p, k).x == p.x + unit_offset(k).0,
        neighbor(p, k).y == p.y + unit_offset(k).1,
        neighbor(p, k).z == p.z + unit_offset(k).2,
{
}

proof fn lemma_relax_dir(size: SimBox, blocks: Blocks, st: SimState, p: Position, k: int)
    requires
        volume_fits(size),
        state_wf(size, st),
        in_box(size, p),
        0 <= k < 6,
    ensures
        state_wf(size, relax_dir(size, blocks, st, p, k)),
        sim_measure(relax_dir(size, blocks, st, p, k)) == sim_measure(st),
        forall|c: int| 0 <= c < st.0.len() ==> #[trigger] relax_dir(size, blocks, st, p, k).0[c] >= st.0[c],
{
    let n = neighbor(p, k);
    let dir = offset_direction(k);
    let i = box_index(size, n);
    lemma_box_index(size, p);
    if neighbor_inside(size, p, k) {
        lemma_neighbor_inside(size, p, k);
        lemma_box_index(size, n);
        if !flag_of(st.1[i], dir) {
            lemma_unmarked_update(st.1, i, with_flag(st.1[i], dir, true));
        }
    }
    let r = relax_dir(size, blocks, st, p, k);
    assert forall|w: int| 0 <= w < r.2.len() implies in_box(size, #[trigger] r.2[w]) by {
        if w < st.2.len() {
            assert(r.2[w] == st.2[w]);
        }
    };
}

proof fn lemma_relax_upto(size: SimBox, blocks: Blocks, st: SimState, p: Position, k: int)
    requires
        volume_fits(size),
        state_wf(size, st),
        in_box(size, p),
        0 <= k <= 6,
    ensures
        state_wf(size, relax_upto(size, blocks, st, p, k)),
        sim_measure(relax_upto(size, blocks, st, p, k)) == sim_measure(st),
        forall|c: int| 0 <= c < st.0.len() ==> #[trigger] relax_upto(size, blocks, st, p, k).0[c] >= st.0[c],
    decreases k,
{
    if k > 0 {
        lemma_relax_upto(size, blocks, st, p, k - 1);
        lemma_relax_dir(size, blocks, relax_upto(size, blocks, st, p, k - 1), p, k - 1);
    }
}

proof fn lemma_step(size: SimBox, blocks: Blocks, st: SimState)
    requires
        volume_fits(size),
        state_wf(size, st),
    ensures
        state_wf(size, sim_step(size, blocks, st)),
        st.2.len() > 0 ==> sim_measure(sim_step(size, blocks, st)) == sim_measure(st) - 1,
        forall|c: int| 0 <= c < st.0.len() ==> #[trigger] sim_step(size, blocks, st).0[c] >= st.0[c],
{
    if st.2.len() > 0 {
        let popped = (st.0, st.1, st.2.drop_last());
        assert(in_box(size, st.2[st.2.len() - 1]));
        lemma_relax_upto(size, blocks, popped, st.2.last(), 6);
    }
}

proof fn lemma_run_succ(size: SimBox, blocks: Blocks, st: SimState, f: nat)
    ensures
        sim_run(size, blocks, st, f + 1) == sim_step(size, blocks, sim_run(size, blocks, st, f)),
    decreases f,
{
    let next = sim_step(size, blocks, st);
    assert(sim_run(size, blocks, st, f + 1) == sim_run(size, blocks, next, f));
    if f > 0 {
        lemma_run_succ(size, blocks, next, (f - 1) as nat);
        assert(sim_run(size, blocks, st, f) == sim_run(size, blocks, next, (f - 1) as nat));
        assert(((f - 1) as nat + 1) as nat == f);
    }
}

proof fn lemma_run_add(size: SimBox, blocks: Blocks, st: SimState, a: nat, b: nat)
    ensures
        sim_run(size, blocks, st, a + b) == sim_run(size, blocks, sim_run(size, blocks, st, a), b),
    decreases a,
{
    if a > 0 {
        lemma_run_add(size, blocks, sim_step(size, blocks, st), (a - 1) as nat, b);
        assert((a + b - 1) as nat == ((a - 1) as nat + b) as nat);
    }
}

proof fn lemma_run_idle(size: SimBox, blocks: Blocks, st: SimState, f: nat)
    requires
        st.2.len() == 0,
    ensures
        sim_run(size, blocks, st, f) == st,
    decreases f,
{
    if f > 0 {
        lemma_run_idle(size, blocks, st, (f - 1) as nat);
    }
}

/// The box of the lattice that a simulation covers.
#[derive(Clone, Copy)]
struct Bounds {
    x0: i64,
    y0: i64,
    z0: i64,
    nx: i64,
    ny: i64,
    nz: i64,
}

impl Bounds {
    spec fn frame(&self) -> SimBox {
        (self.x0 as int, self.y0 as int, self.z0 as int, self.nx as int, self.ny as int, self.nz as int)
    }
}

fn cell_index(size: &Bounds, p: Position) -> (r: usize)
    requires
        volume_fits(size.frame()),
        in_box(size.frame(), p),
    ensures
        r == box_index(size.frame(), p),
        r < box_volume(size.frame()),
{
    let ghost sz = size.frame();
    let x = (p.x as i64 - size.x0) as usize;
    let y = (p.y as i64 - size.y0) as usize;
    let z = (p.z as i64 - size.z0) as usize;
    proof {
        lemma_box_index(sz, p);
        let (a, b, c) = (sz.3, sz.4, sz.5);
        let (xi, yi, zi) = (x as int, y as int, z as int);
        assert(a * b <= a * b * c) by (nonlinear_arith)
            requires 0 <= a, 0 <= b, 1 <= c;
        assert(b <= a * b && c <= a * b * c) by (nonlinear_arith)
            requires 1 <= a, 1 <= b, 1 <= c;
        assert(0 <= xi * b + yi < a * b) by (nonlinear_arith)
            requires 0 <= xi < a, 0 <= yi < b;
        assert(0 <= xi * b <= xi * b + yi) by (nonlinear_arith)
            requires 0 <= xi, 0 <= b, 0 <= yi;
        assert(0 <= (xi * b + yi) * c <= (xi * b + yi) * c + zi) by (nonlinear_arith)
            requires 0 <= xi * b + yi, 0 <= c, 0 <= zi;
    }
    let b = size.ny as usize;
    let c = size.nz as usize;
    (x * b + y) * c + z
}

fn inside(size: &Bounds, p: Position) -> (r: bool)
    requires
        volume_fits(size.frame()),
    ensures
        r == in_box(size.frame(), p),
{
    size.x0 <= p.x as i64 && (p.x as i64) < size.x0 + size.nx && size.y0 <= p.y as i64 && (p.y as i64) < size.y0 + size.ny
        && size.z0 <= p.z as i64 && (p.z as i64) < size.z0 + size.nz
}

fn is_amplifier(id: &String) -> (r: bool)
    ensures
        r == is_amplifier_id(id@),
{
    str_contains(id.as_str(), "repeater") || str_contains(id.as_str(), "torch") || str_contains(id.as_str(), "redstone_block")
}

/// Whether signal travelling in `power_source` may enter a block with this
/// identity and facing.
pub fn redstone_propagatable(id: &String, facing: &Option<String>, power_source: GlobalDirection) -> (r: bool)
    ensures
        r == conducts((id@, match facing { Some(f) => Some(f@), None => None::<Seq<char>> }), power_source),
{
    if str_contains(id.as_str(), "glass") {
        false
    } else if str_contains(id.as_str(), "repeater") {
        match facing {
            Some(f) => match GlobalDirection::parse(f.as_str()) {
                Ok(g) => g == power_source.opposite(),
                Err(_) => false,
            },
            None => false,
        }
    } else {
        true
    }
}

fn neighbor_in(size: &Bounds, p: Position, k: usize) -> (r: Option<Position>)
    requires
        k < 6,
        volume_fits(size.frame()),
    ensures
        r is Some <==> neighbor_inside(size.frame(), p, k as int),
        r matches Some(n) ==> n == neighbor(p, k as int),
{
    let (dx, dy, dz): (i64, i64, i64) = if k == 0 {
        (1, 0, 0)
    } else if k == 1 {
        (-1, 0, 0)
    } else if k == 2 {
        (0, 1, 0)
    } else if k == 3 {
        (0, -1, 0)
    } else if k == 4 {
        (0, 0, 1)
    } else {
        (0, 0, -1)
    };
    let x = p.x as i64 + dx;
    let y = p.y as i64 + dy;
    let z = p.z as i64 + dz;
    if size.x0 <= x && x < size.x0 + size.nx && size.y0 <= y && y < size.y0 + size.ny && size.z0 <= z && z < size.z0 + size.nz {
        Some(Position { x: x as i32, y: y as i32, z: z as i32 })
    } else {
        None
    }
}

fn relax_toward(
    size: &Bounds,
    content: &Region,
    off: &[i32; 3],
    shape: &[i32; 3],
    levels: &mut Vec<i32>,
    flags: &mut Vec<CalcRecord>,
    work: &mut Vec<Position>,
    p: Position,
    k: usize,
)
    requires
        volume_fits(size.frame()),
        off@ == region_offset(*content),
        shape@ == region_shape(*content),
        state_wf(size.frame(), (old(levels)@, old(flags)@, old(work)@)),
        in_box(size.frame(), p),
        k < 6,
    ensures
        (final(levels)@, final(flags)@, final(work)@) == relax_dir(size.frame(), region_blocks(*content), (old(levels)@, old(flags)@, old(work)@), p, k as int),
{
    let ghost st = (levels@, flags@, work@);
    proof {
        lemma_box_index(size.frame(), p);
    }
    let n = match neighbor_in(size, p, k) {
        Some(n) => n,
        None => {
            return;
        },
    };
    proof {
        lemma_neighbor_inside(size.frame(), p, k as int);
    }
    let dir = GlobalDirection::of_offset(k);
    let i = cell_index(size, n);
    let blk = block_at(content, off, shape, n);
    match blk {
        None => {},
        Some((id, facing)) => {
            if redstone_propagatable(&id, &facing, dir) && !flags[i].get_direct_result(dir) {
                let pi = cell_index(size, p);
                let cand: i32 = if is_amplifier(&id) {
                    MAX_POWER
                } else if levels[pi] > 0 {
                    levels[pi] - 1
                } else {
                    0
                };
                let old_level = levels[i];
                let lvl = if old_level >= cand { old_level } else { cand };
                levels.set(i, lvl);
                let mut rec = flags[i];
                rec.set_direct_result(dir, true);
                flags.set(i, rec);
                work.push(n);
            }
        },
    }
}

fn find_port(ports: &Vec<Port>, name: &String) -> (r: Option<usize>)
    ensures
        r matches Some(j) ==> find_port_from(ports@, name@, 0) == Some(j as int),
        r is None ==> find_port_from(ports@, name@, 0) is None,
{
    let mut j: usize = 0;
    while j < ports.len()
        invariant
            j <= ports@.len(),
            find_port_from(ports@, name@, 0) == find_port_from(ports@, name@, j as int),
        decreases ports@.len() - j,
    {
        if ports[j].name == *name {
            return Some(j);
        }
        j = j + 1;
    }
    None
}

proof fn lemma_find_port_bounds(ports: Seq<Port>, name: Seq<char>, j: int)
    requires
        0 <= j,
    ensures
        find_port_from(ports, name, j) matches Some(k) ==> j <= k < ports.len(),
    decreases ports.len() - j,
{
    if j < ports.len() && ports[j].name@ != name {
        lemma_find_port_bounds(ports, name, j + 1);
    }
}

/// An assigned input names no input port of the model.
pub open spec fn input_missing(ports: Seq<Port>, inputs: Seq<(String, i32)>, i: int) -> bool {
    find_port_from(ports, inputs[i].0@, 0) is None
}

/// Coordinate `a` (0 for x, 1 for y, 2 for z) of `p`.
pub open spec fn coord(p: Position, a: int) -> int {
    if a == 0 {
        p.x as int
    } else if a == 1 {
        p.y as int
    } else {
        p.z as int
    }
}

/// The smaller of two integers.
pub open spec fn min_int(a: int, b: int) -> int {
    if a <= b { a } else { b }
}

/// The least of `init` and coordinate `a` of the first `k` ports.
pub open spec fn ports_lo(ports: Seq<Port>, a: int, k: int, init: int) -> int
    decreases k,
{
    if k <= 0 {
        init
    } else {
        min_int(ports_lo(ports, a, k - 1, init), coord(ports[k - 1].position, a))
    }
}

/// The greatest of `init` and one past coordinate `a` of the first `k` ports.
pub open spec fn ports_hi(ports: Seq<Port>, a: int, k: int, init: int) -> int
    decreases k,
{
    if k <= 0 {
        init
    } else {
        max_int(ports_hi(ports, a, k - 1, init), coord(ports[k - 1].position, a) + 1)
    }
}

/// The lowest coordinate `a` of the region's origin and of every port.
pub open spec fn axis_lo(model: ComponentModelObject, off: Seq<i32>, a: int) -> int {
    let lo = ports_lo(model.inputs@, a, model.inputs@.len() as int, off[a] as int);
    ports_lo(model.outputs@, a, model.outputs@.len() as int, lo)
}

/// One past the highest coordinate `a` of the region's extent (within the
/// `i32` lattice) and of every port.
pub open spec fn axis_hi(model: ComponentModelObject, off: Seq<i32>, shape: Seq<i32>, a: int) -> int {
    let hi = ports_hi(model.inputs@, a, model.inputs@.len() as int, min_int(off[a] + max_int(shape[a] as int, 0), i32::MAX + 1));
    ports_hi(model.outputs@, a, model.outputs@.len() as int, hi)
}

/// The box that a simulation covers: the least one holding the content's
/// region and every port of the model.
pub open spec fn sim_box(model: ComponentModelObject, content: Region) -> SimBox {
    let off = region_offset(content);
    let shape = region_shape(content);
    (
        axis_lo(model, off, 0),
        axis_lo(model, off, 1),
        axis_lo(model, off, 2),
        axis_hi(model, off, shape, 0) - axis_lo(model, off, 0),
        axis_hi(model, off, shape, 1) - axis_lo(model, off, 1),
        axis_hi(model, off, shape, 2) - axis_lo(model, off, 2),
    )
}

fn coord_of(p: Position, a: usize) -> (r: i64)
    requires
        a < 3,
    ensures
        r == coord(p, a as int),
{
    if a == 0 {
        p.x as i64
    } else if a == 1 {
        p.y as i64
    } else {
        p.z as i64
    }
}

fn port_span(ports: &Vec<Port>, a: usize, lo: i64, hi: i64) -> (r: (i64, i64))
    requires
        a < 3,
        i32::MIN <= lo,
        hi <= i32::MAX + 1,
    ensures
        r.0 == ports_lo(ports@, a as int, ports@.len() as int, lo as int),
        r.1 == ports_hi(ports@, a as int, ports@.len() as int, hi as int),
        i32::MIN <= r.0,
        r.1 <= i32::MAX + 1,
{
    let mut l = lo;
    let mut h = hi;
    let mut k: usize = 0;
    while k < ports.len()
        invariant
            a < 3,
            k <= ports@.len(),
            l == ports_lo(ports@, a as int, k as int, lo as int),
            h == ports_hi(ports@, a as int, k as int, hi as int),
            i32::MIN <= l,
            h <= i32::MAX + 1,
        decreases ports@.len() - k,
    {
        let c = coord_of(ports[k].position, a);
        if c < l {
            l = c;
        }
        if c + 1 > h {
            h = c + 1;
        }
        k = k + 1;
    }
    (l, h)
}

fn axis_span(model: &ComponentModelObject, off: &[i32; 3], shape: &[i32; 3], a: usize) -> (r: (i64, i64))
    requires
        a < 3,
    ensures
        r.0 == axis_lo(*model, off@, a as int),
        r.1 == axis_hi(*model, off@, shape@, a as int),
        i32::MIN <= r.0,
        r.1 <= i32::MAX + 1,
{
    let o = off[a] as i64;
    let ext: i64 = if shape[a] > 0 { shape[a] as i64 } else { 0 };
    let top: i64 = if o + ext > i32::MAX as i64 + 1 { i32::MAX as i64 + 1 } else { o + ext };
    let (lo1, hi1) = port_span(&model.inputs, a, o, top);
    port_span(&model.outputs, a, lo1, hi1)
}

/// Computes the output levels of a component from levels assigned to its
/// named inputs, by propagating signal through its blocks (see
/// `relax_dir`) until nothing is left to visit. The blocks are those of the
/// region `content`; the propagation covers the least box holding that
/// region and every port of the model. The result lists every output port
/// of the model, in order, with its level (zero where the signal never
/// arrived).
pub fn simulate_component(model: &ComponentModelObject, inputs: &Vec<(String, i32)>, content: &Region) -> (r: Result<Vec<(String, i32)>, SimError>)
    requires
        forall|i: int| 0 <= i < inputs@.len() ==> 0 <= #[trigger] inputs@[i].1 <= MAX_POWER,
    ensures
        r is Err <==> (exists|i: int| 0 <= i < inputs@.len() && #[trigger] input_missing(model.inputs@, inputs@, i))
            || !volume_fits(sim_box(*model, *content)),
        r matches Err(SimError::UnknownPort(name)) ==> exists|i: int| {
            &&& 0 <= i < inputs@.len()
            &&& #[trigger] input_missing(model.inputs@, inputs@, i)
            &&& forall|i2: int| 0 <= i2 < i ==> !#[trigger] input_missing(model.inputs@, inputs@, i2)
            &&& name@ == inputs@[i].0@
        },
        r matches Err(SimError::TooLarge) ==> !volume_fits(sim_box(*model, *content))
            && forall|i: int| 0 <= i < inputs@.len() ==> !#[trigger] input_missing(model.inputs@, inputs@, i),
        r matches Ok(out) ==> {
            &&& out@.len() == model.outputs@.len()
            &&& forall|k: int| 0 <= k < out@.len() ==> (#[trigger] out@[k]).0@ == model.outputs@[k].name@
                && out@[k].1 == level_at(sim_box(*model, *content), simulated(sim_box(*model, *content), model.inputs@, inputs@, region_blocks(*content)), model.outputs@[k].position)
        },
{
    let ghost blocks = region_blocks(*content);
    let mut i: usize = 0;
    while i < inputs.len()
        invariant
            i <= inputs@.len(),
            forall|i2: int| 0 <= i2 < i ==> !#[trigger] input_missing(model.inputs@, inputs@, i2),
        decreases inputs@.len() - i,
    {
        if find_port(&model.inputs, &inputs[i].0).is_none() {
            assert(input_missing(model.inputs@, inputs@, i as int));
            return Err(SimError::UnknownPort(inputs[i].0.clone()));
        }
        i = i + 1;
    }
    let off = offset_of(content);
    let shape = shape_of(content);
    let (x0, x1) = axis_span(model, &off, &shape, 0);
    let (y0, y1) = axis_span(model, &off, &shape, 1);
    let (z0, z1) = axis_span(model, &off, &shape, 2);
    let size = Bounds { x0, y0, z0, nx: x1 - x0, ny: y1 - y0, nz: z1 - z0 };
    let ghost sz = size.frame();
    assert(sz == sim_box(*model, *content));
    if size.nx < 0 || size.ny < 0 || size.nz < 0 {
        return Err(SimError::TooLarge);
    }
    let (a, b, c) = (size.nx as u128, size.ny as u128, size.nz as u128);
    assert(a * b <= 0x4_0000_0000u128 * 0x4_0000_0000u128) by (nonlinear_arith)
        requires a <= 0x4_0000_0000u128, b <= 0x4_0000_0000u128;
    assert(a * b * c <= 0x4_0000_0000u128 * 0x4_0000_0000u128 * 0x4_0000_0000u128) by (nonlinear_arith)
        requires a * b <= 0x4_0000_0000u128 * 0x4_0000_0000u128, c <= 0x4_0000_0000u128;
    let volume: u128 = a * b * c;
    if volume > usize::MAX as u128 {
        return Err(SimError::TooLarge);
    }
    let vol = volume as usize;
    assert(vol == box_volume(sz));
    let mut levels: Vec<i32> = Vec::new();
    let mut flags: Vec<CalcRecord> = Vec::new();
    let mut c: usize = 0;
    while c < vol
        invariant
            vol == box_volume(sz),
            c <= vol,
            levels@ == Seq::new(c as nat, |c2: int| 0i32),
            flags@ == Seq::new(c as nat, |c2: int| blank_record()),
        decreases vol - c,
    {
        levels.push(0);
        flags.push(CalcRecord::new());
        assert(levels@ =~= Seq::new(c as nat + 1, |c2: int| 0i32));
        assert(flags@ =~= Seq::new(c as nat + 1, |c2: int| blank_record()));
        c = c + 1;
    }
    let mut work: Vec<Position> = Vec::new();
    let mut i: usize = 0;
    while i < inputs.len()
        invariant
            volume_fits(sz),
            sz == size.frame(),
            off@ == region_offset(*content),
            shape@ == region_shape(*content),
            i <= inputs@.len(),
            forall|i2: int| 0 <= i2 < inputs@.len() ==> !#[trigger] input_missing(model.inputs@, inputs@, i2),
            forall|i2: int| 0 <= i2 < inputs@.len() ==> 0 <= #[trigger] inputs@[i2].1 <= MAX_POWER,
            (levels@, flags@, work@) == seed_state(sz, model.inputs@, inputs@, i as int),
            state_wf(sz, (levels@, flags@, work@)),
        decreases inputs@.len() - i,
    {
        assert(!input_missing(model.inputs@, inputs@, i as int));
        match find_port(&model.inputs, &inputs[i].0) {
            Some(j) => {
                proof {
                    lemma_find_port_bounds(model.inputs@, inputs@[i as int].0@, 0);
                }
                let pos = model.inputs[j].position;
                if inside(&size, pos) {
                    let ci = cell_index(&size, pos);
                    let ghost w0 = work@;
                    let ghost l0 = levels@;
                    assert(forall|w: int| 0 <= w < w0.len() ==> in_box(sz, #[trigger] w0[w])) by {
                        assert(state_wf(sz, (l0, flags@, w0)));
                        assert forall|w: int| 0 <= w < w0.len() implies in_box(sz, #[trigger] w0[w]) by {
                            assert((l0, flags@, w0).2[w] == w0[w]);
                        };
                    };
                    levels.set(ci, inputs[i].1);
                    work.push(pos);
                    proof {
                        assert forall|w: int| 0 <= w < work@.len() implies in_box(sz, #[trigger] work@[w]) by {
                            if w < w0.len() {
                                assert(work@[w] == w0[w]);
                            }
                        };
                    }
                }
            },
            None => {},
        }
        i = i + 1;
    }
    let ghost init = (levels@, flags@, work@);
    let ghost it: nat = 0;
    proof {
        lemma_unmarked_nonneg(flags@);
    }
    while work.len() > 0
        invariant
            volume_fits(sz),
            sz == size.frame(),
            off@ == region_offset(*content),
            shape@ == region_shape(*content),
            state_wf(sz, (levels@, flags@, work@)),
            (levels@, flags@, work@) == sim_run(sz, blocks, init, it),
            sim_measure((levels@, flags@, work@)) + it == sim_measure(init),
            blocks == region_blocks(*content),
        decreases sim_measure((levels@, flags@, work@)),
    {
        let ghost before = (levels@, flags@, work@);
        proof {
            lemma_step(sz, blocks, before);
            lemma_run_succ(sz, blocks, init, it);
            lemma_unmarked_nonneg(flags@);
        }
        let p = work.pop().unwrap();
        assert(in_box(sz, p)) by {
            assert(p == before.2[before.2.len() - 1]);
        };
        let mut k: usize = 0;
        while k < 6
            invariant
                volume_fits(sz),
                sz == size.frame(),
            off@ == region_offset(*content),
            shape@ == region_shape(*content),
                in_box(sz, p),
                k <= 6,
                before.2.len() > 0,
                p == before.2.last(),
                state_wf(sz, (levels@, flags@, work@)),
                (levels@, flags@, work@) == relax_upto(sz, blocks, (before.0, before.1, before.2.drop_last()), p, k as int),
                blocks == region_blocks(*content),
            decreases 6 - k,
        {
            proof {
                lemma_relax_dir(sz, blocks, (levels@, flags@, work@), p, k as int);
            }
            relax_toward(&size, content, &off, &shape, &mut levels, &mut flags, &mut work, p, k);
            k = k + 1;
        }
        proof {
            it = it + 1;
        }
        proof {
            lemma_unmarked_nonneg(flags@);
        }
    }
    proof {
        lemma_unmarked_nonneg(flags@);
        let m0 = sim_measure(init);
        let fin = (levels@, flags@, work@);
        assert(m0 >= it);
        lemma_run_add(sz, blocks, init, it, (m0 - it) as nat);
        lemma_run_idle(sz, blocks, fin, (m0 - it) as nat);
        assert((it + (m0 - it) as nat) as nat == m0 as nat);
    }
    let mut out: Vec<(String, i32)> = Vec::new();
    let mut k: usize = 0;
    while k < model.outputs.len()
        invariant
            volume_fits(sz),
            sz == size.frame(),
            off@ == region_offset(*content),
            shape@ == region_shape(*content),
            state_wf(sz, (levels@, flags@, work@)),
            (levels@, flags@, work@) == simulated(sz, model.inputs@, inputs@, blocks),
            k <= model.outputs@.len(),
            out@.len() == k,
            forall|k2: int| 0 <= k2 < k ==> (#[trigger] out@[k2]).0@ == model.outputs@[k2].name@
                && out@[k2].1 == level_at(sz, (levels@, flags@, work@), model.outputs@[k2].position),
        decreases model.outputs@.len() - k,
    {
        let port = &model.outputs[k];
        let level = if inside(&size, port.position) {
            let ci = cell_index(&size, port.position);
            levels[ci]
        } else {
            0
        };
        out.push((port.name.clone(), level));
        k = k + 1;
    }
    Ok(out)
}

/// Some direction has set the level of the cell.
pub open spec fn reached(r: CalcRecord) -> bool {
    r.north || r.south || r.west || r.east || r.up || r.down
}

/// Every amplifier that signal has reached holds full power.
pub open spec fn amplifiers_full(size: SimBox, blocks: Blocks, st: SimState) -> bool {
    forall|p: Position|
        #![trigger st.1[box_index(size, p)]]
        in_box(size, p) && blocks.contains_key((p.x, p.y, p.z)) && is_amplifier_id(blocks[(p.x, p.y, p.z)].0)
            && reached(st.1[box_index(size, p)]) ==> st.0[box_index(size, p)] == MAX_POWER
}

proof fn lemma_box_index_injective(size: SimBox, p: Position, q: Position)
    requires
        volume_fits(size),
        in_box(size, p),
        in_box(size, q),
        box_index(size, p) == box_index(size, q),
    ensures
        p == q,
{
    let (b, c) = (size.4, size.5);
    let (px, py, pz) = (p.x - size.0, p.y - size.1, p.z - size.2);
    let (qx, qy, qz) = (q.x - size.0, q.y - size.1, q.z - size.2);
    lemma_fundamental_div_mod_converse(box_index(size, p), c, px * b + py, pz);
    lemma_fundamental_div_mod_converse(box_index(size, q), c, qx * b + qy, qz);
    lemma_fundamental_div_mod_converse(px * b + py, b, px, py);
    lemma_fundamental_div_mod_converse(qx * b + qy, b, qx, qy);
}

/// One relaxation never lowers the level of any cell.
pub proof fn lemma_relaxation_monotone(size: SimBox, blocks: Blocks, st: SimState, p: Position, k: int)
    requires
        volume_fits(size),
        state_wf(size, st),
        in_box(size, p),
        0 <= k < 6,
    ensures
        forall|c: int| 0 <= c < st.0.len() ==> #[trigger] relax_dir(size, blocks, st, p, k).0[c] >= st.0[c],
{
    lemma_relax_dir(size, blocks, st, p, k);
}

/// Over any number of steps, the level of every cell only rises.
pub proof fn lemma_levels_never_drop(size: SimBox, blocks: Blocks, st: SimState, fuel: nat)
    requires
        volume_fits(size),
        state_wf(size, st),
    ensures
        state_wf(size, sim_run(size, blocks, st, fuel)),
        forall|c: int| 0 <= c < st.0.len() ==> #[trigger] sim_run(size, blocks, st, fuel).0[c] >= st.0[c],
    decreases fuel,
{
    if fuel > 0 {
        let next = sim_step(size, blocks, st);
        lemma_step(size, blocks, st);
        lemma_levels_never_drop(size, blocks, next, (fuel - 1) as nat);
        assert forall|c: int| 0 <= c < st.0.len() implies #[trigger] sim_run(size, blocks, st, fuel).0[c] >= st.0[c] by {
            assert(next.0[c] >= st.0[c]);
            assert(sim_run(size, blocks, next, (fuel - 1) as nat).0[c] >= next.0[c]);
        };
    }
}

proof fn lemma_relax_dir_amplifiers(size: SimBox, blocks: Blocks, st: SimState, p: Position, k: int)
    requires
        volume_fits(size),
        state_wf(size, st),
        in_box(size, p),
        0 <= k < 6,
        amplifiers_full(size, blocks, st),
    ensures
        amplifiers_full(size, blocks, relax_dir(size, blocks, st, p, k)),
{
    let n = neighbor(p, k);
    let r = relax_dir(size, blocks, st, p, k);
    if neighbor_inside(size, p, k) {
        lemma_neighbor_inside(size, p, k);
        lemma_box_index(size, n);
        assert forall|q: Position|
            #![trigger r.1[box_index(size, q)]]
            in_box(size, q) && blocks.contains_key((q.x, q.y, q.z)) && is_amplifier_id(blocks[(q.x, q.y, q.z)].0)
                && reached(r.1[box_index(size, q)]) implies r.0[box_index(size, q)] == MAX_POWER by {
            lemma_box_index(size, q);
            if box_index(size, q) == box_index(size, n) {
                lemma_box_index_injective(size, q, n);
            } else {
                assert(st.1[box_index(size, q)] == r.1[box_index(size, q)]);
            }
        };
    }
}

proof fn lemma_relax_upto_amplifiers(size: SimBox, blocks: Blocks, st: SimState, p: Position, k: int)
    requires
        volume_fits(size),
        state_wf(size, st),
        in_box(size, p),
        0 <= k <= 6,
        amplifiers_full(size, blocks, st),
    ensures
        amplifiers_full(size, blocks, relax_upto(size, blocks, st, p, k)),
    decreases k,
{
    if k > 0 {
        lemma_relax_upto_amplifiers(size, blocks, st, p, k - 1);
        lemma_relax_upto(size, blocks, st, p, k - 1);
        lemma_relax_dir_amplifiers(size, blocks, relax_upto(size, blocks, st, p, k - 1), p, k - 1);
    }
}

proof fn lemma_run_amplifiers(size: SimBox, blocks: Blocks, st: SimState, fuel: nat)
    requires
        volume_fits(size),
        state_wf(size, st),
        amplifiers_full(size, blocks, st),
    ensures
        amplifiers_full(size, blocks, sim_run(size, blocks, st, fuel)),
    decreases fuel,
{
    if fuel > 0 {
        if st.2.len() > 0 {
            let popped = (st.0, st.1, st.2.drop_last());
            let p = st.2.last();
            assert(in_box(size, st.2[st.2.len() - 1]));
            lemma_relax_upto_amplifiers(size, blocks, popped, p, 6);
        }
        lemma_step(size, blocks, st);
        lemma_run_amplifiers(size, blocks, sim_step(size, blocks, st), (fuel - 1) as nat);
    }
}

proof fn lemma_seed_blank(size: SimBox, ports: Seq<Port>, inputs: Seq<(String, i32)>, i: int)
    ensures
        seed_state(size, ports, inputs, i).1 == Seq::new(box_volume(size) as nat, |c: int| blank_record()),
    decreases i,
{
    if i > 0 {
        lemma_seed_blank(size, ports, inputs, i - 1);
    }
}

proof fn lemma_seed_wf(size: SimBox, ports: Seq<Port>, inputs: Seq<(String, i32)>, i: int)
    requires
        volume_fits(size),
        i <= inputs.len(),
        forall|k: int| 0 <= k < inputs.len() ==> 0 <= #[trigger] inputs[k].1 <= MAX_POWER,
    ensures
        state_wf(size, seed_state(size, ports, inputs, i)),
    decreases i,
{
    if i > 0 {
        lemma_seed_wf(size, ports, inputs, i - 1);
        let st = seed_state(size, ports, inputs, i - 1);
        match find_port_from(ports, inputs[i - 1].0@, 0) {
            Some(j) => {
                if in_box(size, ports[j].position) {
                    lemma_box_index(size, ports[j].position);
                    let r = seed_state(size, ports, inputs, i);
                    assert forall|w: int| 0 <= w < r.2.len() implies in_box(size, #[trigger] r.2[w]) by {
                        if w < st.2.len() {
                            assert(r.2[w] == st.2[w]);
                        }
                    };
                }
            },
            None => {},
        }
    }
}

/// Once propagation ends, every amplifier block (repeater, torch or block
/// of redstone) that the signal reached holds full power, never a decayed
/// level.
pub proof fn lemma_amplifiers_reach_full_power(size: SimBox, ports: Seq<Port>, inputs: Seq<(String, i32)>, blocks: Blocks, p: Position)
    requires
        volume_fits(size),
        forall|k: int| 0 <= k < inputs.len() ==> 0 <= #[trigger] inputs[k].1 <= MAX_POWER,
        in_box(size, p),
        blocks.contains_key((p.x, p.y, p.z)),
        is_amplifier_id(blocks[(p.x, p.y, p.z)].0),
        reached(simulated(size, ports, inputs, blocks).1[box_index(size, p)]),
    ensures
        simulated(size, ports, inputs, blocks).0[box_index(size, p)] == MAX_POWER,
{
    let init = seed_state(size, ports, inputs, inputs.len() as int);
    lemma_seed_wf(size, ports, inputs, inputs.len() as int);
    lemma_seed_blank(size, ports, inputs, inputs.len() as int);
    assert(amplifiers_full(size, blocks, init)) by {
        assert forall|q: Position| #![trigger init.1[box_index(size, q)]] in_box(size, q) implies !reached(init.1[box_index(size, q)]) by {
            lemma_box_index(size, q);
        };
    };
    lemma_run_amplifiers(size, blocks, init, sim_measure(init) as nat);
}

/// The two contents hold the same blocks inside the box.
pub open spec fn same_in_box(size: SimBox, b1: Blocks, b2: Blocks) -> bool {
    forall|p: Position| #[trigger] in_box(size, p) ==> (b1.contains_key((p.x, p.y, p.z)) == b2.contains_key((p.x, p.y, p.z))
        && (b1.contains_key((p.x, p.y, p.z)) ==> b1[(p.x, p.y, p.z)] == b2[(p.x, p.y, p.z)]))
}

proof fn lemma_relax_upto_same_content(size: SimBox, b1: Blocks, b2: Blocks, st: SimState, p: Position, k: int)
    requires
        volume_fits(size),
        same_in_box(size, b1, b2),
    ensures
        relax_upto(size, b1, st, p, k) == relax_upto(size, b2, st, p, k),
    decreases k,
{
    if k > 0 {
        lemma_relax_upto_same_content(size, b1, b2, st, p, k - 1);
        let n = neighbor(p, k - 1);
        if neighbor_inside(size, p, k - 1) {
            lemma_neighbor_inside(size, p, k - 1);
            assert(in_box(size, n));
        }
    }
}

proof fn lemma_run_same_content(size: SimBox, b1: Blocks, b2: Blocks, st: SimState, fuel: nat)
    requires
        volume_fits(size),
        same_in_box(size, b1, b2),
    ensures
        sim_run(size, b1, st, fuel) == sim_run(size, b2, st, fuel),
    decreases fuel,
{
    if fuel > 0 {
        if st.2.len() > 0 {
            let popped = (st.0, st.1, st.2.drop_last());
            let p = st.2.last();
            lemma_relax_upto_same_content(size, b1, b2, popped, p, 6);
        }
        lemma_run_same_content(size, b1, b2, sim_step(size, b1, st), (fuel - 1) as nat);
    }
}

/// Simulation is repeatable: with the same model, the same assignment and
/// the same blocks inside the simulated box, it ends in the same state, and
/// so gives the same output levels.
pub proof fn lemma_simulation_repeatable(size: SimBox, ports: Seq<Port>, inputs: Seq<(String, i32)>, b1: Blocks, b2: Blocks)
    requires
        volume_fits(size),
        same_in_box(size, b1, b2),
    ensures
        simulated(size, ports, inputs, b1) == simulated(size, ports, inputs, b2),
{
    let init = seed_state(size, ports, inputs, inputs.len() as int);
    lemma_run_same_content(size, b1, b2, init, sim_measure(init) as nat);
}

proof fn lemma_ports_lo(ports: Seq<Port>, a: int, k: int, init: int)
    requires
        0 <= k <= ports.len(),
    ensures
        ports_lo(ports, a, k, init) <= init,
        forall|j: int| 0 <= j < k ==> ports_lo(ports, a, k, init) <= coord(#[trigger] ports[j].position, a),
    decreases k,
{
    if k > 0 {
        lemma_ports_lo(ports, a, k - 1, init);
    }
}

proof fn lemma_ports_hi(ports: Seq<Port>, a: int, k: int, init: int)
    requires
        0 <= k <= ports.len(),
    ensures
        ports_hi(ports, a, k, init) >= init,
        forall|j: int| 0 <= j < k ==> ports_hi(ports, a, k, init) > coord(#[trigger] ports[j].position, a),
    decreases k,
{
    if k > 0 {
        lemma_ports_hi(ports, a, k - 1, init);
    }
}

proof fn lemma_axis_covers(model: ComponentModelObject, content: Region, a: int)
    ensures
        forall|j: int| 0 <= j < model.inputs@.len() ==> axis_lo(model, region_offset(content), a) <= coord(#[trigger] model.inputs@[j].position, a)
            < axis_hi(model, region_offset(content), region_shape(content), a),
        forall|j: int| 0 <= j < model.outputs@.len() ==> axis_lo(model, region_offset(content), a) <= coord(#[trigger] model.outputs@[j].position, a)
            < axis_hi(model, region_offset(content), region_shape(content), a),
{
    let off = region_offset(content);
    let shape = region_shape(content);
    let ni = model.inputs@.len() as int;
    let no = model.outputs@.len() as int;
    let lo_in = ports_lo(model.inputs@, a, ni, off[a] as int);
    let hi_in = ports_hi(model.inputs@, a, ni, min_int(off[a] + max_int(shape[a] as int, 0), i32::MAX + 1));
    lemma_ports_lo(model.inputs@, a, ni, off[a] as int);
    lemma_ports_lo(model.outputs@, a, no, lo_in);
    lemma_ports_hi(model.inputs@, a, ni, min_int(off[a] + max_int(shape[a] as int, 0), i32::MAX + 1));
    lemma_ports_hi(model.outputs@, a, no, hi_in);
}

/// Every port of the model lies in the box that the simulation covers, so
/// each assigned input is seeded at its port and each output is read where
/// the propagation recorded it.
pub proof fn lemma_ports_in_box(model: ComponentModelObject, content: Region)
    ensures
        forall|j: int| 0 <= j < model.inputs@.len() ==> in_box(sim_box(model, content), #[trigger] model.inputs@[j].position),
        forall|j: int| 0 <= j < model.outputs@.len() ==> in_box(sim_box(model, content), #[trigger] model.outputs@[j].position),
{
    lemma_axis_covers(model, content, 0);
    lemma_axis_covers(model, content, 1);
    lemma_axis_covers(model, content, 2);
    assert forall|j: int| 0 <= j < model.inputs@.len() implies in_box(sim_box(model, content), #[trigger] model.inputs@[j].position) by {
        let p = model.inputs@[j].position;
        assert(coord(p, 0) == p.x && coord(p, 1) == p.y && coord(p, 2) == p.z);
    };
    assert forall|j: int| 0 <= j < model.outputs@.len() implies in_box(sim_box(model, content), #[trigger] model.outputs@[j].position) by {
        let p = model.outputs@[j].position;
        assert(coord(p, 0) == p.x && coord(p, 1) == p.y && coord(p, 2) == p.z);
    };
}

/// No cell ends below the level it was seeded with: an assigned input's
/// level at its port is never lowered by propagation.
pub proof fn lemma_final_never_below_seed(size: SimBox, ports: Seq<Port>, inputs: Seq<(String, i32)>, blocks: Blocks)
    requires
        volume_fits(size),
        forall|k: int| 0 <= k < inputs.len() ==> 0 <= #[trigger] inputs[k].1 <= MAX_POWER,
    ensures
        forall|c: int| 0 <= c < box_volume(size) ==> #[trigger] simulated(size, ports, inputs, blocks).0[c]
            >= seed_state(size, ports, inputs, inputs.len() as int).0[c],
{
    let init = seed_state(size, ports, inputs, inputs.len() as int);
    lemma_seed_wf(size, ports, inputs, inputs.len() as int);
    lemma_levels_never_drop(size, blocks, init, sim_measure(init) as nat);
}

} // verus!
