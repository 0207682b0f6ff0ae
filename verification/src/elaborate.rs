//! Hierarchy elaboration: many drawings flattened into one netlist.
//!
//! Rules:
//!   - a sub-circuit shell yields no run-time component; its pins join the
//!     nets of the drawing's interface pins;
//!   - interface pins are ordered by instance name, equal names by index;
//!   - a drawing instantiated several times is expanded several times, with
//!     separate state;
//!   - a self reference, a reference out of range or nesting deeper than
//!     `MAX_DEPTH` is cut off and flagged as truncated.
use vstd::prelude::*;
use crate::board::{Board, Instance, NO_NET, NO_SUB, MAX_INSTANCES, MAX_WIRES};
use crate::netlist::{Netlist, netlist_ok, npins, tables_ok};
use crate::defs::{CompState, DefId, Dir, Params, PinDef};
use crate::values::Width;
use crate::text::{seq_lt, str_lt, lemma_seq_lt_total};

verus! {

/// Deepest nesting of sub-circuits that is expanded.
pub const MAX_DEPTH: usize = 32;

/// Interface of a drawing: its input and output pin instances.
#[derive(Debug)]
pub struct Shape {
    pub inputs: Vec<u32>,
    pub outputs: Vec<u32>,
}

impl Shape {
    pub fn len(&self) -> (r: usize)
        requires
            self.inputs@.len() + self.outputs@.len() <= usize::MAX,
        ensures
            r == self.inputs@.len() + self.outputs@.len(),
    {
        self.inputs.len() + self.outputs.len()
    }

    pub fn is_empty(&self) -> (r: bool)
        ensures
            r == (self.inputs@.len() == 0 && self.outputs@.len() == 0),
    {
        self.inputs.len() == 0 && self.outputs.len() == 0
    }
}

pub open spec fn inst_name(b: Board, i: int) -> Seq<char> {
    b.instances@[i].display_name@
}

/// Interface order: by instance name, equal names by index.
pub open spec fn key_lt(b: Board, i: int, j: int) -> bool {
    seq_lt(inst_name(b, i), inst_name(b, j)) || (inst_name(b, i) == inst_name(b, j) && i < j)
}

/// `v` lists exactly the instances of kind `d`, in interface order.
pub open spec fn iface_sorted(b: Board, v: Seq<u32>, d: DefId) -> bool {
    &&& forall|k: int| 0 <= k < v.len() ==> (#[trigger] v[k]) < b.instances@.len() && b.instances@[v[k] as int].def == d
    &&& forall|i: int| 0 <= i < b.instances@.len() && #[trigger] b.instances@[i].def == d ==> v.contains(i as u32)
    &&& forall|k: int| 0 <= k < v.len() - 1 ==> #[trigger] key_lt(b, v[k] as int, v[k + 1] as int)
}

proof fn lemma_key_total(b: Board, i: int, j: int)
    requires
        i != j,
    ensures
        key_lt(b, i, j) || key_lt(b, j, i),
        !(key_lt(b, i, j) && key_lt(b, j, i)),
{
    lemma_seq_lt_total(inst_name(b, i), inst_name(b, j));
}

/// Inserts instance `i` into a list kept in interface order.
fn insert_sorted(v: &mut Vec<u32>, i: u32, b: &Board)
    requires
        i < b.instances@.len(),
        forall|k: int| 0 <= k < old(v)@.len() ==> (#[trigger] old(v)@[k]) < i,
        forall|k: int| 0 <= k < old(v)@.len() - 1 ==> #[trigger] key_lt(*b, old(v)@[k] as int, old(v)@[k + 1] as int),
    ensures
        final(v)@.len() == old(v)@.len() + 1,
        forall|x: u32| final(v)@.contains(x) <==> (old(v)@.contains(x) || x == i),
        forall|k: int| 0 <= k < final(v)@.len() ==> (#[trigger] final(v)@[k]) <= i,
        forall|k: int| 0 <= k < final(v)@.len() - 1 ==> #[trigger] key_lt(*b, final(v)@[k] as int, final(v)@[k + 1] as int),
{
    let mut p: usize = 0;
    let mut found = false;
    while p < v.len() && !found
        invariant
            v@ == old(v)@,
            p <= v@.len(),
            i < b.instances@.len(),
            forall|k: int| 0 <= k < v@.len() ==> (#[trigger] v@[k]) < i,
            forall|k: int| 0 <= k < p ==> !key_lt(*b, i as int, #[trigger] v@[k] as int),
            found ==> p < v@.len() && key_lt(*b, i as int, v@[p as int] as int),
        decreases v@.len() - p, if found { 0int } else { 1int },
    {
        if key_lt_exec(b, i as usize, v[p] as usize) {
            found = true;
        } else {
            p = p + 1;
        }
    }
    let ghost old_v = v@;
    proof {
        if p > 0 {
            lemma_key_total(*b, i as int, v@[p - 1] as int);
        }
    }
    v.insert(p, i);
    proof {
        assert forall|x: u32| v@.contains(x) <==> (old_v.contains(x) || x == i) by {
            if v@.contains(x) {
                let k = choose|k: int| 0 <= k < v@.len() && v@[k] == x;
                if k < p {
                    assert(old_v[k] == x);
                } else if k > p {
                    assert(old_v[k - 1] == x);
                }
            }
            if old_v.contains(x) {
                let k = choose|k: int| 0 <= k < old_v.len() && old_v[k] == x;
                if k < p {
                    assert(v@[k] == x);
                } else {
                    assert(v@[k + 1] == x);
                }
            }
            if x == i {
                assert(v@[p as int] == x);
            }
        }
        assert forall|k: int| 0 <= k < v@.len() - 1 implies #[trigger] key_lt(*b, v@[k] as int, v@[k + 1] as int) by {
            if k < p - 1 {
                assert(v@[k] == old_v[k] && v@[k + 1] == old_v[k + 1]);
                assert(key_lt(*b, old_v[k] as int, old_v[k + 1] as int));
            } else if k == p - 1 {
                assert(old_v[k] < i);
                assert(!key_lt(*b, i as int, old_v[k] as int));
                assert(v@[k] == old_v[k] && v@[k + 1] == i);
                assert(key_lt(*b, old_v[k] as int, i as int));
            } else if k == p {
                assert(found);
                assert(v@[k] == i && v@[k + 1] == old_v[k]);
                assert(key_lt(*b, i as int, old_v[k] as int));
            } else {
                assert(v@[k] == old_v[k - 1] && v@[k + 1] == old_v[k]);
                assert(key_lt(*b, old_v[k - 1] as int, old_v[(k - 1) + 1] as int));
            }
        }
    }
}

fn key_lt_exec(b: &Board, i: usize, j: usize) -> (r: bool)
    requires
        i < b.instances@.len(),
        j < b.instances@.len(),
    ensures
        r == key_lt(*b, i as int, j as int),
{
    let a = b.instances[i].display_name.as_str();
    let c = b.instances[j].display_name.as_str();
    if str_lt(a, c) {
        true
    } else {
        crate::text::str_eq(a, c) && i < j
    }
}

/// Interface of a drawing: its `InputPin` and `OutputPin` instances, each list
/// in interface order (by name, equal names by index).
pub fn shape(board: &Board) -> (r: Shape)
    requires
        board.instances@.len() <= MAX_INSTANCES,
    ensures
        iface_sorted(*board, r.inputs@, DefId::InputPin),
        iface_sorted(*board, r.outputs@, DefId::OutputPin),
        r.inputs@.len() + r.outputs@.len() <= board.instances@.len(),
{
    let mut inputs: Vec<u32> = Vec::new();
    let mut outputs: Vec<u32> = Vec::new();
    let n = board.instances.len();
    let mut i: usize = 0;
    while i < n
        invariant
            n == board.instances@.len(),
            n <= MAX_INSTANCES,
            i <= n,
            inputs@.len() + outputs@.len() <= i,
            forall|k: int| 0 <= k < inputs@.len() ==> (#[trigger] inputs@[k]) < i && board.instances@[inputs@[k] as int].def
                == DefId::InputPin,
            forall|k: int| 0 <= k < outputs@.len() ==> (#[trigger] outputs@[k]) < i && board.instances@[outputs@[k] as int].def
                == DefId::OutputPin,
            forall|j: int| 0 <= j < i && #[trigger] board.instances@[j].def == DefId::InputPin ==> inputs@.contains(j as u32),
            forall|j: int| 0 <= j < i && #[trigger] board.instances@[j].def == DefId::OutputPin ==> outputs@.contains(j as u32),
            forall|k: int| 0 <= k < inputs@.len() - 1 ==> #[trigger] key_lt(*board, inputs@[k] as int, inputs@[k + 1] as int),
            forall|k: int| 0 <= k < outputs@.len() - 1 ==> #[trigger] key_lt(*board, outputs@[k] as int, outputs@[k + 1] as int),
        decreases n - i,
    {
        let d = board.instances[i].def;
        let ghost ins0 = inputs@;
        let ghost outs0 = outputs@;
        if d == DefId::InputPin {
            insert_sorted(&mut inputs, i as u32, board);
            proof {
                assert forall|k: int| 0 <= k < inputs@.len() implies (#[trigger] inputs@[k]) < i + 1 && board.instances@[inputs@[k] as int].def
                    == DefId::InputPin by {
                    assert(inputs@.contains(inputs@[k]));
                    if inputs@[k] != i as u32 {
                        let k0 = choose|k0: int| 0 <= k0 < ins0.len() && ins0[k0] == inputs@[k];
                    }
                }
                assert forall|j: int| 0 <= j < i + 1 && #[trigger] board.instances@[j].def == DefId::InputPin implies inputs@.contains(j as u32) by {
                    if j < i {
                        assert(ins0.contains(j as u32));
                    }
                }
            }
        } else if d == DefId::OutputPin {
            insert_sorted(&mut outputs, i as u32, board);
            proof {
                assert forall|k: int| 0 <= k < outputs@.len() implies (#[trigger] outputs@[k]) < i + 1 && board.instances@[outputs@[k] as int].def
                    == DefId::OutputPin by {
                    assert(outputs@.contains(outputs@[k]));
                    if outputs@[k] != i as u32 {
                        let k0 = choose|k0: int| 0 <= k0 < outs0.len() && outs0[k0] == outputs@[k];
                    }
                }
                assert forall|j: int| 0 <= j < i + 1 && #[trigger] board.instances@[j].def == DefId::OutputPin implies outputs@.contains(j as u32) by {
                    if j < i {
                        assert(outs0.contains(j as u32));
                    }
                }
            }
        }
        i = i + 1;
    }
    Shape { inputs, outputs }
}

/// Pin layout of a sub-circuit instance: inputs down the left edge, outputs
/// down the right edge (four cells across), both in interface order.
pub open spec fn custom_layout(b: Board, s: Shape, pins: Seq<PinDef>) -> bool {
    let ni = s.inputs@.len();
    &&& pins.len() == ni + s.outputs@.len()
    &&& forall|k: int|
        0 <= k < ni ==> {
            let it = b.instances@[s.inputs@[k] as int];
            &&& (#[trigger] pins[k]).name@ == it.display_name@
            &&& pins[k].dx == 0
            &&& pins[k].dy == k
            &&& pins[k].width == it.params.width
            &&& pins[k].dir == Dir::In
        }
    &&& forall|k: int|
        0 <= k < s.outputs@.len() ==> {
            let it = b.instances@[s.outputs@[k] as int];
            &&& (#[trigger] pins[ni + k]).name@ == it.display_name@
            &&& pins[ni + k].dx == 4
            &&& pins[ni + k].dy == k
            &&& pins[ni + k].width == it.params.width
            &&& pins[ni + k].dir == Dir::Out
        }
}

/// Pins of a sub-circuit instance standing for the drawing.
pub fn custom_pins(board: &Board) -> (v: Vec<PinDef>)
    requires
        board.instances@.len() <= MAX_INSTANCES,
    ensures
        exists|s: Shape|
            iface_sorted(*board, s.inputs@, DefId::InputPin) && iface_sorted(*board, s.outputs@, DefId::OutputPin)
                && #[trigger] custom_layout(*board, s, v@),
        v@.len() <= board.instances@.len(),
        forall|k: int| 0 <= k < v@.len() ==> crate::board::pin_offset_ok(#[trigger] v@[k]),
{
    let s = shape(board);
    let mut v: Vec<PinDef> = Vec::new();
    let ni = s.inputs.len();
    let mut k: usize = 0;
    while k < ni
        invariant
            ni == s.inputs@.len(),
            ni + s.outputs@.len() <= MAX_INSTANCES,
            iface_sorted(*board, s.inputs@, DefId::InputPin),
            k <= ni,
            v@.len() == k,
            forall|j: int|
                0 <= j < k ==> {
                    let it = board.instances@[s.inputs@[j] as int];
                    &&& (#[trigger] v@[j]).name@ == it.display_name@
                    &&& v@[j].dx == 0
                    &&& v@[j].dy == j
                    &&& v@[j].width == it.params.width
                    &&& v@[j].dir == Dir::In
                },
        decreases ni - k,
    {
        let it = &board.instances[s.inputs[k] as usize];
        v.push(PinDef { name: it.display_name.clone(), dx: 0, dy: k as i32, width: it.params.width, dir: Dir::In });
        k = k + 1;
    }
    let no = s.outputs.len();
    let mut m: usize = 0;
    while m < no
        invariant
            ni == s.inputs@.len(),
            no == s.outputs@.len(),
            ni + no <= MAX_INSTANCES,
            iface_sorted(*board, s.inputs@, DefId::InputPin),
            iface_sorted(*board, s.outputs@, DefId::OutputPin),
            m <= no,
            v@.len() == ni + m,
            forall|j: int|
                0 <= j < ni ==> {
                    let it = board.instances@[s.inputs@[j] as int];
                    &&& (#[trigger] v@[j]).name@ == it.display_name@
                    &&& v@[j].dx == 0
                    &&& v@[j].dy == j
                    &&& v@[j].width == it.params.width
                    &&& v@[j].dir == Dir::In
                },
            forall|j: int|
                0 <= j < m ==> {
                    let it = board.instances@[s.outputs@[j] as int];
                    &&& (#[trigger] v@[ni + j]).name@ == it.display_name@
                    &&& v@[ni + j].dx == 4
                    &&& v@[ni + j].dy == j
                    &&& v@[ni + j].width == it.params.width
                    &&& v@[ni + j].dir == Dir::Out
                },
        decreases no - m,
    {
        let it = &board.instances[s.outputs[m] as usize];
        v.push(PinDef { name: it.display_name.clone(), dx: 4, dy: m as i32, width: it.params.width, dir: Dir::Out });
        m = m + 1;
    }
    proof {
        assert(custom_layout(*board, s, v@));
        assert forall|k: int| 0 <= k < v@.len() implies crate::board::pin_offset_ok(#[trigger] v@[k]) by {
            if k >= ni {
                assert(v@[ni + (k - ni)].dy == k - ni);
            }
        }
    }
    v
}

/// One evaluable component of the flattened circuit.
#[derive(Debug)]
pub struct FlatComp {
    pub def: DefId,
    pub params: Params,
    /// Drawing it comes from.
    pub board: u32,
    /// Instance index inside that drawing.
    pub inst: u32,
    /// Instance index after flattening.
    pub global_inst: u32,
    /// First global pin.
    pub pin_start: u32,
    pub in_count: u16,
    pub out_count: u16,
}

/// Flattened netlist: the only form the engine consumes.
#[derive(Debug)]
pub struct Flat {
    pub comps: Vec<FlatComp>,
    /// Parallel to `comps`; taken over by the engine when it loads.
    pub states: Vec<CompState>,
    pub pin_net: Vec<u32>,
    pub pin_width: Vec<Width>,
    pub pin_is_out: Vec<bool>,
    /// Global instance -> first global pin.
    pub pin_start: Vec<u32>,
    pub inst_count: u32,
    pub net_count: u32,
    /// Drawing -> local net -> global net (of the drawing's first expansion).
    pub net_map: Vec<Vec<u32>>,
    /// Drawing -> local instance -> global instance (same expansion).
    pub inst_map: Vec<Vec<u32>>,
    /// Some reference was cut off (self reference, too deep, out of range).
    pub truncated: bool,
}

/// Index sanity of a flattened netlist.
pub open spec fn flat_ok(f: &Flat) -> bool {
    &&& f.pin_width@.len() == f.pin_net@.len()
    &&& f.pin_is_out@.len() == f.pin_net@.len()
    &&& f.states@.len() == f.comps@.len()
    &&& f.pin_start@.len() == f.inst_count
    &&& forall|c: int|
        0 <= c < f.comps@.len() ==> (#[trigger] f.comps@[c]).pin_start + f.comps@[c].in_count
            + f.comps@[c].out_count <= f.pin_net@.len() && f.comps@[c].global_inst < f.inst_count
    &&& forall|p: int| 0 <= p < f.pin_net@.len() ==> (#[trigger] f.pin_net@[p] == NO_NET || f.pin_net@[p] < f.net_count)
}

/// Number of input pins of a layout.
pub open spec fn count_in(pins: Seq<PinDef>) -> nat
    decreases pins.len(),
{
    if pins.len() == 0 {
        0
    } else {
        count_in(pins.drop_last()) + if pins.last().dir == Dir::In { 1nat } else { 0nat }
    }
}

proof fn lemma_count_in_le(pins: Seq<PinDef>)
    ensures
        count_in(pins) <= pins.len(),
    decreases pins.len(),
{
    if pins.len() > 0 {
        lemma_count_in_le(pins.drop_last());
    }
}

pub fn count_inputs(pins: &Vec<PinDef>) -> (r: usize)
    ensures
        r == count_in(pins@),
        r <= pins@.len(),
{
    let mut n: usize = 0;
    let mut i: usize = 0;
    while i < pins.len()
        invariant
            i <= pins@.len(),
            n == count_in(pins@.subrange(0, i as int)),
            n <= i,
        decreases pins@.len() - i,
    {
        proof {
            let t = pins@.subrange(0, i as int + 1);
            assert(t.drop_last() =~= pins@.subrange(0, i as int));
        }
        if pins[i].dir == Dir::In {
            n = n + 1;
        }
        i = i + 1;
    }
    assert(pins@.subrange(0, i as int) =~= pins@);
    n
}

fn iota(n: u32) -> (v: Vec<u32>)
    ensures
        v@.len() == n,
        forall|i: int| 0 <= i < n ==> #[trigger] v@[i] == i,
{
    let mut v: Vec<u32> = Vec::new();
    let mut i: u32 = 0;
    while i < n
        invariant
            i <= n,
            v@.len() == i,
            forall|j: int| 0 <= j < i ==> #[trigger] v@[j] == j,
        decreases n - i,
    {
        v.push(i);
        i = i + 1;
    }
    v
}

fn copy_u32s(v: &Vec<u32>) -> (r: Vec<u32>)
    ensures
        r@ == v@,
{
    let mut out: Vec<u32> = Vec::new();
    let mut i: usize = 0;
    while i < v.len()
        invariant
            i <= v@.len(),
            out@ == v@.subrange(0, i as int),
        decreases v@.len() - i,
    {
        out.push(v[i]);
        i = i + 1;
    }
    assert(out@ =~= v@);
    out
}

impl Flat {
    /// An empty flattened netlist.
    pub fn new() -> (r: Flat)
        ensures
            flat_ok(&r),
            r.comps@.len() == 0,
            r.pin_net@.len() == 0,
            r.net_count == 0,
            r.inst_count == 0,
            r.net_map@.len() == 0,
            r.inst_map@.len() == 0,
            !r.truncated,
    {
        Flat {
            comps: Vec::new(),
            states: Vec::new(),
            pin_net: Vec::new(),
            pin_width: Vec::new(),
            pin_is_out: Vec::new(),
            pin_start: Vec::new(),
            inst_count: 0,
            net_count: 0,
            net_map: Vec::new(),
            inst_map: Vec::new(),
            truncated: false,
        }
    }

    /// Flattening of a single drawing: no hierarchy, net numbers unchanged.
    pub fn single(board: &Board, nl: &Netlist) -> (r: Flat)
        requires
            board.wf(),
            netlist_ok(*board, nl),
        ensures
            flat_ok(&r),
            r.pin_net@ == nl.pin_net@,
            r.pin_width@ == nl.pin_width@,
            r.pin_is_out@ == nl.pin_is_out@,
            r.pin_start@ == nl.pin_start@,
            r.net_count == nl.net_count,
            r.inst_count == board.instances@.len(),
            r.comps@.len() <= board.instances@.len(),
            !r.truncated,
            r.net_map@.len() == 1,
            r.inst_map@.len() == 1,
            forall|k: int| 0 <= k < nl.net_count ==> #[trigger] r.net_map@[0]@[k] == k,
            r.net_map@[0]@.len() == nl.net_count,
            forall|k: int| 0 <= k < board.instances@.len() ==> #[trigger] r.inst_map@[0]@[k] == k,
            r.inst_map@[0]@.len() == board.instances@.len(),
            forall|c: int|
                0 <= c < r.comps@.len() ==> {
                    let fc = #[trigger] r.comps@[c];
                    let it = board.instances@[fc.inst as int];
                    &&& fc.inst < board.instances@.len()
                    &&& fc.global_inst == fc.inst
                    &&& fc.board == 0
                    &&& !crate::defs::is_passive_spec(it.def)
                    &&& fc.def == it.def
                    &&& fc.params == it.params
                    &&& fc.pin_start == nl.pin_start@[fc.inst as int]
                    &&& fc.in_count == count_in(it.pins@)
                    &&& fc.in_count + fc.out_count == it.pins@.len()
                },
    {
        let mut comps: Vec<FlatComp> = Vec::new();
        let mut states: Vec<CompState> = Vec::new();
        let n = board.instances.len();
        let mut ii: usize = 0;
        while ii < n
            invariant
                board.wf(),
                netlist_ok(*board, nl),
                n == board.instances@.len(),
                ii <= n,
                states@.len() == comps@.len(),
                comps@.len() <= ii,
                forall|c: int|
                    0 <= c < comps@.len() ==> {
                        let fc = #[trigger] comps@[c];
                        let it = board.instances@[fc.inst as int];
                        &&& fc.inst < ii
                        &&& fc.global_inst == fc.inst
                        &&& fc.board == 0
                        &&& !crate::defs::is_passive_spec(it.def)
                        &&& fc.def == it.def
                        &&& fc.params == it.params
                        &&& fc.pin_start == nl.pin_start@[fc.inst as int]
                        &&& fc.in_count == count_in(it.pins@)
                        &&& fc.in_count + fc.out_count == it.pins@.len()
                        &&& fc.pin_start + fc.in_count + fc.out_count <= nl.pin_net@.len()
                    },
            decreases n - ii,
        {
            let inst = &board.instances[ii];
            assert(inst.wf());
            if !inst.def.is_passive() {
                let ins = count_inputs(&inst.pins);
                proof {
                    assert(tables_ok(*board, nl));
                    assert(nl.pin_start@[ii as int] == crate::netlist::pin_base(*board, ii as int));
                }
                comps.push(FlatComp {
                    def: inst.def,
                    params: inst.params,
                    board: 0,
                    inst: ii as u32,
                    global_inst: ii as u32,
                    pin_start: nl.pin_start[ii],
                    in_count: ins as u16,
                    out_count: (inst.pins.len() - ins) as u16,
                });
                states.push(inst.initial_state());
            }
            ii = ii + 1;
        }
        let r = Flat {
            comps,
            states,
            pin_net: copy_u32s(&nl.pin_net),
            pin_width: copy_widths(&nl.pin_width),
            pin_is_out: copy_bools(&nl.pin_is_out),
            pin_start: copy_u32s(&nl.pin_start),
            inst_count: n as u32,
            net_count: nl.net_count,
            net_map: vec![iota(nl.net_count)],
            inst_map: vec![iota(n as u32)],
            truncated: false,
        };
        r
    }

    /// Local net of a drawing -> global net (`NO_NET` when unknown).
    pub fn global_net(&self, board: u32, local: u32) -> (r: u32)
        ensures
            r == (if local == NO_NET || board >= self.net_map@.len() || local >= self.net_map@[board as int]@.len() {
                NO_NET
            } else {
                self.net_map@[board as int]@[local as int]
            }),
    {
        if local == NO_NET || board as usize >= self.net_map.len() {
            return NO_NET;
        }
        let m = &self.net_map[board as usize];
        if local as usize >= m.len() {
            NO_NET
        } else {
            m[local as usize]
        }
    }

    /// Local instance of a drawing -> global instance (`u32::MAX` when unknown).
    pub fn global_inst(&self, board: u32, inst: u32) -> (r: u32)
        ensures
            r == (if board >= self.inst_map@.len() || inst >= self.inst_map@[board as int]@.len() {
                u32::MAX
            } else {
                self.inst_map@[board as int]@[inst as int]
            }),
    {
        if board as usize >= self.inst_map.len() {
            return u32::MAX;
        }
        let m = &self.inst_map[board as usize];
        if inst as usize >= m.len() {
            u32::MAX
        } else {
            m[inst as usize]
        }
    }
}

fn copy_widths(v: &Vec<Width>) -> (r: Vec<Width>)
    ensures
        r@ == v@,
{
    let mut out: Vec<Width> = Vec::new();
    let mut i: usize = 0;
    while i < v.len()
        invariant
            i <= v@.len(),
            out@ == v@.subrange(0, i as int),
        decreases v@.len() - i,
    {
        out.push(v[i]);
        i = i + 1;
    }
    assert(out@ =~= v@);
    out
}

fn copy_bools(v: &Vec<bool>) -> (r: Vec<bool>)
    ensures
        r@ == v@,
{
    let mut out: Vec<bool> = Vec::new();
    let mut i: usize = 0;
    while i < v.len()
        invariant
            i <= v@.len(),
            out@ == v@.subrange(0, i as int),
        decreases v@.len() - i,
    {
        out.push(v[i]);
        i = i + 1;
    }
    assert(out@ =~= v@);
    out
}


// ---------------------------------------------------------------------------
// Expansion
// ---------------------------------------------------------------------------

/// Most instances, nets or pins a flattened netlist holds; a sub-circuit that
/// would go beyond it is cut off like one nested too deep.
pub const MAX_FLAT: u32 = 0x4000_0000;

/// Every drawing is well formed and `nls[i]` is its netlist.
pub open spec fn nls_ok(boards: Seq<Board>, nls: Seq<Netlist>) -> bool {
    &&& nls.len() == boards.len()
    &&& forall|i: int| 0 <= i < boards.len() ==> (#[trigger] boards[i]).wf()
    &&& forall|i: int| 0 <= i < boards.len() ==> netlist_ok(boards[i], &#[trigger] nls[i])
}

/// Local net of pin `s` of instance `ii` in a drawing's netlist.
pub open spec fn local_pin_net(nl: Netlist, ii: int, s: int) -> u32 {
    nl.pin_net@[nl.pin_start@[ii] + s]
}

/// State of an expansion in progress. An occurrence is one expanded copy of
/// a drawing; global instance, net and pin numbers are handed out in order.
struct Builder {
    occ_board: Vec<u32>,
    occ_inst_base: Vec<u32>,
    occ_net_base: Vec<u32>,
    first_occ: Vec<u32>,
    pin_start: Vec<u32>,
    pin_occ: Vec<u32>,
    pin_local: Vec<u32>,
    pin_width: Vec<Width>,
    pin_is_out: Vec<bool>,
    unions: Vec<(u32, u32)>,
    inst_cursor: u32,
    net_cursor: u32,
    truncated: bool,
}

spec fn occ_len(bd: &Builder, boards: Seq<Board>, o: int) -> int {
    boards[bd.occ_board@[o] as int].instances@.len() as int
}

/// Global first pin of instance `ii` of occurrence `o`.
spec fn gstart(bd: &Builder, o: int, ii: int) -> u32 {
    bd.pin_start@[bd.occ_inst_base@[o] + ii]
}

/// Occurrence and local net recorded for global pin `st + s`.
spec fn pin_at(bd: &Builder, st: int, s: int) -> (u32, u32) {
    (bd.pin_occ@[st + s], bd.pin_local@[st + s])
}

/// The pins of instance `ii` of occurrence `o` are recorded.
spec fn inst_done(bd: &Builder, boards: Seq<Board>, nls: Seq<Netlist>, o: int, ii: int) -> bool {
    let b = bd.occ_board@[o] as int;
    &&& gstart(bd, o, ii) + boards[b].instances@[ii].pins@.len() <= bd.pin_occ@.len()
    &&& forall|s: int|
        0 <= s < boards[b].instances@[ii].pins@.len() ==> #[trigger] pin_at(bd, gstart(bd, o, ii) as int, s) == (
            o as u32,
            local_pin_net(nls[b], ii, s),
        )
}

spec fn done_upto(bd: &Builder, boards: Seq<Board>, nls: Seq<Netlist>, o: int, upto: int) -> bool {
    forall|ii: int| 0 <= ii < upto ==> #[trigger] inst_done(bd, boards, nls, o, ii)
}

/// Index sanity of an expansion in progress.
spec fn bld_ok(bd: &Builder, boards: Seq<Board>, nls: Seq<Netlist>) -> bool {
    let no = bd.occ_board@.len();
    &&& bd.occ_inst_base@.len() == no
    &&& bd.occ_net_base@.len() == no
    &&& no <= MAX_FLAT
    &&& forall|o: int|
        0 <= o < no ==> {
            &&& (#[trigger] bd.occ_board@[o]) < boards.len()
            &&& bd.occ_inst_base@[o] + occ_len(bd, boards, o) <= bd.inst_cursor
            &&& bd.occ_net_base@[o] + nls[bd.occ_board@[o] as int].net_count <= bd.net_cursor
        }
    &&& forall|o1: int, o2: int|
        0 <= o1 < o2 < no ==> #[trigger] bd.occ_inst_base@[o1] + occ_len(bd, boards, o1) <= #[trigger] bd.occ_inst_base@[o2]
    &&& bd.pin_start@.len() == bd.inst_cursor
    &&& bd.pin_local@.len() == bd.pin_occ@.len()
    &&& bd.pin_width@.len() == bd.pin_occ@.len()
    &&& bd.pin_is_out@.len() == bd.pin_occ@.len()
    &&& forall|p: int|
        0 <= p < bd.pin_occ@.len() ==> (#[trigger] bd.pin_occ@[p]) < no && (bd.pin_local@[p] == NO_NET
            || bd.occ_net_base@[bd.pin_occ@[p] as int] + bd.pin_local@[p] < bd.net_cursor)
    &&& forall|u: int| 0 <= u < bd.unions@.len() ==> (#[trigger] bd.unions@[u]).0 < bd.net_cursor && bd.unions@[u].1 < bd.net_cursor
    &&& bd.first_occ@.len() == boards.len()
    &&& forall|b: int|
        0 <= b < boards.len() ==> (#[trigger] bd.first_occ@[b] == 0xFFFF_FFFFu32 || (bd.first_occ@[b] < no
            && bd.occ_board@[bd.first_occ@[b] as int] == b))
    &&& bd.inst_cursor <= MAX_FLAT
    &&& bd.net_cursor <= MAX_FLAT
    &&& bd.pin_occ@.len() <= MAX_FLAT
}

/// What a walk leaves of what was there before it.
spec fn bld_frame(a: &Builder, b: &Builder, occ: int, boards: Seq<Board>) -> bool {
    &&& a.occ_board@.len() <= b.occ_board@.len()
    &&& b.occ_board@.subrange(0, a.occ_board@.len() as int) == a.occ_board@
    &&& b.occ_inst_base@.subrange(0, a.occ_board@.len() as int) == a.occ_inst_base@
    &&& b.occ_net_base@.subrange(0, a.occ_board@.len() as int) == a.occ_net_base@
    &&& a.pin_occ@.len() <= b.pin_occ@.len()
    &&& b.pin_occ@.subrange(0, a.pin_occ@.len() as int) == a.pin_occ@
    &&& b.pin_local@.subrange(0, a.pin_occ@.len() as int) == a.pin_local@
    &&& a.inst_cursor <= b.inst_cursor
    &&& a.net_cursor <= b.net_cursor
    &&& forall|g: int|
        0 <= g < a.pin_start@.len() && !(a.occ_inst_base@[occ] <= g < a.occ_inst_base@[occ] + occ_len(a, boards, occ))
            ==> #[trigger] b.pin_start@[g] == a.pin_start@[g]
    &&& a.truncated ==> b.truncated
    &&& forall|x: int| 0 <= x < a.first_occ@.len() && #[trigger] a.first_occ@[x] != 0xFFFF_FFFFu32 ==> b.first_occ@[x] == a.first_occ@[x]
}

proof fn lemma_done_frame(a: &Builder, b: &Builder, boards: Seq<Board>, nls: Seq<Netlist>, o: int, upto: int)
    requires
        0 <= o < a.occ_board@.len(),
        a.occ_board@.len() <= b.occ_board@.len(),
        b.occ_board@[o] == a.occ_board@[o],
        b.occ_inst_base@[o] == a.occ_inst_base@[o],
        a.pin_occ@.len() <= b.pin_occ@.len(),
        b.pin_occ@.len() == b.pin_local@.len(),
        a.pin_occ@.len() == a.pin_local@.len(),
        b.pin_occ@.subrange(0, a.pin_occ@.len() as int) == a.pin_occ@,
        b.pin_local@.subrange(0, a.pin_occ@.len() as int) == a.pin_local@,
        forall|ii: int| 0 <= ii < upto ==> #[trigger] b.pin_start@[a.occ_inst_base@[o] + ii] == a.pin_start@[a.occ_inst_base@[o] + ii],
        done_upto(a, boards, nls, o, upto),
    ensures
        done_upto(b, boards, nls, o, upto),
{
    assert forall|ii: int| 0 <= ii < upto implies #[trigger] inst_done(b, boards, nls, o, ii) by {
        assert(inst_done(a, boards, nls, o, ii));
        assert(b.pin_start@[a.occ_inst_base@[o] + ii] == a.pin_start@[a.occ_inst_base@[o] + ii]);
        assert(gstart(b, o, ii) == gstart(a, o, ii));
        let bb = a.occ_board@[o] as int;
        assert forall|s: int|
            0 <= s < boards[bb].instances@[ii].pins@.len() implies #[trigger] pin_at(b, gstart(b, o, ii) as int, s) == (
                o as u32,
                local_pin_net(nls[bb], ii, s),
            ) by {
            let p = gstart(a, o, ii) + s;
            assert(pin_at(a, gstart(a, o, ii) as int, s) == (o as u32, local_pin_net(nls[bb], ii, s)));
            assert(b.pin_occ@[p] == b.pin_occ@.subrange(0, a.pin_occ@.len() as int)[p]);
            assert(b.pin_local@[p] == b.pin_local@.subrange(0, a.pin_occ@.len() as int)[p]);
        }
    }
}

pub proof fn lemma_pin_base_step(b: Board, i: int)
    requires
        0 <= i < b.instances@.len(),
    ensures
        crate::netlist::pin_base(b, i + 1) == crate::netlist::pin_base(b, i) + b.instances@[i].pins@.len(),
        crate::netlist::pin_base(b, 0) == 0,
{
    let s = b.instances@;
    assert(s.subrange(0, i + 1).drop_last() =~= s.subrange(0, i));
    assert(s.subrange(0, 0) =~= Seq::<Instance>::empty());
}

pub proof fn lemma_pin_base_zero(b: Board)
    ensures
        crate::netlist::pin_base(b, 0) == 0,
{
    assert(b.instances@.subrange(0, 0) =~= Seq::<Instance>::empty());
}

pub proof fn lemma_pin_base_total(b: Board)
    ensures
        crate::netlist::pin_base(b, b.instances@.len() as int) == npins(b),
{
    assert(b.instances@.subrange(0, b.instances@.len() as int) =~= b.instances@);
}

/// Instance `ii` of drawing `b` refers to a drawing that does not exist or to
/// the drawing itself.
pub open spec fn bad_ref(boards: Seq<Board>, b: int, ii: int) -> bool {
    let sub = boards[b].instances@[ii].sub;
    sub != NO_SUB && (sub >= boards.len() || sub == b)
}

fn path_has(path: &Vec<u32>, x: u32) -> (r: bool)
    ensures
        r == path@.contains(x),
{
    let mut i: usize = 0;
    while i < path.len()
        invariant
            i <= path@.len(),
            forall|j: int| 0 <= j < i ==> path@[j] != x,
        decreases path@.len() - i,
    {
        if path[i] == x {
            return true;
        }
        i = i + 1;
    }
    false
}

/// Local net of the first pin of instance `pi` (`NO_NET` when it has none).
fn first_pin_net(board: &Board, nl: &Netlist, pi: usize) -> (r: u32)
    requires
        board.wf(),
        netlist_ok(*board, nl),
        pi < board.instances@.len(),
    ensures
        r == NO_NET || r < nl.net_count,
{
    if board.instances[pi].pins.len() == 0 {
        return NO_NET;
    }
    proof {
        assert(tables_ok(*board, nl));
    }
    nl.pin_net[nl.pin_start[pi] as usize]
}

/// Expanding drawing `b`, reached along `path` (the drawings from the root
/// down to `b`, `b` last), from its instance `ii` on, meets a sub-circuit
/// instance that cannot be expanded (see `trunc_here`).
pub open spec fn trunc_from(bs: Seq<Board>, b: int, path: Seq<u32>, ii: int) -> bool
    decreases MAX_DEPTH - path.len(), bs[b].instances@.len() - ii, 1int,
{
    if b < 0 || b >= bs.len() || ii < 0 || ii >= bs[b].instances@.len() || path.len() > MAX_DEPTH {
        false
    } else {
        trunc_here(bs, b, path, ii) || trunc_from(bs, b, path, ii + 1)
    }
}

/// Instance `ii` of drawing `b`, reached along `path`, is a sub-circuit
/// instance that cannot be expanded (its drawing is missing, is `b` itself or
/// is already on the path, or the path already holds `MAX_DEPTH` drawings),
/// or the expansion of its drawing meets one.
pub open spec fn trunc_here(bs: Seq<Board>, b: int, path: Seq<u32>, ii: int) -> bool
    decreases MAX_DEPTH - path.len(), bs[b].instances@.len() - ii, 0int,
{
    if b < 0 || b >= bs.len() || ii < 0 || ii >= bs[b].instances@.len() || path.len() > MAX_DEPTH {
        false
    } else {
        let sub = bs[b].instances@[ii].sub;
        if sub == NO_SUB {
            false
        } else if sub >= bs.len() || sub == b || path.contains(sub) || path.len() >= MAX_DEPTH {
            true
        } else {
            trunc_from(bs, sub as int, path.push(sub), 0)
        }
    }
}

/// Expanding drawing `b` reached along `path` meets, at some depth, a
/// sub-circuit instance that cannot be expanded.
pub open spec fn truncates(bs: Seq<Board>, b: int, path: Seq<u32>) -> bool {
    trunc_from(bs, b, path, 0)
}

/// Where the sub-circuit of instance `ii` can be expanded, whether that
/// instance truncates is whether the expansion of its drawing does.
proof fn lemma_trunc_descend(bs: Seq<Board>, b: int, path: Seq<u32>, ii: int)
    requires
        0 <= b < bs.len(),
        0 <= ii < bs[b].instances@.len(),
        1 <= path.len() < MAX_DEPTH,
        bs[b].instances@[ii].sub != NO_SUB,
        bs[b].instances@[ii].sub < bs.len(),
        bs[b].instances@[ii].sub != b,
        !path.contains(bs[b].instances@[ii].sub),
    ensures
        trunc_here(bs, b, path, ii) == truncates(bs, bs[b].instances@[ii].sub as int, path.push(bs[b].instances@[ii].sub)),
{
}

/// Expands occurrence `occ`: records the pins of its instances and expands
/// the sub-circuits they refer to, depth first.
#[verifier::rlimit(60)]
fn walk(bd: &mut Builder, boards: &Vec<Board>, nls: &Vec<Netlist>, occ: usize, path: &mut Vec<u32>, reserve: u32)
    requires
        nls_ok(boards@, nls@),
        bld_ok(old(bd), boards@, nls@),
        occ < old(bd).occ_board@.len(),
        1 <= old(path)@.len() <= MAX_DEPTH,
        old(path)@.last() == old(bd).occ_board@[occ as int],
        old(bd).pin_occ@.len() + npins(boards@[old(bd).occ_board@[occ as int] as int]) + reserve <= MAX_FLAT,
    ensures
        bld_ok(final(bd), boards@, nls@),
        final(path)@ == old(path)@,
        bld_frame(old(bd), final(bd), occ as int, boards@),
        final(bd).pin_occ@.len() + reserve <= MAX_FLAT,
        done_upto(final(bd), boards@, nls@, occ as int, occ_len(old(bd), boards@, occ as int)),
        forall|o: int|
            old(bd).occ_board@.len() <= o < final(bd).occ_board@.len() ==> #[trigger] done_upto(
                final(bd),
                boards@,
                nls@,
                o,
                occ_len(final(bd), boards@, o),
            ),
        (exists|ii: int|
            0 <= ii < occ_len(old(bd), boards@, occ as int) && #[trigger] bad_ref(boards@, old(bd).occ_board@[occ as int] as int, ii))
            ==> final(bd).truncated,
        truncates(boards@, old(bd).occ_board@[occ as int] as int, old(path)@) ==> final(bd).truncated,
        (forall|ii: int|
            0 <= ii < occ_len(old(bd), boards@, occ as int) ==> (#[trigger] boards@[old(bd).occ_board@[occ as int] as int].instances@[ii]).sub
                == NO_SUB) ==> final(bd).truncated == old(bd).truncated && final(bd).occ_board@.len() == old(bd).occ_board@.len()
                && final(bd).inst_cursor == old(bd).inst_cursor,
    decreases MAX_DEPTH - old(path)@.len(),
{
    let b = bd.occ_board[occ] as usize;
    let board = &boards[b];
    let nl = &nls[b];
    proof {
        assert(bd.occ_board@[occ as int] < boards@.len());
        assert(boards@[b as int].wf() && netlist_ok(boards@[b as int], &nls@[b as int]));
        assert(tables_ok(*board, nl));
        lemma_pin_base_zero(*board);
        lemma_pin_base_total(*board);
    }
    let net_base = bd.occ_net_base[occ];
    let inst_base = bd.occ_inst_base[occ];
    let n = board.instances.len();
    let np_b = nl.pin_net.len();
    let ghost bd0 = *bd;
    proof {
        assert(bd.pin_occ@.subrange(0, bd0.pin_occ@.len() as int) =~= bd0.pin_occ@);
        assert(bd.pin_local@.subrange(0, bd0.pin_occ@.len() as int) =~= bd0.pin_local@);
        assert(bd.occ_board@.subrange(0, bd0.occ_board@.len() as int) =~= bd0.occ_board@);
        assert(bd.occ_inst_base@.subrange(0, bd0.occ_board@.len() as int) =~= bd0.occ_inst_base@);
        assert(bd.occ_net_base@.subrange(0, bd0.occ_board@.len() as int) =~= bd0.occ_net_base@);
    }
    let mut ii: usize = 0;
    while ii < n
        invariant
            nls_ok(boards@, nls@),
            bld_ok(bd, boards@, nls@),
            b < boards@.len(),
            *board == boards@[b as int],
            *nl == nls@[b as int],
            board.wf(),
            netlist_ok(*board, nl),
            tables_ok(*board, nl),
            n == board.instances@.len(),
            np_b == nl.pin_net@.len(),
            np_b == npins(*board),
            occ < bd0.occ_board@.len(),
            bd0.occ_board@[occ as int] == b,
            bd0.occ_net_base@[occ as int] == net_base,
            bd0.occ_inst_base@[occ as int] == inst_base,
            bld_ok(&bd0, boards@, nls@),
            bd.occ_board@[occ as int] == b,
            bd.occ_net_base@[occ as int] == net_base,
            bd.occ_inst_base@[occ as int] == inst_base,
            path@ == old(path)@,
            1 <= path@.len() <= MAX_DEPTH,
            path@.last() == b,
            bd0 == *old(bd),
            ii <= n,
            bld_frame(&bd0, bd, occ as int, boards@),
            done_upto(bd, boards@, nls@, occ as int, ii as int),
            forall|o: int|
                bd0.occ_board@.len() <= o < bd.occ_board@.len() ==> #[trigger] done_upto(bd, boards@, nls@, o, occ_len(bd, boards@, o)),
            bd.pin_occ@.len() + (np_b - crate::netlist::pin_base(*board, ii as int)) + reserve <= MAX_FLAT,
            (exists|i2: int| 0 <= i2 < ii && #[trigger] bad_ref(boards@, b as int, i2)) ==> bd.truncated,
            truncates(boards@, b as int, path@) && !trunc_from(boards@, b as int, path@, ii as int) ==> bd.truncated,
            (forall|i2: int| 0 <= i2 < ii ==> (#[trigger] board.instances@[i2]).sub == NO_SUB) ==> bd.truncated == bd0.truncated
                && bd.occ_board@.len() == bd0.occ_board@.len() && bd.inst_cursor == bd0.inst_cursor,
        decreases n - ii,
    {
        let inst = &board.instances[ii];
        let ghost t0 = bd.truncated;
        proof {
            lemma_pin_base_step(*board, ii as int);
            assert(nl.pin_start@[ii as int] == crate::netlist::pin_base(*board, ii as int));
        }
        let gi = inst_base + ii as u32;
        let base = bd.pin_occ.len() as u32;
        let ghost bd1 = *bd;
        bd.pin_start.set(gi as usize, base);
        let ps = nl.pin_start[ii] as usize;
        let m = inst.pins.len();
        let mut sl: usize = 0;
        while sl < m
            invariant
                bld_ok(bd, boards@, nls@),
                nls_ok(boards@, nls@),
                b < boards@.len(),
                *board == boards@[b as int],
                *nl == nls@[b as int],
                netlist_ok(*board, nl),
                tables_ok(*board, nl),
                occ < bd.occ_board@.len(),
                bd.occ_board@[occ as int] == b,
                bd.occ_net_base@[occ as int] == net_base,
                *inst == board.instances@[ii as int],
                ii < n,
                n == board.instances@.len(),
                m == inst.pins@.len(),
                ps == nl.pin_start@[ii as int],
                ps + m <= np_b,
                np_b == nl.pin_net@.len(),
                sl <= m,
                base as int == bd1.pin_occ@.len(),
                bd.pin_occ@.len() == base + sl,
                bd.pin_occ@.len() + (np_b - (ps + sl)) + reserve <= MAX_FLAT,
                bd.occ_board@ == bd1.occ_board@,
                bd.occ_inst_base@ == bd1.occ_inst_base@,
                bd.occ_net_base@ == bd1.occ_net_base@,
                bd.pin_start@ == bd1.pin_start@.update(gi as int, base),
                bd.unions@ == bd1.unions@,
                bd.first_occ@ == bd1.first_occ@,
                bd.inst_cursor == bd1.inst_cursor,
                bd.net_cursor == bd1.net_cursor,
                bd.truncated == bd1.truncated,
                bd.pin_occ@.subrange(0, base as int) == bd1.pin_occ@,
                bd.pin_local@.subrange(0, base as int) == bd1.pin_local@,
                forall|s2: int| 0 <= s2 < sl ==> #[trigger] pin_at(bd, base as int, s2) == (occ as u32, local_pin_net(*nl, ii as int, s2)),
            decreases m - sl,
        {
            proof {
                assert(nl.pin_net@[ps + sl as int] == NO_NET || nl.pin_net@[ps + sl as int] < nl.net_count);
            }
            let ghost bd2 = *bd;
            bd.pin_occ.push(occ as u32);
            bd.pin_local.push(nl.pin_net[ps + sl]);
            bd.pin_width.push(inst.pins[sl].width);
            bd.pin_is_out.push(inst.pins[sl].dir == Dir::Out);
            proof {
                assert forall|s2: int| 0 <= s2 < sl + 1 implies #[trigger] pin_at(bd, base as int, s2) == (occ as u32, local_pin_net(*nl, ii as int, s2)) by {
                    if s2 < sl {
                        assert(pin_at(&bd2, base as int, s2) == (occ as u32, local_pin_net(*nl, ii as int, s2)));
                    }
                }
                assert(bd.pin_occ@.subrange(0, base as int) =~= bd2.pin_occ@.subrange(0, base as int));
                assert(bd.pin_local@.subrange(0, base as int) =~= bd2.pin_local@.subrange(0, base as int));
            }
            sl = sl + 1;
        }
        proof {
            assert(inst_done(bd, boards@, nls@, occ as int, ii as int)) by {
                assert(gstart(bd, occ as int, ii as int) == base);
            }
            // pins of earlier instances and earlier occurrences are untouched
            lemma_done_frame(&bd1, bd, boards@, nls@, occ as int, ii as int);
            assert forall|o: int|
                bd0.occ_board@.len() <= o < bd.occ_board@.len() implies #[trigger] done_upto(bd, boards@, nls@, o, occ_len(bd, boards@, o)) by {
                assert(done_upto(&bd1, boards@, nls@, o, occ_len(&bd1, boards@, o)));
                assert forall|i3: int| 0 <= i3 < occ_len(&bd1, boards@, o) implies #[trigger] bd.pin_start@[bd1.occ_inst_base@[o] + i3]
                    == bd1.pin_start@[bd1.occ_inst_base@[o] + i3] by {
                    if o < occ as int {
                        assert(bd1.occ_inst_base@[o] + occ_len(&bd1, boards@, o) <= bd1.occ_inst_base@[occ as int]);
                    } else if o > occ as int {
                        assert(bd1.occ_inst_base@[occ as int] + occ_len(&bd1, boards@, occ as int) <= bd1.occ_inst_base@[o]);
                    }
                }
                lemma_done_frame(&bd1, bd, boards@, nls@, o, occ_len(&bd1, boards@, o));
            }
            assert(done_upto(bd, boards@, nls@, occ as int, ii as int + 1));
            assert(bd.pin_occ@.subrange(0, bd0.pin_occ@.len() as int) =~= bd1.pin_occ@.subrange(0, bd0.pin_occ@.len() as int));
            assert(bd.pin_local@.subrange(0, bd0.pin_occ@.len() as int) =~= bd1.pin_local@.subrange(0, bd0.pin_occ@.len() as int));
        }
        if inst.sub != NO_SUB {
            let sub = inst.sub as usize;
            let rem = np_b - (ps + m);
            let bad = sub >= boards.len() || sub == b;
            let mut fits = false;
            if !bad && !path_has(path, sub as u32) && path.len() < MAX_DEPTH && bd.occ_board.len() < MAX_FLAT as usize {
                let cn = boards[sub].instances.len();
                let cnets = nls[sub].net_count;
                let cpins = nls[sub].pin_net.len();
                fits = cn <= (MAX_FLAT - bd.inst_cursor) as usize && cnets <= MAX_FLAT - bd.net_cursor && cpins <= MAX_FLAT as usize
                    && bd.pin_occ.len() + cpins + (reserve as usize) + rem <= MAX_FLAT as usize;
            }
            if !fits {
                let ghost bdt = *bd;
                bd.truncated = true;
                proof {
                    assert(trunc_here(boards@, b as int, path@, ii as int) ==> bd.truncated);
                }
                proof {
                    assert(bd.pin_occ@.subrange(0, bdt.pin_occ@.len() as int) =~= bdt.pin_occ@);
                    assert(bd.pin_local@.subrange(0, bdt.pin_occ@.len() as int) =~= bdt.pin_local@);
                    lemma_done_frame(&bdt, bd, boards@, nls@, occ as int, ii as int + 1);
                    assert forall|o: int|
                        bd0.occ_board@.len() <= o < bd.occ_board@.len() implies #[trigger] done_upto(bd, boards@, nls@, o, occ_len(bd, boards@, o)) by {
                        assert(done_upto(&bdt, boards@, nls@, o, occ_len(&bdt, boards@, o)));
                        lemma_done_frame(&bdt, bd, boards@, nls@, o, occ_len(&bdt, boards@, o));
                    }
                }
            } else {
                assert(sub < boards@.len());
                let cb = &boards[sub];
                let cnl = &nls[sub];
                proof {
                    assert(boards@[sub as int].wf() && netlist_ok(boards@[sub as int], &nls@[sub as int]));
                    assert(tables_ok(*cb, cnl));
                }
                let ghost bd3 = *bd;
                assert(bd3.first_occ@.len() == boards@.len());
                let child = bd.occ_board.len();
                let cbase = bd.inst_cursor;
                let cnet = bd.net_cursor;
                bd.occ_board.push(sub as u32);
                bd.occ_inst_base.push(cbase);
                bd.occ_net_base.push(cnet);
                bd.inst_cursor = cbase + cb.instances.len() as u32;
                let ghost bd5 = *bd;
                while bd.pin_start.len() < bd.inst_cursor as usize
                    invariant
                        bd.occ_board@ == bd5.occ_board@,
                        bd.occ_inst_base@ == bd5.occ_inst_base@,
                        bd.occ_net_base@ == bd5.occ_net_base@,
                        bd.first_occ@ == bd5.first_occ@,
                        bd.pin_occ@ == bd5.pin_occ@,
                        bd.pin_local@ == bd5.pin_local@,
                        bd.pin_width@ == bd5.pin_width@,
                        bd.pin_is_out@ == bd5.pin_is_out@,
                        bd.unions@ == bd5.unions@,
                        bd.inst_cursor == bd5.inst_cursor,
                        bd.net_cursor == bd5.net_cursor,
                        bd.truncated == bd5.truncated,
                        bd.pin_start@.len() <= bd.inst_cursor,
                        bd.pin_start@.subrange(0, bd3.pin_start@.len() as int) == bd3.pin_start@,
                        bd3.pin_start@.len() <= bd.pin_start@.len(),
                    decreases bd.inst_cursor - bd.pin_start@.len(),
                {
                    let ghost ps0 = bd.pin_start@;
                    bd.pin_start.push(0);
                    assert(bd.pin_start@.subrange(0, bd3.pin_start@.len() as int) =~= ps0.subrange(0, bd3.pin_start@.len() as int));
                }
                bd.net_cursor = cnet + cnl.net_count;
                if bd.first_occ[sub] == 0xFFFF_FFFFu32 {
                    bd.first_occ.set(sub, child as u32);
                }
                // the shell's pins join the nets of the drawing's interface pins
                let sh = shape(cb);
                let ni = sh.inputs.len();
                let no = sh.outputs.len();
                let mut k: usize = 0;
                while k < ni + no
                    invariant
                        bld_ok(bd, boards@, nls@),
                        k <= ni + no,
                        ni == sh.inputs@.len(),
                        no == sh.outputs@.len(),
                        ni + no <= cb.instances@.len(),
                        iface_sorted(*cb, sh.inputs@, DefId::InputPin),
                        iface_sorted(*cb, sh.outputs@, DefId::OutputPin),
                        *cb == boards@[sub as int],
                        *cnl == nls@[sub as int],
                        cb.wf(),
                        netlist_ok(*cb, cnl),
                        occ < child,
                        child == bd.occ_board@.len() - 1,
                        bd.occ_net_base@[occ as int] == net_base,
                        bd.occ_board@[occ as int] == b,
                        bd.occ_net_base@[child as int] == cnet,
                        bd.occ_board@[child as int] == sub,
                        cnet + cnl.net_count <= bd.net_cursor,
                        *nl == nls@[b as int],
                        base + m <= bd.pin_occ@.len(),
                        forall|s2: int| 0 <= s2 < m ==> #[trigger] pin_at(&bd3, base as int, s2) == (occ as u32, local_pin_net(*nl, ii as int, s2)),
                        bd.occ_board@ == bd3.occ_board@.push(sub as u32),
                        bd.occ_inst_base@ == bd3.occ_inst_base@.push(cbase),
                        bd.occ_net_base@ == bd3.occ_net_base@.push(cnet),
                        bd.pin_occ@ == bd3.pin_occ@,
                        bd.pin_local@ == bd3.pin_local@,
                        bd.pin_start@.subrange(0, bd3.pin_start@.len() as int) == bd3.pin_start@,
                        bd.inst_cursor == cbase + cb.instances@.len(),
                        bd.truncated == bd3.truncated,
                        forall|x: int| 0 <= x < bd3.first_occ@.len() && #[trigger] bd3.first_occ@[x] != 0xFFFF_FFFFu32 ==> bd.first_occ@[x] == bd3.first_occ@[x],
                        bd.first_occ@.len() == bd3.first_occ@.len(),
                        forall|x: int| 0 <= x < bd3.first_occ@.len() && x != sub ==> #[trigger] bd.first_occ@[x] == bd3.first_occ@[x],
                        bd.first_occ@[sub as int] == bd3.first_occ@[sub as int] || bd.first_occ@[sub as int] == child,
                        bld_ok(&bd3, boards@, nls@),
                        done_upto(&bd3, boards@, nls@, occ as int, ii as int + 1),
                        forall|o: int|
                            bd0.occ_board@.len() <= o < bd3.occ_board@.len() ==> #[trigger] done_upto(&bd3, boards@, nls@, o, occ_len(&bd3, boards@, o)),
                    decreases ni + no - k,
                {
                    let pi = if k < ni { sh.inputs[k] } else { sh.outputs[k - ni] } as usize;
                    if k < m {
                        let a = bd.pin_local[base as usize + k];
                        let c = first_pin_net(cb, cnl, pi);
                        proof {
                            assert(pin_at(&bd3, base as int, k as int) == (occ as u32, local_pin_net(*nl, ii as int, k as int)));
                            assert(a == local_pin_net(*nl, ii as int, k as int));
                        }
                        if a != NO_NET && c != NO_NET {
                            bd.unions.push((net_base + a, cnet + c));
                        }
                    }
                    k = k + 1;
                }
                proof {
                    // the new occurrence fits the invariant
                    assert forall|o: int| 0 <= o < bd.occ_board@.len() implies {
                        &&& (#[trigger] bd.occ_board@[o]) < boards@.len()
                        &&& bd.occ_inst_base@[o] + occ_len(bd, boards@, o) <= bd.inst_cursor
                        &&& bd.occ_net_base@[o] + nls@[bd.occ_board@[o] as int].net_count <= bd.net_cursor
                    } by {
                        if o < child {
                            assert(bd.occ_board@[o] == bd3.occ_board@[o]);
                            assert(occ_len(bd, boards@, o) == occ_len(&bd3, boards@, o));
                        }
                    }
                    assert forall|o1: int, o2: int|
                        0 <= o1 < o2 < bd.occ_board@.len() implies #[trigger] bd.occ_inst_base@[o1] + occ_len(bd, boards@, o1)
                        <= #[trigger] bd.occ_inst_base@[o2] by {
                        assert(bd.occ_board@[o1] == bd3.occ_board@[o1]);
                        assert(occ_len(bd, boards@, o1) == occ_len(&bd3, boards@, o1));
                        if o2 < child {
                            assert(occ_len(bd, boards@, o2) == occ_len(&bd3, boards@, o2));
                        }
                    }
                    assert forall|p2: int| 0 <= p2 < bd.pin_occ@.len() implies (#[trigger] bd.pin_occ@[p2]) < bd.occ_board@.len()
                        && (bd.pin_local@[p2] == NO_NET || bd.occ_net_base@[bd.pin_occ@[p2] as int] + bd.pin_local@[p2] < bd.net_cursor) by {
                        assert(bd3.pin_occ@[p2] < bd3.occ_board@.len());
                    }
                    assert forall|x: int|
                        0 <= x < boards@.len() implies (#[trigger] bd.first_occ@[x] == 0xFFFF_FFFFu32 || (bd.first_occ@[x] < bd.occ_board@.len()
                        && bd.occ_board@[bd.first_occ@[x] as int] == x)) by {
                        if x != sub as int && bd.first_occ@[x] != 0xFFFF_FFFFu32 {
                            assert(bd3.first_occ@[x] == bd.first_occ@[x]);
                        }
                    }
                    assert(bld_ok(bd, boards@, nls@));
                    lemma_pin_base_total(*cb);
                    assert forall|i3: int| 0 <= i3 < ii + 1 implies #[trigger] bd.pin_start@[bd3.occ_inst_base@[occ as int] + i3]
                        == bd3.pin_start@[bd3.occ_inst_base@[occ as int] + i3] by {
                        assert(bd.pin_start@[bd3.occ_inst_base@[occ as int] + i3] == bd.pin_start@.subrange(0, bd3.pin_start@.len() as int)[bd3.occ_inst_base@[occ as int] + i3]);
                    }
                    assert(bd.pin_occ@.subrange(0, bd3.pin_occ@.len() as int) =~= bd3.pin_occ@);
                    assert(bd.pin_local@.subrange(0, bd3.pin_occ@.len() as int) =~= bd3.pin_local@);
                    lemma_done_frame(&bd3, bd, boards@, nls@, occ as int, ii as int + 1);
                    assert forall|o: int|
                        bd0.occ_board@.len() <= o < bd3.occ_board@.len() implies #[trigger] done_upto(bd, boards@, nls@, o, occ_len(bd, boards@, o)) by {
                        assert(done_upto(&bd3, boards@, nls@, o, occ_len(&bd3, boards@, o)));
                        assert(occ_len(bd, boards@, o) == occ_len(&bd3, boards@, o));
                        assert forall|i3: int| 0 <= i3 < occ_len(&bd3, boards@, o) implies #[trigger] bd.pin_start@[bd3.occ_inst_base@[o] + i3]
                            == bd3.pin_start@[bd3.occ_inst_base@[o] + i3] by {
                            assert(bd.pin_start@[bd3.occ_inst_base@[o] + i3] == bd.pin_start@.subrange(0, bd3.pin_start@.len() as int)[bd3.occ_inst_base@[o] + i3]);
                        }
                        lemma_done_frame(&bd3, bd, boards@, nls@, o, occ_len(&bd3, boards@, o));
                    }
                }
                let ghost bd4 = *bd;
                let ghost p4 = path@;
                path.push(sub as u32);
                walk(bd, boards, nls, child, path, reserve + rem as u32);
                path.pop();
                proof {
                    assert(path@ =~= old(path)@);
                    assert(bd4.occ_board@[child as int] == sub);
                    lemma_trunc_descend(boards@, b as int, p4, ii as int);
                    assert(trunc_here(boards@, b as int, path@, ii as int) ==> bd.truncated);
                    // what the child's walk left of this occurrence and of the earlier ones
                    assert forall|i3: int| 0 <= i3 < ii + 1 implies #[trigger] bd.pin_start@[bd4.occ_inst_base@[occ as int] + i3]
                        == bd4.pin_start@[bd4.occ_inst_base@[occ as int] + i3] by {
                        assert(bd4.occ_inst_base@[occ as int] + occ_len(&bd4, boards@, occ as int) <= cbase);
                    }
                    lemma_done_frame(&bd4, bd, boards@, nls@, occ as int, ii as int + 1);
                    assert forall|o: int|
                        bd0.occ_board@.len() <= o < bd.occ_board@.len() implies #[trigger] done_upto(bd, boards@, nls@, o, occ_len(bd, boards@, o)) by {
                        if o < child {
                            assert(done_upto(&bd4, boards@, nls@, o, occ_len(&bd4, boards@, o)));
                            assert(bd.occ_board@[o] == bd4.occ_board@[o]);
                            assert(bd.occ_inst_base@[o] == bd4.occ_inst_base@[o]);
                            assert forall|i3: int| 0 <= i3 < occ_len(&bd4, boards@, o) implies #[trigger] bd.pin_start@[bd4.occ_inst_base@[o] + i3]
                                == bd4.pin_start@[bd4.occ_inst_base@[o] + i3] by {
                                assert(bd4.occ_inst_base@[o] + occ_len(&bd4, boards@, o) <= bd4.occ_inst_base@[child as int]);
                            }
                            lemma_done_frame(&bd4, bd, boards@, nls@, o, occ_len(&bd4, boards@, o));
                        } else if o == child {
                            assert(occ_len(bd, boards@, o) == occ_len(&bd4, boards@, o));
                        }
                    }
                    assert(bd.pin_occ@.subrange(0, bd0.pin_occ@.len() as int) =~= bd4.pin_occ@.subrange(0, bd0.pin_occ@.len() as int));
                    assert(bd.pin_local@.subrange(0, bd0.pin_occ@.len() as int) =~= bd4.pin_local@.subrange(0, bd0.pin_occ@.len() as int));
                    assert(bd.occ_board@.subrange(0, bd0.occ_board@.len() as int) =~= bd4.occ_board@.subrange(0, bd0.occ_board@.len() as int));
                    assert(bd.occ_inst_base@.subrange(0, bd0.occ_board@.len() as int) =~= bd4.occ_inst_base@.subrange(0, bd0.occ_board@.len() as int));
                    assert(bd.occ_net_base@.subrange(0, bd0.occ_board@.len() as int) =~= bd4.occ_net_base@.subrange(0, bd0.occ_board@.len() as int));
                    assert(bd.occ_board@[occ as int] == bd4.occ_board@[occ as int]);
                    assert forall|g: int|
                        0 <= g < bd0.pin_start@.len() && !(bd0.occ_inst_base@[occ as int] <= g < bd0.occ_inst_base@[occ as int] + occ_len(&bd0, boards@, occ as int))
                            implies #[trigger] bd.pin_start@[g] == bd0.pin_start@[g] by {
                        assert(bd4.pin_start@[g] == bd.pin_start@[g]);
                        assert(bd4.pin_start@[g] == bd4.pin_start@.subrange(0, bd3.pin_start@.len() as int)[g]);
                        assert(bd3.pin_start@[g] == bd0.pin_start@[g]);
                    }
                    assert(bd.occ_board@.subrange(0, bd0.occ_board@.len() as int) =~= bd0.occ_board@);
                    assert(bd.occ_inst_base@.subrange(0, bd0.occ_board@.len() as int) =~= bd0.occ_inst_base@);
                    assert(bd.occ_net_base@.subrange(0, bd0.occ_board@.len() as int) =~= bd0.occ_net_base@);
                    assert(bd.pin_occ@.subrange(0, bd0.pin_occ@.len() as int) =~= bd0.pin_occ@);
                    assert(bd.pin_local@.subrange(0, bd0.pin_occ@.len() as int) =~= bd0.pin_local@);
                    assert(bld_frame(&bd0, bd, occ as int, boards@));
                }
            }
        }
        proof {
            assert(t0 ==> bd.truncated);
            if board.instances@[ii as int].sub == NO_SUB {
                assert(!trunc_here(boards@, b as int, path@, ii as int));
            }
            assert(trunc_from(boards@, b as int, path@, ii as int) == (trunc_here(boards@, b as int, path@, ii as int) || trunc_from(
                boards@,
                b as int,
                path@,
                ii as int + 1,
            )));
        }
        ii = ii + 1;
    }
}

/// Merges the classes of `x` and `y`: the larger label takes the smaller.
/// Every label is the label of its own class member (`lab[lab[i]] == lab[i]`).
fn union_min(lab: &mut Vec<u32>, x: usize, y: usize)
    requires
        x < old(lab)@.len(),
        y < old(lab)@.len(),
        old(lab)@.len() <= 0xFFFF_FFFF,
        forall|i: int| 0 <= i < old(lab)@.len() ==> (#[trigger] old(lab)@[i]) < old(lab)@.len() && old(lab)@[old(lab)@[i] as int] == old(lab)@[i],
    ensures
        final(lab)@.len() == old(lab)@.len(),
        forall|i: int| 0 <= i < final(lab)@.len() ==> (#[trigger] final(lab)@[i]) < final(lab)@.len() && final(lab)@[final(lab)@[i] as int] == final(lab)@[i],
        final(lab)@[x as int] == final(lab)@[y as int],
        forall|i: int, j: int|
            0 <= i < old(lab)@.len() && 0 <= j < old(lab)@.len() && old(lab)@[i] == old(lab)@[j] ==> #[trigger] final(lab)@[i] == #[trigger] final(lab)@[j],
{
    let lx = lab[x];
    let ly = lab[y];
    if lx == ly {
        return;
    }
    let (lo, hi) = if lx < ly { (lx, ly) } else { (ly, lx) };
    let ghost before = lab@;
    let n = lab.len();
    let mut i: usize = 0;
    while i < n
        invariant
            n == lab@.len(),
            n == before.len(),
            i <= n,
            lo < n,
            hi < n,
            lo != hi,
            before[lo as int] == lo,
            before[hi as int] == hi,
            forall|j: int| 0 <= j < i ==> #[trigger] lab@[j] == (if before[j] == hi { lo } else { before[j] }),
            forall|j: int| i <= j < n ==> #[trigger] lab@[j] == before[j],
        decreases n - i,
    {
        if lab[i] == hi {
            lab.set(i, lo);
        }
        i = i + 1;
    }
    proof {
        assert forall|j: int| 0 <= j < lab@.len() implies (#[trigger] lab@[j]) < lab@.len() && lab@[lab@[j] as int] == lab@[j] by {
            assert(before[j] < n);
            assert(before[before[j] as int] == before[j]);
        }
    }
}

/// A flattened netlist with nothing in it, one empty map per drawing.
fn empty_flat(n: usize, truncated: bool) -> (f: Flat)
    ensures
        flat_ok(&f),
        f.comps@.len() == 0,
        f.pin_net@.len() == 0,
        f.net_count == 0,
        f.inst_count == 0,
        f.truncated == truncated,
        f.net_map@.len() == n,
        f.inst_map@.len() == n,
        forall|i: int| 0 <= i < n ==> (#[trigger] f.net_map@[i])@.len() == 0 && f.inst_map@[i]@.len() == 0,
{
    let mut net_map: Vec<Vec<u32>> = Vec::new();
    let mut inst_map: Vec<Vec<u32>> = Vec::new();
    let mut i: usize = 0;
    while i < n
        invariant
            i <= n,
            net_map@.len() == i,
            inst_map@.len() == i,
            forall|j: int| 0 <= j < i ==> (#[trigger] net_map@[j])@.len() == 0 && inst_map@[j]@.len() == 0,
        decreases n - i,
    {
        net_map.push(Vec::new());
        inst_map.push(Vec::new());
        i = i + 1;
    }
    Flat {
        comps: Vec::new(),
        states: Vec::new(),
        pin_net: Vec::new(),
        pin_width: Vec::new(),
        pin_is_out: Vec::new(),
        pin_start: Vec::new(),
        inst_count: 0,
        net_count: 0,
        net_map,
        inst_map,
        truncated,
    }
}

/// The connectivity of drawing `b` (netlist `nl`, expanded first as drawing
/// `bi`, with its instances numbered first) carries over to the flat netlist:
/// each pin lies on the global net of its local net.
pub open spec fn carries_over(b: Board, nl: Netlist, f: &Flat, bi: int) -> bool {
    pins_carried(b, nl, f.pin_start@, f.pin_net@, f.net_map@[bi]@)
}

/// Pin `s` of instance `i` starts at `ps[i] + s` and lies on the global net
/// `nm` gives its local net.
pub open spec fn pins_carried(b: Board, nl: Netlist, ps: Seq<u32>, pn: Seq<u32>, nm: Seq<u32>) -> bool {
    forall|i: int, s: int|
        0 <= i < b.instances@.len() && 0 <= s < b.instances@[i].pins@.len() ==> #[trigger] pin_carried(b, nl, ps, pn, nm, i, s)
}

pub open spec fn pin_carried(b: Board, nl: Netlist, ps: Seq<u32>, pn: Seq<u32>, nm: Seq<u32>, i: int, s: int) -> bool {
    &&& ps[i] + b.instances@[i].pins@.len() <= pn.len()
    &&& pn[ps[i] + s] == (if local_pin_net(nl, i, s) == NO_NET {
        NO_NET
    } else {
        nm[local_pin_net(nl, i, s) as int]
    })
}

/// The drawing `root` fits the flattening limits.
pub open spec fn root_fits(boards: Seq<Board>, nls: Seq<Netlist>, root: int) -> bool {
    nls[root].net_count <= MAX_FLAT && npins(boards[root]) <= MAX_FLAT
}

/// `f` flattens the drawings `boards` from drawing `root`, with `nls` the
/// drawings' own netlists, as `build` promises it (leaving aside the
/// parameters and states it copies).
pub open spec fn flattened(boards: Seq<Board>, root: int, f: Flat, nls: Seq<Netlist>) -> bool {
    &&& nls_ok(boards, nls)
    &&& f.pin_net@.len() <= MAX_FLAT
    &&& f.net_map@.len() == boards.len()
    &&& f.inst_map@.len() == boards.len()
    &&& forall|c: int|
        0 <= c < f.comps@.len() ==> {
            let fc = #[trigger] f.comps@[c];
            let it = boards[fc.board as int].instances@[fc.inst as int];
            &&& fc.board < boards.len()
            &&& fc.inst < boards[fc.board as int].instances@.len()
            &&& !crate::defs::is_passive_spec(it.def)
            &&& fc.def == it.def
            &&& fc.in_count == count_in(it.pins@)
            &&& fc.in_count + fc.out_count == it.pins@.len()
        }
    &&& forall|bi: int, l: int| 0 <= bi < boards.len() && 0 <= l < f.net_map@[bi]@.len() ==> #[trigger] f.net_map@[bi]@[l] < f.net_count
    &&& (root >= boards.len() || !root_fits(boards, nls, root)) ==> {
        &&& f.comps@.len() == 0
        &&& f.pin_net@.len() == 0
        &&& f.net_count == 0
        &&& f.inst_count == 0
        &&& f.truncated == (root < boards.len())
    }
    &&& root < boards.len() && root_fits(boards, nls, root) ==> {
        &&& f.inst_count >= boards[root].instances@.len()
        &&& f.inst_map@[root]@ == Seq::new(boards[root].instances@.len(), |i: int| i as u32)
        &&& f.net_map@[root]@.len() == nls[root].net_count
        &&& carries_over(boards[root], nls[root], &f, root)
        &&& (exists|i: int| 0 <= i < boards[root].instances@.len() && #[trigger] bad_ref(boards, root, i)) ==> f.truncated
        &&& (forall|i: int| 0 <= i < boards[root].instances@.len() ==> (#[trigger] boards[root].instances@[i]).sub == NO_SUB)
            ==> !f.truncated && f.inst_count == boards[root].instances@.len()
    }
}

/// Expands the hierarchy below drawing `root` into one flat netlist; also
/// returns the netlist of every drawing (each derived once).
#[verifier::rlimit(80)]
pub fn build(boards: &Vec<Board>, root: u32) -> (r: (Flat, Vec<Netlist>))
    requires
        forall|i: int| 0 <= i < boards@.len() ==> (#[trigger] boards@[i]).wf(),
    ensures
        nls_ok(boards@, r.1@),
        flat_ok(&r.0),
        r.0.pin_net@.len() <= MAX_FLAT,
        r.0.net_map@.len() == boards@.len(),
        r.0.inst_map@.len() == boards@.len(),
        forall|c: int|
            0 <= c < r.0.comps@.len() ==> {
                let fc = #[trigger] r.0.comps@[c];
                let it = boards@[fc.board as int].instances@[fc.inst as int];
                &&& fc.board < boards@.len()
                &&& fc.inst < boards@[fc.board as int].instances@.len()
                &&& !crate::defs::is_passive_spec(it.def)
                &&& fc.def == it.def
                &&& fc.params == it.params
                &&& fc.in_count == count_in(it.pins@)
                &&& fc.in_count + fc.out_count == it.pins@.len()
            },
        forall|bi: int, l: int|
            0 <= bi < boards@.len() && 0 <= l < r.0.net_map@[bi]@.len() ==> #[trigger] r.0.net_map@[bi]@[l] < r.0.net_count,
        (root >= boards@.len() || !root_fits(boards@, r.1@, root as int)) ==> {
            &&& r.0.comps@.len() == 0
            &&& r.0.pin_net@.len() == 0
            &&& r.0.net_count == 0
            &&& r.0.inst_count == 0
            &&& r.0.truncated == (root < boards@.len())
        },
        root < boards@.len() && root_fits(boards@, r.1@, root as int) ==> r.0.inst_count >= boards@[root as int].instances@.len(),
        root < boards@.len() && root_fits(boards@, r.1@, root as int) ==> r.0.inst_map@[root as int]@ == Seq::new(
            boards@[root as int].instances@.len(),
            |i: int| i as u32,
        ),
        root < boards@.len() && root_fits(boards@, r.1@, root as int) ==> r.0.net_map@[root as int]@.len() == r.1@[root as int].net_count,
        root < boards@.len() && root_fits(boards@, r.1@, root as int) ==> carries_over(boards@[root as int], r.1@[root as int], &r.0, root as int),
        root < boards@.len() && root_fits(boards@, r.1@, root as int) && (exists|i: int|
            0 <= i < boards@[root as int].instances@.len() && #[trigger] bad_ref(boards@, root as int, i)) ==> r.0.truncated,
        root < boards@.len() && root_fits(boards@, r.1@, root as int) && (forall|i: int|
            0 <= i < boards@[root as int].instances@.len() ==> (#[trigger] boards@[root as int].instances@[i]).sub == NO_SUB) ==> !r.0.truncated
            && r.0.inst_count == boards@[root as int].instances@.len(),
        root < boards@.len() && truncates(boards@, root as int, seq![root]) ==> r.0.truncated,
        flattened(boards@, root as int, r.0, r.1@),
{
    let n = boards.len();
    let mut nls: Vec<Netlist> = Vec::new();
    let mut i: usize = 0;
    while i < n
        invariant
            n == boards@.len(),
            i <= n,
            nls@.len() == i,
            forall|j: int| 0 <= j < boards@.len() ==> (#[trigger] boards@[j]).wf(),
            forall|j: int| 0 <= j < i ==> netlist_ok(boards@[j], &#[trigger] nls@[j]),
        decreases n - i,
    {
        nls.push(boards[i].compile());
        i = i + 1;
    }
    proof {
        assert(nls_ok(boards@, nls@));
    }
    if root as usize >= n {
        return (empty_flat(n, false), nls);
    }
    let rt = root as usize;
    let rb = &boards[rt];
    proof {
        assert(rb.wf());
        assert(netlist_ok(*rb, &nls@[rt as int]));
    }
    if nls[rt].net_count > MAX_FLAT || nls[rt].pin_net.len() > MAX_FLAT as usize {
        return (empty_flat(n, true), nls);
    }
    let rn = rb.instances.len();
    let mut first_occ: Vec<u32> = Vec::new();
    let mut j: usize = 0;
    while j < n
        invariant
            j <= n,
            first_occ@.len() == j,
            forall|k: int| 0 <= k < j ==> #[trigger] first_occ@[k] == 0xFFFF_FFFFu32,
        decreases n - j,
    {
        first_occ.push(0xFFFF_FFFFu32);
        j = j + 1;
    }
    first_occ.set(rt, 0);
    let mut pin_start: Vec<u32> = Vec::new();
    let mut k: usize = 0;
    while k < rn
        invariant
            k <= rn,
            pin_start@.len() == k,
        decreases rn - k,
    {
        pin_start.push(0);
        k = k + 1;
    }
    let mut bd = Builder {
        occ_board: vec![root],
        occ_inst_base: vec![0],
        occ_net_base: vec![0],
        first_occ,
        pin_start,
        pin_occ: Vec::new(),
        pin_local: Vec::new(),
        pin_width: Vec::new(),
        pin_is_out: Vec::new(),
        unions: Vec::new(),
        inst_cursor: rn as u32,
        net_cursor: nls[rt].net_count,
        truncated: false,
    };
    proof {
        assert(bd.occ_board@[0] == root);
        assert(occ_len(&bd, boards@, 0) == rn);
        assert(bld_ok(&bd, boards@, nls@));
    }
    let mut path: Vec<u32> = vec![root];
    let ghost bd0 = bd;
    proof {
        assert(bd0.first_occ@[rt as int] == 0);
        assert(occ_len(&bd0, boards@, 0) == rn);
        assert(bd0.occ_board@[0] == root);
        assert(path@ == seq![root]);
    }
    walk(&mut bd, boards, &nls, 0, &mut path, 0);
    // every occurrence is expanded
    proof {
        assert forall|o: int| 0 <= o < bd.occ_board@.len() implies #[trigger] done_upto(&bd, boards@, nls@, o, occ_len(&bd, boards@, o)) by {
            if o == 0 {
                assert(bd.occ_board@[0] == bd0.occ_board@[0]);
            }
        }
        assert(bd.occ_board@[0] == root);
        assert(bd.occ_inst_base@[0] == 0);
        assert(bd.occ_net_base@[0] == 0);
        assert(bd.first_occ@[rt as int] == 0);
    }
    // ---- net merging and numbering ----
    let size: usize = if bd.net_cursor == 0 { 1 } else { bd.net_cursor as usize };
    let mut lab: Vec<u32> = Vec::new();
    let mut q: usize = 0;
    while q < size
        invariant
            q <= size,
            size <= MAX_FLAT,
            lab@.len() == q,
            forall|t: int| 0 <= t < q ==> #[trigger] lab@[t] == t,
        decreases size - q,
    {
        lab.push(q as u32);
        q = q + 1;
    }
    let mut u: usize = 0;
    while u < bd.unions.len()
        invariant
            bld_ok(&bd, boards@, nls@),
            bd.net_cursor <= size,
            size <= MAX_FLAT,
            lab@.len() == size,
            u <= bd.unions@.len(),
            forall|t: int| 0 <= t < lab@.len() ==> (#[trigger] lab@[t]) < lab@.len() && lab@[lab@[t] as int] == lab@[t],
        decreases bd.unions@.len() - u,
    {
        let (x, y) = bd.unions[u];
        union_min(&mut lab, x as usize, y as usize);
        u = u + 1;
    }
    let mut remap: Vec<u32> = Vec::new();
    let mut next: u32 = 0;
    let mut t: usize = 0;
    while t < size
        invariant
            t <= size,
            size <= MAX_FLAT,
            lab@.len() == size,
            remap@.len() == t,
            next <= t,
            forall|t2: int| 0 <= t2 < t && #[trigger] lab@[t2] == t2 ==> remap@[t2] < next,
        decreases size - t,
    {
        if lab[t] as usize == t {
            remap.push(next);
            next = next + 1;
        } else {
            remap.push(0);
        }
        t = t + 1;
    }
    // ---- pins ----
    let npn = bd.pin_occ.len();
    let mut pin_net: Vec<u32> = Vec::new();
    let mut p: usize = 0;
    while p < npn
        invariant
            bld_ok(&bd, boards@, nls@),
            npn == bd.pin_occ@.len(),
            bd.net_cursor <= size,
            lab@.len() == size,
            remap@.len() == size,
            forall|t2: int| 0 <= t2 < lab@.len() ==> (#[trigger] lab@[t2]) < lab@.len() && lab@[lab@[t2] as int] == lab@[t2],
            forall|t2: int| 0 <= t2 < size && #[trigger] lab@[t2] == t2 ==> remap@[t2] < next,
            p <= npn,
            pin_net@.len() == p,
            forall|p2: int| 0 <= p2 < p ==> (#[trigger] pin_net@[p2] == NO_NET || pin_net@[p2] < next),
            forall|p2: int| 0 <= p2 < p ==> #[trigger] pin_net@[p2] == (if bd.pin_local@[p2] == NO_NET {
                NO_NET
            } else {
                remap@[lab@[bd.occ_net_base@[bd.pin_occ@[p2] as int] + bd.pin_local@[p2]] as int]
            }),
        decreases npn - p,
    {
        let l = bd.pin_local[p];
        if l == NO_NET {
            pin_net.push(NO_NET);
        } else {
            let key = bd.occ_net_base[bd.pin_occ[p] as usize] + l;
            let r0 = lab[key as usize];
            proof {
                assert(lab@[r0 as int] == r0);
            }
            pin_net.push(remap[r0 as usize]);
        }
        p = p + 1;
    }
    // ---- per-drawing maps (first occurrence of each drawing) ----
    let mut net_map: Vec<Vec<u32>> = Vec::new();
    let mut inst_map: Vec<Vec<u32>> = Vec::new();
    let mut bi: usize = 0;
    while bi < n
        invariant
            nls_ok(boards@, nls@),
            bld_ok(&bd, boards@, nls@),
            n == boards@.len(),
            bd.net_cursor <= size,
            lab@.len() == size,
            remap@.len() == size,
            forall|t2: int| 0 <= t2 < lab@.len() ==> (#[trigger] lab@[t2]) < lab@.len() && lab@[lab@[t2] as int] == lab@[t2],
            forall|t2: int| 0 <= t2 < size && #[trigger] lab@[t2] == t2 ==> remap@[t2] < next,
            bi <= n,
            net_map@.len() == bi,
            inst_map@.len() == bi,
            forall|b2: int, l: int| 0 <= b2 < bi && 0 <= l < net_map@[b2]@.len() ==> #[trigger] net_map@[b2]@[l] < next,
            bd.first_occ@[rt as int] == 0,
            bd.occ_net_base@[0] == 0,
            bd.occ_inst_base@[0] == 0,
            rt < bi ==> net_map@[rt as int]@.len() == nls@[rt as int].net_count && inst_map@[rt as int]@ == Seq::new(rn as nat, |i: int| i as u32),
            rt < bi ==> forall|l: int| 0 <= l < nls@[rt as int].net_count ==> #[trigger] net_map@[rt as int]@[l] == remap@[lab@[l] as int],
            rn == boards@[rt as int].instances@.len(),
            bd.occ_board@[0] == root,
        decreases n - bi,
    {
        let fo = bd.first_occ[bi];
        let mut nm: Vec<u32> = Vec::new();
        let mut im: Vec<u32> = Vec::new();
        if fo != 0xFFFF_FFFFu32 {
            let nb = bd.occ_net_base[fo as usize];
            let ib = bd.occ_inst_base[fo as usize];
            let cnt = nls[bi].net_count;
            let mut l: u32 = 0;
            while l < cnt
                invariant
                    l <= cnt,
                    nb + cnt <= bd.net_cursor,
                    bd.net_cursor <= size,
                    lab@.len() == size,
                    remap@.len() == size,
                    forall|t2: int| 0 <= t2 < lab@.len() ==> (#[trigger] lab@[t2]) < lab@.len() && lab@[lab@[t2] as int] == lab@[t2],
                    forall|t2: int| 0 <= t2 < size && #[trigger] lab@[t2] == t2 ==> remap@[t2] < next,
                    nm@.len() == l,
                    forall|l2: int| 0 <= l2 < l ==> #[trigger] nm@[l2] < next,
                    forall|l2: int| 0 <= l2 < l ==> #[trigger] nm@[l2] == remap@[lab@[nb + l2] as int],
                decreases cnt - l,
            {
                let r0 = lab[(nb + l) as usize];
                proof {
                    assert(lab@[r0 as int] == r0);
                }
                nm.push(remap[r0 as usize]);
                l = l + 1;
            }
            let cn = boards[bi].instances.len() as u32;
            let mut i2: u32 = 0;
            while i2 < cn
                invariant
                    i2 <= cn,
                    ib + cn <= MAX_FLAT,
                    im@.len() == i2,
                    forall|x: int| 0 <= x < i2 ==> #[trigger] im@[x] == ib + x,
                decreases cn - i2,
            {
                im.push(ib + i2);
                i2 = i2 + 1;
            }
            proof {
                if bi == rt {
                    assert(im@ =~= Seq::new(rn as nat, |i: int| i as u32));
                }
            }
        }
        net_map.push(nm);
        inst_map.push(im);
        bi = bi + 1;
    }
    // ---- components, occurrence by occurrence ----
    let mut comps: Vec<FlatComp> = Vec::new();
    let mut states: Vec<CompState> = Vec::new();
    let no = bd.occ_board.len();
    let mut oc: usize = 0;
    while oc < no
        invariant
            nls_ok(boards@, nls@),
            bld_ok(&bd, boards@, nls@),
            no == bd.occ_board@.len(),
            forall|o: int| 0 <= o < no ==> #[trigger] done_upto(&bd, boards@, nls@, o, occ_len(&bd, boards@, o)),
            oc <= no,
            states@.len() == comps@.len(),
            forall|c: int|
                0 <= c < comps@.len() ==> {
                    let fc = #[trigger] comps@[c];
                    let it = boards@[fc.board as int].instances@[fc.inst as int];
                    &&& fc.board < boards@.len()
                    &&& fc.inst < boards@[fc.board as int].instances@.len()
                    &&& !crate::defs::is_passive_spec(it.def)
                    &&& fc.def == it.def
                    &&& fc.params == it.params
                    &&& fc.in_count == count_in(it.pins@)
                    &&& fc.in_count + fc.out_count == it.pins@.len()
                    &&& fc.pin_start + fc.in_count + fc.out_count <= bd.pin_occ@.len()
                    &&& fc.global_inst < bd.inst_cursor
                },
        decreases no - oc,
    {
        let bo = bd.occ_board[oc] as usize;
        let ib = bd.occ_inst_base[oc];
        let brd = &boards[bo];
        proof {
            assert(brd.wf());
        }
        let cn = brd.instances.len();
        let mut ii: usize = 0;
        while ii < cn
            invariant
                bld_ok(&bd, boards@, nls@),
                oc < no,
                no == bd.occ_board@.len(),
                bo == bd.occ_board@[oc as int],
                ib == bd.occ_inst_base@[oc as int],
                *brd == boards@[bo as int],
                brd.wf(),
                cn == brd.instances@.len(),
                cn == occ_len(&bd, boards@, oc as int),
                done_upto(&bd, boards@, nls@, oc as int, cn as int),
                ii <= cn,
                states@.len() == comps@.len(),
                forall|c: int|
                    0 <= c < comps@.len() ==> {
                        let fc = #[trigger] comps@[c];
                        let it = boards@[fc.board as int].instances@[fc.inst as int];
                        &&& fc.board < boards@.len()
                        &&& fc.inst < boards@[fc.board as int].instances@.len()
                        &&& !crate::defs::is_passive_spec(it.def)
                        &&& fc.def == it.def
                        &&& fc.params == it.params
                        &&& fc.in_count == count_in(it.pins@)
                        &&& fc.in_count + fc.out_count == it.pins@.len()
                        &&& fc.pin_start + fc.in_count + fc.out_count <= bd.pin_occ@.len()
                        &&& fc.global_inst < bd.inst_cursor
                    },
            decreases cn - ii,
        {
            let inst = &brd.instances[ii];
            if !inst.def.is_passive() {
                proof {
                    assert(inst.wf());
                    assert(inst_done(&bd, boards@, nls@, oc as int, ii as int));
                }
                let ins = count_inputs(&inst.pins);
                let gi = ib + ii as u32;
                comps.push(FlatComp {
                    def: inst.def,
                    params: inst.params,
                    board: bo as u32,
                    inst: ii as u32,
                    global_inst: gi,
                    pin_start: bd.pin_start[gi as usize],
                    in_count: ins as u16,
                    out_count: (inst.pins.len() - ins) as u16,
                });
                states.push(inst.initial_state());
            }
            ii = ii + 1;
        }
        oc = oc + 1;
    }
    proof {
        let rbs = boards@[rt as int];
        let nl = nls@[rt as int];
        assert forall|i: int, s: int|
            0 <= i < rbs.instances@.len() && 0 <= s < rbs.instances@[i].pins@.len() implies #[trigger] pin_carried(
            rbs,
            nl,
            bd.pin_start@,
            pin_net@,
            net_map@[rt as int]@,
            i,
            s,
        ) by {
            assert(inst_done(&bd, boards@, nls@, 0, i));
            assert(gstart(&bd, 0, i) == bd.pin_start@[i]);
            assert(pin_at(&bd, gstart(&bd, 0, i) as int, s) == (0u32, local_pin_net(nl, i, s)));
            let l = local_pin_net(nl, i, s);
            if l != NO_NET {
                assert(tables_ok(rbs, &nl));
                assert(l < nl.net_count);
            }
        }
        assert(pins_carried(rbs, nl, bd.pin_start@, pin_net@, net_map@[rt as int]@));
        assert((exists|i: int| 0 <= i < rbs.instances@.len() && #[trigger] bad_ref(boards@, root as int, i)) ==> bd.truncated);
        assert((forall|i: int| 0 <= i < rbs.instances@.len() ==> (#[trigger] rbs.instances@[i]).sub == NO_SUB) ==> !bd.truncated
            && bd.inst_cursor == rbs.instances@.len());
    }
    let ghost ps = bd.pin_start@;
    let ghost pn = pin_net@;
    let ghost nm = net_map@;
    let inst_count = bd.inst_cursor;
    let truncated = bd.truncated;
    let flat = Flat {
        comps,
        states,
        pin_net,
        pin_width: bd.pin_width,
        pin_is_out: bd.pin_is_out,
        pin_start: bd.pin_start,
        inst_count,
        net_count: next,
        net_map,
        inst_map,
        truncated,
    };
    proof {
        assert(flat.pin_start@ == ps);
        assert(flat.pin_net@ == pn);
        assert(flat.net_map@ == nm);
    }
    (flat, nls)
}

} // verus!
