//! One facade for editing and simulating.
//!
//!   - every edit resets the simulation to its power-on state, so an undo can
//!     never leave stale register values behind;
//!   - edits are recorded for undo and redo (the whole set of drawings is
//!     saved: extracting a sub-circuit moves components between drawings);
//!   - the hierarchy (navigation, extraction, interface sync) lives here only.
use vstd::prelude::*;
use crate::board::{Board, BoardV, Instance, InstanceV, PinV, Point, Wire, NO_NET, NO_SUB, MAX_INSTANCES, MAX_WIRES, coord_ok, pins_ok, pins_view, pin_view, auto_name_spec, ends_on_instance, is_pin, route_shape, route_ok, route_blockers, simplified, pins_rebuilt, annotation_view, label_view, Annotation, NetLabel};
use crate::defs::{default_params_of, in_count_spec, out_count_spec};
use crate::defs::{DefId, Dir, Params, PinDef};
use crate::elaborate::{Flat, Shape, build, flattened, custom_pins, custom_layout, iface_sorted, key_lt, shape};
use crate::engine::{Engine, loaded_from, loadable, can_load};
use crate::save::Project;
use crate::values::{NetValue, Width, decimal, push_decimal};
use crate::text::is_blank;
use crate::text::{seq_lt, lemma_seq_lt_total, lemma_seq_lt_trans};
use crate::graph::count_false;
use crate::view::{build_view_with, CircuitView, NetMap, refresh_values, shows, pin_shows, wire_shows};
use crate::netlist::{Netlist, netlist_ok};

verus! {

/// Most ticks a wave keeps.
pub const WAVE_LIMIT: usize = 4096;
/// Most nets watched at once.
pub const WAVE_WATCH_LIMIT: usize = 64;
/// Most drawings in a project.
pub const MAX_BOARDS: usize = 0x1_0000;

/// The recorded wave of one watched net.
#[derive(Debug)]
pub struct WaveTrace {
    pub net: u32,
    pub name: String,
    pub width: Width,
    pub samples: Vec<u64>,
}

/// An undo step: the whole set of drawings and the navigation path.
struct Snapshot {
    boards: Vec<Board>,
    path: Vec<u32>,
}

/// An editing session: project, simulation, view and history.
pub struct Session {
    project: Project,
    engine: Engine,
    flat: Flat,
    view: CircuitView,
    /// What the view was last built from: the drawing as laid out then, its
    /// netlist, and the simulation whose values it shows.
    shown: Ghost<(Board, Netlist, Engine)>,
    /// The drawings the simulation was last built from, and their netlists.
    built: Ghost<(Seq<Board>, Seq<Netlist>)>,
    /// Drawing being edited.
    active: u32,
    /// Instance path from the main drawing to the active one (empty when the
    /// active drawing is not reached from the main one).
    path: Vec<u32>,
    /// Bumped on every edit and navigation.
    revision: u64,
    undo: Vec<Snapshot>,
    redo: Vec<Snapshot>,
    wave: Vec<WaveTrace>,
}

/// A set of drawings the session can hold.
pub open spec fn boards_ok(bs: Seq<Board>) -> bool {
    &&& 1 <= bs.len() <= MAX_BOARDS
    &&& forall|i: int| 0 <= i < bs.len() ==> (#[trigger] bs[i]).wf()
}

/// The two drawings are laid out alike: they differ at most in the
/// parameters of their instances.
pub open spec fn same_layout(a: Board, b: Board) -> bool {
    &&& a.instances@.len() == b.instances@.len()
    &&& forall|i: int|
        0 <= i < a.instances@.len() ==> {
            let x = #[trigger] a.instances@[i];
            let y = b.instances@[i];
            &&& x.def == y.def
            &&& x.x == y.x
            &&& x.y == y.y
            &&& x.rot == y.rot
            &&& x.display_name@ == y.display_name@
            &&& x.pins@ == y.pins@
            &&& x.sub == y.sub
        }
    &&& a.wires@ == b.wires@
    &&& a.annotations@ == b.annotations@
    &&& a.labels@ == b.labels@
}

/// The drawings as values.
pub open spec fn views(bs: Seq<Board>) -> Seq<BoardV> {
    Seq::new(bs.len(), |i: int| bs[i]@)
}

/// Interface order of a drawing's pins: by instance name, equal names by index.
pub open spec fn name_before(bv: BoardV, i: int, j: int) -> bool {
    seq_lt(bv.2[i].5, bv.2[j].5) || (bv.2[i].5 == bv.2[j].5 && i < j)
}

/// `v` lists exactly the instances of kind `d` of the drawing, in interface order.
pub open spec fn iface_order(bv: BoardV, v: Seq<u32>, d: DefId) -> bool {
    &&& forall|k: int| 0 <= k < v.len() ==> (#[trigger] v[k]) < bv.2.len() && bv.2[v[k] as int].0 == d
    &&& forall|i: int| 0 <= i < bv.2.len() && #[trigger] bv.2[i].0 == d ==> v.contains(i as u32)
    &&& forall|k: int| 0 <= k < v.len() - 1 ==> #[trigger] name_before(bv, v[k] as int, v[k + 1] as int)
}

/// Pin `k` of the interface made of inputs `ins` and outputs `outs`.
pub open spec fn iface_pin(bv: BoardV, ins: Seq<u32>, outs: Seq<u32>, k: int) -> PinV {
    if k < ins.len() {
        let it = bv.2[ins[k] as int];
        (it.5, 0i32, k as i32, it.1.width, Dir::In)
    } else {
        let it = bv.2[outs[k - ins.len()] as int];
        (it.5, 4i32, (k - ins.len()) as i32, it.1.width, Dir::Out)
    }
}

/// The pins are the interface of the drawing: one pin per input pin
/// component, then one per output pin component, each in name order.
pub open spec fn follows_iface(bv: BoardV, pv: Seq<PinV>) -> bool {
    exists|ins: Seq<u32>, outs: Seq<u32>|
        #[trigger] iface_order(bv, ins, DefId::InputPin) && #[trigger] iface_order(bv, outs, DefId::OutputPin)
            && pv.len() == ins.len() + outs.len()
            && forall|k: int| 0 <= k < pv.len() ==> #[trigger] pv[k] == iface_pin(bv, ins, outs, k)
}

/// A sub-circuit instance that refers to one of the drawings.
pub open spec fn sub_ref(bvs: Seq<BoardV>, it: InstanceV) -> bool {
    it.8 != NO_SUB && (it.8 as int) < bvs.len()
}

/// Every sub-circuit instance carries the interface of the drawing it refers to.
pub open spec fn shapes_follow(bvs: Seq<BoardV>) -> bool {
    forall|b: int, i: int|
        0 <= b < bvs.len() && 0 <= i < bvs[b].2.len() && sub_ref(bvs, #[trigger] bvs[b].2[i])
            ==> follows_iface(bvs[bvs[b].2[i].8 as int], bvs[b].2[i].6)
}

/// Two drawings agree on everything an interface is made of.
pub open spec fn same_iface(a: BoardV, b: BoardV) -> bool {
    &&& a.2.len() == b.2.len()
    &&& forall|i: int| 0 <= i < a.2.len() ==> {
        &&& (#[trigger] a.2[i]).0 == b.2[i].0
        &&& a.2[i].5 == b.2[i].5
        &&& a.2[i].1.width == b.2[i].1.width
    }
}

/// An interface depends only on the kinds, names and widths of a drawing's instances.
pub proof fn lemma_iface_stable(a: BoardV, b: BoardV, pv: Seq<PinV>)
    requires
        same_iface(a, b),
        follows_iface(a, pv),
    ensures
        follows_iface(b, pv),
{
    let (ins, outs) = choose|ins: Seq<u32>, outs: Seq<u32>|
        #[trigger] iface_order(a, ins, DefId::InputPin) && #[trigger] iface_order(a, outs, DefId::OutputPin)
            && pv.len() == ins.len() + outs.len()
            && forall|k: int| 0 <= k < pv.len() ==> #[trigger] pv[k] == iface_pin(a, ins, outs, k);
    assert forall|k: int| 0 <= k < ins.len() - 1 implies #[trigger] name_before(b, ins[k] as int, ins[k + 1] as int) by {
        assert(name_before(a, ins[k] as int, ins[k + 1] as int));
        assert(ins[k] < a.2.len());
        assert(ins[k + 1] < a.2.len());
    }
    assert forall|k: int| 0 <= k < outs.len() - 1 implies #[trigger] name_before(b, outs[k] as int, outs[k + 1] as int) by {
        assert(name_before(a, outs[k] as int, outs[k + 1] as int));
        assert(outs[k] < a.2.len());
        assert(outs[k + 1] < a.2.len());
    }
    assert forall|i: int| 0 <= i < b.2.len() && #[trigger] b.2[i].0 == DefId::InputPin implies ins.contains(i as u32) by {
        assert(a.2[i].0 == DefId::InputPin);
    }
    assert forall|i: int| 0 <= i < b.2.len() && #[trigger] b.2[i].0 == DefId::OutputPin implies outs.contains(i as u32) by {
        assert(a.2[i].0 == DefId::OutputPin);
    }
    assert forall|k: int| 0 <= k < ins.len() implies (#[trigger] ins[k]) < b.2.len() && b.2[ins[k] as int].0 == DefId::InputPin by {
        assert(ins[k] < a.2.len());
    }
    assert forall|k: int| 0 <= k < outs.len() implies (#[trigger] outs[k]) < b.2.len() && b.2[outs[k] as int].0 == DefId::OutputPin by {
        assert(outs[k] < a.2.len());
    }
    assert(iface_order(b, ins, DefId::InputPin));
    assert(iface_order(b, outs, DefId::OutputPin));
    assert forall|k: int| 0 <= k < pv.len() implies #[trigger] pv[k] == iface_pin(b, ins, outs, k) by {
        assert(pv[k] == iface_pin(a, ins, outs, k));
        if k < ins.len() {
            assert(ins[k] < a.2.len());
        } else {
            assert(outs[k - ins.len()] < a.2.len());
        }
    }
}

/// Equal instance fields: interface-wise the same drawings.
pub proof fn lemma_shapes_stable(a: Seq<BoardV>, b: Seq<BoardV>)
    requires
        a.len() == b.len(),
        shapes_follow(a),
        forall|x: int| 0 <= x < a.len() ==> #[trigger] same_iface(a[x], b[x]),
        forall|x: int, i: int| 0 <= x < a.len() && 0 <= i < a[x].2.len() ==> (#[trigger] b[x].2[i]).8 == a[x].2[i].8 && b[x].2[i].6 == a[x].2[i].6,
    ensures
        shapes_follow(b),
{
    assert forall|x: int, i: int| 0 <= x < b.len() && 0 <= i < b[x].2.len() && sub_ref(b, #[trigger] b[x].2[i]) implies follows_iface(
        b[b[x].2[i].8 as int],
        b[x].2[i].6,
    ) by {
        assert(same_iface(a[x], b[x]));
        assert(b[x].2[i].8 == a[x].2[i].8);
        assert(sub_ref(a, a[x].2[i]));
        let s = a[x].2[i].8 as int;
        assert(same_iface(a[s], b[s]));
        lemma_iface_stable(a[s], b[s], a[x].2[i].6);
    }
}

/// What `custom_pins` computes is the drawing's interface.
proof fn lemma_custom_pins(b: Board, s: Shape, v: Seq<PinDef>)
    requires
        iface_sorted(b, s.inputs@, DefId::InputPin),
        iface_sorted(b, s.outputs@, DefId::OutputPin),
        custom_layout(b, s, v),
    ensures
        follows_iface(b@, pins_view(v)),
{
    let bv = b@;
    let ins = s.inputs@;
    let outs = s.outputs@;
    let pv = pins_view(v);
    assert forall|k: int| 0 <= k < ins.len() implies (#[trigger] ins[k]) < bv.2.len() && bv.2[ins[k] as int].0 == DefId::InputPin by {
        assert(ins[k] < b.instances@.len());
    }
    assert forall|k: int| 0 <= k < outs.len() implies (#[trigger] outs[k]) < bv.2.len() && bv.2[outs[k] as int].0 == DefId::OutputPin by {
        assert(outs[k] < b.instances@.len());
    }
    assert forall|i: int| 0 <= i < bv.2.len() && #[trigger] bv.2[i].0 == DefId::InputPin implies ins.contains(i as u32) by {
        assert(b.instances@[i].def == DefId::InputPin);
    }
    assert forall|i: int| 0 <= i < bv.2.len() && #[trigger] bv.2[i].0 == DefId::OutputPin implies outs.contains(i as u32) by {
        assert(b.instances@[i].def == DefId::OutputPin);
    }
    assert forall|k: int| 0 <= k < ins.len() - 1 implies #[trigger] name_before(bv, ins[k] as int, ins[k + 1] as int) by {
        assert(key_lt(b, ins[k] as int, ins[k + 1] as int));
        assert(ins[k] < b.instances@.len());
        assert(ins[k + 1] < b.instances@.len());
    }
    assert forall|k: int| 0 <= k < outs.len() - 1 implies #[trigger] name_before(bv, outs[k] as int, outs[k + 1] as int) by {
        assert(key_lt(b, outs[k] as int, outs[k + 1] as int));
        assert(outs[k] < b.instances@.len());
        assert(outs[k + 1] < b.instances@.len());
    }
    assert(iface_order(bv, ins, DefId::InputPin));
    assert(iface_order(bv, outs, DefId::OutputPin));
    assert forall|k: int| 0 <= k < pv.len() implies #[trigger] pv[k] == iface_pin(bv, ins, outs, k) by {
        if k < ins.len() {
            assert(ins[k] < b.instances@.len());
            assert(v[k].name@ == b.instances@[ins[k] as int].display_name@);
        } else {
            let j = k - ins.len();
            assert(outs[j] < b.instances@.len());
            assert(v[ins.len() + j].name@ == b.instances@[outs[j] as int].display_name@);
        }
    }
}

/// The simulation right after a (re)load: tick 0 and every net at zero.
pub open spec fn powered_on(e: Engine) -> bool {
    &&& e.wf()
    &&& e.ticks() == 0
    &&& forall|n: u32| #[trigger] e.net_spec(n) == NetValue { val: 0, unk: 0 }
}

spec fn snaps_ok(s: Seq<Snapshot>) -> bool {
    forall|i: int| 0 <= i < s.len() ==> boards_ok((#[trigger] s[i]).boards@) && shapes_follow(views(s[i].boards@))
}

spec fn snaps_fit(s: Seq<Snapshot>, main: int) -> bool {
    forall|i: int| 0 <= i < s.len() ==> main < (#[trigger] s[i]).boards@.len()
}

spec fn snaps_v(s: Seq<Snapshot>) -> Seq<Seq<BoardV>> {
    Seq::new(s.len(), |i: int| views(s[i].boards@))
}

/// A copy of a set of drawings.
fn copy_boards(bs: &Vec<Board>) -> (r: Vec<Board>)
    ensures
        views(r@) == views(bs@),
        r@.len() == bs@.len(),
        forall|i: int| 0 <= i < bs@.len() && (#[trigger] bs@[i]).wf() ==> r@[i].wf(),
{
    let mut r: Vec<Board> = Vec::new();
    let mut i: usize = 0;
    while i < bs.len()
        invariant
            i <= bs@.len(),
            r@.len() == i,
            forall|j: int| 0 <= j < i ==> (#[trigger] r@[j])@ == bs@[j]@,
            forall|j: int| 0 <= j < i && (#[trigger] bs@[j]).wf() ==> r@[j].wf(),
        decreases bs@.len() - i,
    {
        r.push(bs[i].duplicate());
        i = i + 1;
    }
    assert(views(r@) =~= views(bs@));
    r
}

fn copy_u32s(v: &Vec<u32>) -> (r: Vec<u32>)
    ensures
        r@ == v@,
{
    let mut r: Vec<u32> = Vec::new();
    let mut i: usize = 0;
    while i < v.len()
        invariant
            i <= v@.len(),
            r@ == v@.subrange(0, i as int),
        decreases v@.len() - i,
    {
        r.push(v[i]);
        i = i + 1;
    }
    assert(r@ =~= v@);
    r
}

/// Instances plus wires over all drawings.
pub open spec fn edit_size(bvs: Seq<BoardV>) -> int
    decreases bvs.len(),
{
    if bvs.len() == 0 {
        0
    } else {
        edit_size(bvs.drop_last()) + bvs.last().2.len() + bvs.last().3.len()
    }
}

/// How many undo steps are kept for drawings of this size: fewer for big circuits.
pub open spec fn history_limit(bvs: Seq<BoardV>) -> int {
    let n = edit_size(bvs);
    if n > 2000 {
        16
    } else if n > 500 {
        48
    } else {
        128
    }
}

/// History after recording `x`, the oldest steps dropped beyond `limit`.
pub open spec fn pushed(h: Seq<Seq<BoardV>>, x: Seq<BoardV>, limit: int) -> Seq<Seq<BoardV>> {
    let h2 = h.push(x);
    if h2.len() > limit {
        h2.subrange(h2.len() - limit, h2.len() as int)
    } else {
        h2
    }
}

/// The drawing reached from drawing `from` by following the instance path
/// (`-1` once a step is not a sub-circuit instance of a drawing).
pub open spec fn walk(bvs: Seq<BoardV>, from: int, path: Seq<u32>) -> int
    decreases path.len(),
{
    if path.len() == 0 {
        from
    } else {
        let b = walk(bvs, from, path.drop_last());
        let k = path.last() as int;
        if 0 <= b < bvs.len() && 0 <= k < bvs[b].2.len() && sub_ref(bvs, bvs[b].2[k]) {
            bvs[b].2[k].8 as int
        } else {
            -1
        }
    }
}

/// The drawings differ in instance pins at most.
pub open spec fn pins_only(before: Seq<BoardV>, after: Seq<BoardV>) -> bool {
    &&& after.len() == before.len()
    &&& forall|b: int|
        0 <= b < before.len() ==> {
            let x = before[b];
            let y = #[trigger] after[b];
            &&& y.0 == x.0
            &&& y.1 == x.1
            &&& y.3 == x.3
            &&& y.4 == x.4
            &&& y.5 == x.5
            &&& y.2.len() == x.2.len()
            &&& same_iface(x, y)
        }
    &&& forall|b: int, i: int|
        0 <= b < before.len() && 0 <= i < before[b].2.len() ==> {
            let x = before[b].2[i];
            let y = #[trigger] after[b].2[i];
            &&& y.0 == x.0 && y.1 == x.1 && y.2 == x.2 && y.3 == x.3 && y.4 == x.4
            &&& y.5 == x.5 && y.7 == x.7 && y.8 == x.8
        }
}

/// The drawings after an edit once the sub-circuit instances took their
/// drawings' interfaces: only those pins change.
pub open spec fn synced(before: Seq<BoardV>, after: Seq<BoardV>) -> bool {
    &&& pins_only(before, after)
    &&& shapes_follow(after)
    &&& forall|b: int, i: int|
        0 <= b < before.len() && 0 <= i < before[b].2.len() && !sub_ref(before, before[b].2[i])
            ==> (#[trigger] after[b].2[i]).6 == before[b].2[i].6
}

/// An instance with other pins.
pub open spec fn with_pins(it: InstanceV, pv: Seq<PinV>) -> InstanceV {
    (it.0, it.1, it.2, it.3, it.4, it.5, pv, it.7, it.8)
}

/// A drawing with instance `i` replaced.
pub open spec fn with_inst(bv: BoardV, i: int, it: InstanceV) -> BoardV {
    (bv.0, bv.1, bv.2.update(i, it), bv.3, bv.4, bv.5)
}

/// Gives instance `i` of drawing `b` the pins `pins`.
fn set_pins_in(bs: &mut Vec<Board>, b: usize, i: usize, pins: Vec<PinDef>)
    requires
        b < old(bs)@.len(),
        i < old(bs)@[b as int].instances@.len(),
        old(bs)@[b as int].wf(),
        pins_ok(pins@),
    ensures
        final(bs)@.len() == old(bs)@.len(),
        final(bs)@[b as int].wf(),
        forall|x: int| 0 <= x < old(bs)@.len() && x != b ==> #[trigger] final(bs)@[x] == old(bs)@[x],
        views(final(bs)@) == views(old(bs)@).update(
            b as int,
            with_inst(old(bs)@[b as int]@, i as int, with_pins(old(bs)@[b as int]@.2[i as int], pins_view(pins@))),
        ),
{
    let ghost bs0 = bs@;
    let mut bd = Board::new();
    std::mem::swap(&mut bd, &mut bs[b]);
    let ghost bd0 = bd;
    let mut it = Instance::new(DefId::Custom, Params::default(), 0, 0);
    std::mem::swap(&mut it, &mut bd.instances[i]);
    it.pins = pins;
    std::mem::swap(&mut it, &mut bd.instances[i]);
    proof {
        assert forall|j: int| 0 <= j < bd.instances@.len() implies (#[trigger] bd.instances@[j]).wf() by {
            if j != i as int {
                assert(bd.instances@[j] == bd0.instances@[j]);
            }
        }
        assert(bd@.2 =~= bd0@.2.update(i as int, with_pins(bd0@.2[i as int], pins_view(pins@))));
    }
    std::mem::swap(&mut bd, &mut bs[b]);
    proof {
        assert(views(bs@) =~= views(bs0).update(
            b as int,
            with_inst(bs0[b as int]@, i as int, with_pins(bs0[b as int]@.2[i as int], pins_view(pins@))),
        ));
    }
}

/// One pin change keeps the drawings interface-wise the same.
proof fn lemma_pins_step(v0: Seq<BoardV>, v1: Seq<BoardV>, b: int, i: int, pv: Seq<PinV>)
    requires
        pins_only(v0, v1),
        0 <= b < v1.len(),
        0 <= i < v1[b].2.len(),
    ensures
        ({
            let v2 = v1.update(b, with_inst(v1[b], i, with_pins(v1[b].2[i], pv)));
            &&& pins_only(v0, v2)
            &&& forall|x: int| 0 <= x < v1.len() ==> #[trigger] same_iface(v1[x], v2[x])
            &&& forall|x: int, k: int| 0 <= x < v1.len() && 0 <= k < v1[x].2.len() && (x != b || k != i) ==> #[trigger] v2[x].2[k] == v1[x].2[k]
            &&& v2[b].2[i].6 == pv
        }),
{
    let v2 = v1.update(b, with_inst(v1[b], i, with_pins(v1[b].2[i], pv)));
    assert forall|x: int| 0 <= x < v1.len() implies #[trigger] same_iface(v1[x], v2[x]) by {
        if x == b {
            assert forall|k: int| 0 <= k < v1[x].2.len() implies {
                &&& (#[trigger] v1[x].2[k]).0 == v2[x].2[k].0
                &&& v1[x].2[k].5 == v2[x].2[k].5
                &&& v1[x].2[k].1.width == v2[x].2[k].1.width
            } by {
                if k == i {
                } else {
                }
            }
        }
    }
    assert forall|x: int| 0 <= x < v0.len() implies {
        let p = v0[x];
        let q = #[trigger] v2[x];
        &&& q.0 == p.0
        &&& q.1 == p.1
        &&& q.3 == p.3
        &&& q.4 == p.4
        &&& q.5 == p.5
        &&& q.2.len() == p.2.len()
        &&& same_iface(p, q)
    } by {
        assert(same_iface(v0[x], v1[x]));
        assert(same_iface(v1[x], v2[x]));
        assert forall|k: int| 0 <= k < v0[x].2.len() implies {
            &&& (#[trigger] v0[x].2[k]).0 == v2[x].2[k].0
            &&& v0[x].2[k].5 == v2[x].2[k].5
            &&& v0[x].2[k].1.width == v2[x].2[k].1.width
        } by {
            assert(v1[x].2[k].0 == v0[x].2[k].0);
            assert(v1[x].2[k].0 == v2[x].2[k].0);
        }
    }
    assert forall|x: int, k: int| 0 <= x < v0.len() && 0 <= k < v0[x].2.len() implies {
        let p = v0[x].2[k];
        let q = #[trigger] v2[x].2[k];
        &&& q.0 == p.0 && q.1 == p.1 && q.2 == p.2 && q.3 == p.3 && q.4 == p.4
        &&& q.5 == p.5 && q.7 == p.7 && q.8 == p.8
    } by {
        assert(v1[x].2[k].0 == v0[x].2[k].0);
    }
}

/// Gives every sub-circuit instance the interface of the drawing it refers to.
fn sync_boards(bs: &mut Vec<Board>)
    requires
        boards_ok(old(bs)@),
    ensures
        boards_ok(final(bs)@),
        synced(views(old(bs)@), views(final(bs)@)),
{
    let ghost v0 = views(bs@);
    let n = bs.len();
    let mut b: usize = 0;
    while b < n
        invariant
            n == bs@.len(),
            n == v0.len(),
            boards_ok(bs@),
            b <= n,
            pins_only(v0, views(bs@)),
            forall|x: int, k: int|
                0 <= x < b && 0 <= k < v0[x].2.len() && sub_ref(v0, #[trigger] v0[x].2[k]) ==> follows_iface(
                    views(bs@)[v0[x].2[k].8 as int],
                    views(bs@)[x].2[k].6,
                ),
            forall|x: int, k: int|
                0 <= x < n && 0 <= k < v0[x].2.len() && (b <= x || !sub_ref(v0, v0[x].2[k])) ==> (#[trigger] views(
                    bs@,
                )[x].2[k]).6 == v0[x].2[k].6,
        decreases n - b,
    {
        let m = bs[b].instances.len();
        proof {
            assert(views(bs@)[b as int] == bs@[b as int]@);
        }
        let mut i: usize = 0;
        while i < m
            invariant
                n == bs@.len(),
                n == v0.len(),
                boards_ok(bs@),
                b < n,
                i <= m,
                m == v0[b as int].2.len(),
                pins_only(v0, views(bs@)),
                forall|x: int, k: int|
                    0 <= x < n && 0 <= k < v0[x].2.len() && (x < b || (x == b && k < i)) && sub_ref(v0, #[trigger] v0[x].2[k])
                        ==> follows_iface(views(bs@)[v0[x].2[k].8 as int], views(bs@)[x].2[k].6),
                forall|x: int, k: int|
                    0 <= x < n && 0 <= k < v0[x].2.len() && ((x > b || (x == b && k >= i)) || !sub_ref(v0, v0[x].2[k]))
                        ==> (#[trigger] views(bs@)[x].2[k]).6 == v0[x].2[k].6,
            decreases m - i,
        {
            proof {
                assert(views(bs@)[b as int] == bs@[b as int]@);
                assert(views(bs@)[b as int].2.len() == bs@[b as int].instances@.len());
            }
            let sub = bs[b].instances[i].sub;
            if sub != NO_SUB && (sub as usize) < n {
                proof {
                    assert(bs@[sub as int].wf());
                }
                let pins = custom_pins(&bs[sub as usize]);
                let ghost v1 = views(bs@);
                let ghost pv = pins_view(pins@);
                proof {
                    let s = choose|s: Shape|
                        iface_sorted(bs@[sub as int], s.inputs@, DefId::InputPin) && iface_sorted(bs@[sub as int], s.outputs@, DefId::OutputPin)
                            && #[trigger] custom_layout(bs@[sub as int], s, pins@);
                    lemma_custom_pins(bs@[sub as int], s, pins@);
                    assert(v1[sub as int] == bs@[sub as int]@);
                    assert(bs@[b as int].instances@[i as int]@ == v1[b as int].2[i as int]);
                    assert(v1[b as int].2[i as int] == v0[b as int].2[i as int]);
                    assert(bs@[b as int].wf());
                    assert(pins_ok(pins@)) by {
                        assert(pins@.len() <= MAX_INSTANCES);
                    }
                }
                let ghost bs1 = bs@;
                set_pins_in(bs, b, i, pins);
                proof {
                    lemma_pins_step(v0, v1, b as int, i as int, pv);
                    let v2 = views(bs@);
                    assert(v2 == v1.update(b as int, with_inst(v1[b as int], i as int, with_pins(v1[b as int].2[i as int], pv))));
                    assert(boards_ok(bs@)) by {
                        assert forall|x: int| 0 <= x < bs@.len() implies (#[trigger] bs@[x]).wf() by {
                            if x != b as int {
                                assert(bs@[x] == bs1[x]);
                            }
                        }
                    }
                    assert forall|x: int, k: int|
                        0 <= x < n && 0 <= k < v0[x].2.len() && (x < b || (x == b && k < i + 1)) && sub_ref(v0, #[trigger] v0[x].2[k])
                            implies follows_iface(v2[v0[x].2[k].8 as int], v2[x].2[k].6) by {
                        let t = v0[x].2[k].8 as int;
                        assert(same_iface(v1[t], v2[t]));
                        if x == b && k == i {
                            lemma_iface_stable(v1[t], v2[t], pv);
                        } else {
                            assert(v2[x].2[k] == v1[x].2[k]);
                            lemma_iface_stable(v1[t], v2[t], v1[x].2[k].6);
                        }
                    }
                    assert forall|x: int, k: int|
                        0 <= x < n && 0 <= k < v0[x].2.len() && ((x > b || (x == b && k >= i + 1)) || !sub_ref(v0, v0[x].2[k]))
                            implies (#[trigger] v2[x].2[k]).6 == v0[x].2[k].6 by {
                        if x != b || k != i {
                            assert(v2[x].2[k] == v1[x].2[k]);
                        }
                    }
                }
            }
            i = i + 1;
        }
        b = b + 1;
    }
    proof {
        let v = views(bs@);
        assert forall|x: int, k: int| 0 <= x < v.len() && 0 <= k < v[x].2.len() && sub_ref(v, #[trigger] v[x].2[k]) implies follows_iface(
            v[v[x].2[k].8 as int],
            v[x].2[k].6,
        ) by {
            assert(v[x].2[k].8 == v0[x].2[k].8);
            assert(sub_ref(v0, v0[x].2[k]));
        }
    }
}

/// A revision bumped once (it stays at the top of its range).
pub open spec fn bumped(r: u64) -> u64 {
    if r < u64::MAX {
        (r + 1) as u64
    } else {
        r
    }
}

/// The path leads from the main drawing to the drawing being edited, or is empty.
pub open spec fn path_fits(bvs: Seq<BoardV>, main: int, cur: int, path: Seq<u32>) -> bool {
    &&& cur == main ==> path.len() == 0
    &&& path.len() == 0 || walk(bvs, main, path) == cur
}

proof fn lemma_walk_push(bvs: Seq<BoardV>, from: int, p: Seq<u32>, k: u32)
    ensures
        walk(bvs, from, p.push(k)) == ({
            let b = walk(bvs, from, p);
            if 0 <= b < bvs.len() && 0 <= k < bvs[b].2.len() && sub_ref(bvs, bvs[b].2[k as int]) {
                bvs[b].2[k as int].8 as int
            } else {
                -1
            }
        }),
{
    assert(p.push(k).drop_last() =~= p);
}

/// A drawing with nothing on it and no name.
pub open spec fn blank_board_v() -> BoardV {
    (Seq::empty(), Seq::empty(), Seq::empty(), Seq::empty(), Seq::empty(), Seq::empty())
}

/// The name an unnamed drawing gets: the main one, or a numbered sheet.
pub open spec fn default_name(i: int, main: int) -> Seq<char> {
    if i == main {
        "主图纸"@
    } else {
        "图纸"@ + decimal((i + 1) as nat)
    }
}

/// The drawings with every unnamed one given its default name.
pub open spec fn named(bvs: Seq<BoardV>, main: int) -> Seq<BoardV> {
    Seq::new(
        bvs.len(),
        |i: int|
            if bvs[i].0.len() == 0 {
                (default_name(i, main), bvs[i].1, bvs[i].2, bvs[i].3, bvs[i].4, bvs[i].5)
            } else {
                bvs[i]
            },
    )
}

impl Session {
    /// The session's state is consistent.
    pub closed spec fn inv(&self) -> bool {
        &&& boards_ok(self.project.boards@)
        &&& shapes_follow(views(self.project.boards@))
        &&& self.project.main_board < self.project.boards@.len()
        &&& self.engine.wf()
        &&& snaps_ok(self.undo@)
        &&& snaps_ok(self.redo@)
        &&& snaps_fit(self.undo@, self.project.main_board as int)
        &&& snaps_fit(self.redo@, self.project.main_board as int)
        &&& self.wave@.len() <= WAVE_WATCH_LIMIT
        &&& self.view_ok()
        &&& self.built_ok()
    }

    /// The simulation runs the flattening of drawings laid out as the ones
    /// held now (only instance parameters may have changed since, by input
    /// changes that do not rebuild it).
    closed spec fn built_ok(&self) -> bool {
        let (bs, nls) = self.built@;
        &&& flattened(bs, self.project.main_board as int, self.flat, nls)
        &&& bs.len() == self.project.boards@.len()
        &&& forall|i: int| 0 <= i < bs.len() ==> #[trigger] same_layout(bs[i], self.project.boards@[i])
        &&& loadable(self.flat) ==> loaded_from(self.engine, self.flat)
        &&& !loadable(self.flat) ==> self.engine.num_comps() == 0
            && self.engine.num_nets() == 0
    }

    /// The drawings the simulation was last built from.
    pub closed spec fn built_boards(&self) -> Seq<Board> {
        self.built@.0
    }

    /// Their netlists.
    pub closed spec fn built_netlists(&self) -> Seq<Netlist> {
        self.built@.1
    }

    /// The flattened netlist the simulation was loaded from.
    pub closed spec fn flat_spec(&self) -> Flat {
        self.flat
    }

    /// The view shows a drawing laid out as the one being edited, with the
    /// values of a simulation of the same circuit as the running one.
    closed spec fn view_ok(&self) -> bool {
        let (b, nl, e) = self.shown@;
        &&& same_layout(b, self.project.boards@[self.cur()])
        &&& netlist_ok(b, &nl)
        &&& shows(self.view, b, nl, self.view_nets(), &e)
        &&& e.num_nets() == self.engine.num_nets()
        &&& forall|n: u32| #[trigger] e.width_of(n) == self.engine.width_of(n)
    }

    /// Simulation nets of the drawing being edited, as the view numbers them
    /// (its local nets when the drawing is not part of the simulation).
    pub closed spec fn view_nets(&self) -> Option<Seq<u32>> {
        if self.cur() < self.flat.net_map@.len() {
            Some(self.flat.net_map@[self.cur()]@)
        } else {
            None
        }
    }

    /// The drawing the view was built from.
    pub closed spec fn shown_board(&self) -> Board {
        self.shown@.0
    }

    /// The netlist of that drawing.
    pub closed spec fn shown_netlist(&self) -> Netlist {
        self.shown@.1
    }

    /// The simulation whose values the view shows.
    pub closed spec fn shown_sim(&self) -> Engine {
        self.shown@.2
    }

    /// The drawings.
    pub closed spec fn boards(&self) -> Seq<Board> {
        self.project.boards@
    }

    /// The drawings as values.
    pub closed spec fn boards_v(&self) -> Seq<BoardV> {
        views(self.project.boards@)
    }

    /// Index of the main drawing.
    pub closed spec fn main_spec(&self) -> int {
        self.project.main_board as int
    }

    /// The project's name.
    pub closed spec fn name_spec(&self) -> Seq<char> {
        self.project.name@
    }

    /// Index of the drawing being edited.
    pub closed spec fn cur(&self) -> int {
        if (self.active as int) < self.project.boards@.len() {
            self.active as int
        } else {
            self.project.main_board as int
        }
    }

    /// The active drawing index as stored (it may be out of range after a
    /// drawing was removed).
    pub closed spec fn active_spec(&self) -> int {
        self.active as int
    }

    /// Undo steps, oldest first: the drawings each restores.
    pub closed spec fn history(&self) -> Seq<Seq<BoardV>> {
        snaps_v(self.undo@)
    }

    /// Redo steps, oldest first.
    pub closed spec fn future(&self) -> Seq<Seq<BoardV>> {
        snaps_v(self.redo@)
    }

    /// Ticks simulated since the last edit or reset.
    pub closed spec fn ticks(&self) -> u64 {
        self.engine.ticks()
    }

    /// Edit and navigation counter.
    pub closed spec fn revision_spec(&self) -> u64 {
        self.revision
    }

    /// Instance path from the main drawing to the one being edited.
    pub closed spec fn path_spec(&self) -> Seq<u32> {
        self.path@
    }

    /// The simulation.
    pub closed spec fn sim(&self) -> Engine {
        self.engine
    }

    /// Watched nets: number, name, width and samples.
    pub closed spec fn waves(&self) -> Seq<(u32, Seq<char>, Width, Seq<u64>)> {
        Seq::new(self.wave@.len(), |i: int| (self.wave@[i].net, self.wave@[i].name@, self.wave@[i].width, self.wave@[i].samples@))
    }

    /// `s1` is `s0` after an edit that left the drawings `mid`: the
    /// sub-circuit interfaces follow, the drawings before the edit are the
    /// newest undo step, redo is gone, the simulation is back at power-on
    /// and the view shows it, the revision is bumped and the path leads to
    /// the drawing being edited.
    pub open spec fn edited(s0: Session, s1: Session, mid: Seq<BoardV>) -> bool {
        Session::edited_main(s0, s1, mid, s0.main_spec())
    }

    /// As `edited`, with `main` the index of the main drawing afterwards.
    pub open spec fn edited_main(s0: Session, s1: Session, mid: Seq<BoardV>, main: int) -> bool {
        &&& synced(mid, s1.boards_v())
        &&& s1.history() == pushed(s0.history(), s0.boards_v(), history_limit(s0.boards_v()))
        &&& s1.future().len() == 0
        &&& powered_on(s1.sim())
        &&& s1.shown_sim() == s1.sim()
        &&& s1.built_boards() == s1.boards()
        &&& s1.revision_spec() == bumped(s0.revision_spec())
        &&& s1.main_spec() == main
        &&& s1.name_spec() == s0.name_spec()
        &&& s1.cur() == (if s0.active_spec() < s1.boards_v().len() { s0.active_spec() } else { main })
        &&& path_fits(s1.boards_v(), s1.main_spec(), s1.cur(), s1.path_spec())
        &&& s1.waves() == s0.waves()
    }

    /// Finishes an edit begun at `before`: interfaces follow their drawings,
    /// `before` becomes the newest undo step, redo is forgotten, the path is
    /// recomputed and the simulation restarts from power-on.
    fn commit(&mut self, before: Snapshot, Ghost(s0): Ghost<Session>)
        requires
            boards_ok(old(self).project.boards@),
            old(self).project.main_board < old(self).project.boards@.len(),
            snaps_ok(old(self).undo@),
            snaps_ok(old(self).redo@),
            snaps_fit(old(self).undo@, old(self).project.main_board as int),
            old(self).project.main_board < before.boards@.len(),
            old(self).wave@.len() <= WAVE_WATCH_LIMIT,
            boards_ok(before.boards@),
            shapes_follow(views(before.boards@)),
            views(before.boards@) == s0.boards_v(),
            old(self).undo@ == s0.undo@,
            old(self).revision == s0.revision,
            old(self).active == s0.active,
            old(self).project.name == s0.project.name,
            old(self).wave == s0.wave,
        ensures
            final(self).inv(),
            Session::edited_main(s0, *final(self), views(old(self).project.boards@), old(self).project.main_board as int),
    {
        sync_boards(&mut self.project.boards);
        self.push_history(before, Ghost(self.project.main_board as int));
        if self.active as usize >= self.project.boards.len() {
            self.active = self.project.main_board as u32;
        }
        self.recompute_path();
        self.rebuild();
        if self.revision < u64::MAX {
            self.revision = self.revision + 1;
        }
    }

    fn snapshot(&self) -> (r: Snapshot)
        ensures
            views(r.boards@) == views(self.project.boards@),
            r.boards@.len() == self.project.boards@.len(),
            r.path@ == self.path@,
            boards_ok(self.project.boards@) ==> boards_ok(r.boards@),
    {
        let r = Snapshot { boards: copy_boards(&self.project.boards), path: copy_u32s(&self.path) };
        proof {
            if boards_ok(self.project.boards@) {
                assert forall|i: int| 0 <= i < r.boards@.len() implies (#[trigger] r.boards@[i]).wf() by {
                    assert(self.project.boards@[i].wf());
                }
            }
        }
        r
    }

    /// Index of the drawing being edited (the main drawing when the active
    /// index is out of range).
    fn current_board(&self) -> (r: u32)
        requires
            self.project.main_board < self.project.boards@.len(),
            self.project.boards@.len() <= MAX_BOARDS,
        ensures
            r == self.cur(),
            r < self.project.boards@.len(),
    {
        if (self.active as usize) < self.project.boards.len() {
            self.active
        } else {
            self.project.main_board as u32
        }
    }

    /// Rebuilds the view of the drawing being edited.
    fn refresh_view(&mut self)
        requires
            boards_ok(old(self).project.boards@),
            old(self).project.main_board < old(self).project.boards@.len(),
            old(self).engine.wf(),
        ensures
            final(self).view_ok(),
            final(self).shown@.2 == old(self).engine,
            final(self).built == old(self).built,
            final(self).engine == old(self).engine,
            final(self).flat == old(self).flat,
            final(self).project == old(self).project,
            final(self).active == old(self).active,
            final(self).path == old(self).path,
            final(self).revision == old(self).revision,
            final(self).undo == old(self).undo,
            final(self).redo == old(self).redo,
            final(self).wave == old(self).wave,
    {
        let b = self.current_board() as usize;
        let board = &self.project.boards[b];
        let nl = board.compile();
        let view = if b < self.flat.net_map.len() {
            let nm = NetMap { map: Some(self.flat.net_map[b].as_slice()) };
            let v = build_view_with(board, &nl, &nm, &self.engine);
            assert(shows(v, *board, nl, self.view_nets(), &self.engine));
            v
        } else {
            let nm = NetMap { map: None };
            let v = build_view_with(board, &nl, &nm, &self.engine);
            assert(shows(v, *board, nl, self.view_nets(), &self.engine));
            v
        };
        self.view = view;
        self.shown = Ghost((self.project.boards@[b as int], nl, self.engine));
    }

    /// Rebuilds the simulation from the drawings (power-on state) and the
    /// view of the drawing being edited. A flattening the engine cannot run
    /// (see `loadable`) leaves the simulation empty.
    fn rebuild(&mut self)
        requires
            boards_ok(old(self).project.boards@),
            old(self).project.main_board < old(self).project.boards@.len(),
        ensures
            powered_on(final(self).engine),
            final(self).view_ok(),
            final(self).built_ok(),
            final(self).built@.0 == old(self).project.boards@,
            final(self).shown@.2 == final(self).engine,
            final(self).project == old(self).project,
            final(self).active == old(self).active,
            final(self).path == old(self).path,
            final(self).revision == old(self).revision,
            final(self).undo == old(self).undo,
            final(self).redo == old(self).redo,
            final(self).wave == old(self).wave,
    {
        let root = self.project.main_board as u32;
        let (mut flat, nls) = build(&self.project.boards, root);
        let ghost f0 = flat;
        let mut engine = Engine::new();
        if can_load(&flat) {
            engine.load_flat(&mut flat);
            proof {
                assert(loaded_from(engine, flat));
            }
        }
        proof {
            assert(flattened(self.project.boards@, root as int, flat, nls@));
            assert forall|i: int| 0 <= i < self.project.boards@.len() implies #[trigger] same_layout(
                self.project.boards@[i],
                self.project.boards@[i],
            ) by {}
        }
        self.built = Ghost((self.project.boards@, nls@));
        proof {
            assert forall|n: u32| #[trigger] engine.net_spec(n) == (NetValue { val: 0, unk: 0 }) by {
                if n >= engine.num_nets() {
                    engine.lemma_net_outside(n);
                }
            }
        }
        self.engine = engine;
        self.flat = flat;
        self.refresh_view();
    }

    /// Records `before` as the newest undo step (dropping the oldest beyond
    /// the limit for its size) and forgets the redo steps.
    fn push_history(&mut self, before: Snapshot, Ghost(m): Ghost<int>)
        requires
            snaps_fit(old(self).undo@, m),
            m < before.boards@.len(),
            snaps_ok(old(self).undo@),
            boards_ok(before.boards@),
            shapes_follow(views(before.boards@)),
        ensures
            snaps_fit(final(self).undo@, m),
            snaps_ok(final(self).undo@),
            snaps_v(final(self).undo@) == pushed(snaps_v(old(self).undo@), views(before.boards@), history_limit(views(before.boards@))),
            final(self).redo@.len() == 0,
            final(self).project == old(self).project,
            final(self).engine == old(self).engine,
            final(self).flat == old(self).flat,
            final(self).view == old(self).view,
            final(self).active == old(self).active,
            final(self).path == old(self).path,
            final(self).revision == old(self).revision,
            final(self).wave == old(self).wave,
    {
        let ghost bv = views(before.boards@);
        let nb = before.boards.len();
        let mut total: u64 = 0;
        let mut i: usize = 0;
        while i < nb
            invariant
                nb == before.boards@.len(),
                boards_ok(before.boards@),
                bv == views(before.boards@),
                i <= nb,
                total == edit_size(bv.subrange(0, i as int)),
                total <= i * (MAX_INSTANCES + MAX_WIRES),
                nb <= MAX_BOARDS,
            decreases nb - i,
        {
            proof {
                assert(bv.subrange(0, i + 1).drop_last() =~= bv.subrange(0, i as int));
                assert(before.boards@[i as int].wf());
                assert(bv[i as int] == before.boards@[i as int]@);
            }
            proof {
                assert(total + MAX_INSTANCES + MAX_WIRES <= (i + 1) * (MAX_INSTANCES + MAX_WIRES)) by (nonlinear_arith)
                    requires
                        total <= i * (MAX_INSTANCES + MAX_WIRES),
                ;
                assert((i + 1) * (MAX_INSTANCES + MAX_WIRES) <= MAX_BOARDS * (MAX_INSTANCES + MAX_WIRES)) by (nonlinear_arith)
                    requires
                        i + 1 <= MAX_BOARDS,
                ;
            }
            total = total + before.boards[i].instances.len() as u64 + before.boards[i].wires.len() as u64;
            i = i + 1;
        }
        proof {
            assert(bv.subrange(0, nb as int) =~= bv);
        }
        let limit: usize = if total > 2000 {
            16
        } else if total > 500 {
            48
        } else {
            128
        };
        let mut undo: Vec<Snapshot> = Vec::new();
        std::mem::swap(&mut undo, &mut self.undo);
        let ghost h0 = snaps_v(undo@);
        undo.push(before);
        let ghost h2 = snaps_v(undo@);
        proof {
            assert(h2 =~= h0.push(bv));
        }
        while undo.len() > limit
            invariant
                limit >= 16,
                h2.len() == h0.len() + 1,
                snaps_ok(undo@),
                snaps_fit(undo@, m),
                undo@.len() <= h2.len(),
                undo@.len() >= limit || undo@.len() == h2.len(),
                snaps_v(undo@) == h2.subrange(h2.len() - undo@.len(), h2.len() as int),
            decreases undo@.len(),
        {
            let ghost u0 = undo@;
            undo.remove(0);
            proof {
                assert(snaps_v(undo@) =~= snaps_v(u0).subrange(1, u0.len() as int));
                assert(snaps_v(undo@) =~= h2.subrange(h2.len() - undo@.len(), h2.len() as int));
            }
        }
        self.undo = undo;
        proof {
            if h2.len() <= limit {
                assert(h2.subrange(0, h2.len() as int) =~= h2);
            }
        }
        self.redo = Vec::new();
    }

    /// Looks for an instance path from the main drawing to the drawing being
    /// edited (depth-first, in instance order); empty when there is none.
    fn recompute_path(&mut self)
        requires
            boards_ok(old(self).project.boards@),
            old(self).project.main_board < old(self).project.boards@.len(),
        ensures
            path_fits(views(old(self).project.boards@), old(self).project.main_board as int, old(self).cur(), final(self).path@),
            final(self).project == old(self).project,
            final(self).engine == old(self).engine,
            final(self).flat == old(self).flat,
            final(self).view == old(self).view,
            final(self).built == old(self).built,
            final(self).active == old(self).active,
            final(self).revision == old(self).revision,
            final(self).undo == old(self).undo,
            final(self).redo == old(self).redo,
            final(self).wave == old(self).wave,
    {
        let target = self.current_board();
        let root = self.project.main_board as u32;
        self.path = find_path(&self.project.boards, root, target);
    }
}

/// Drawing `b` waits on the stack of the search.
spec fn on_stack(st: Seq<(u32, Vec<u32>)>, b: int) -> bool {
    exists|q: int| 0 <= q < st.len() && (#[trigger] st[q]).0 as int == b
}

/// Every drawing that drawing `b` refers to is seen or waits on the stack.
spec fn refs_covered(bvs: Seq<BoardV>, seen: Seq<bool>, st: Seq<(u32, Vec<u32>)>, b: int, upto: int) -> bool {
    forall|k: int|
        0 <= k < upto && sub_ref(bvs, #[trigger] bvs[b].2[k]) ==> seen[bvs[b].2[k].8 as int] || on_stack(st, bvs[b].2[k].8 as int)
}

/// Covering survives more drawings seen and a stack that keeps, or sees,
/// what it held.
proof fn lemma_covered_mono(
    bvs: Seq<BoardV>,
    s0: Seq<bool>,
    st0: Seq<(u32, Vec<u32>)>,
    s1: Seq<bool>,
    st1: Seq<(u32, Vec<u32>)>,
    b: int,
    upto: int,
)
    requires
        s0.len() == bvs.len(),
        s1.len() == bvs.len(),
        refs_covered(bvs, s0, st0, b, upto),
        forall|x: int| 0 <= x < bvs.len() && #[trigger] s0[x] ==> s1[x],
        forall|x: int| 0 <= x < bvs.len() && #[trigger] on_stack(st0, x) ==> s1[x] || on_stack(st1, x),
    ensures
        refs_covered(bvs, s1, st1, b, upto),
{
    assert forall|k: int|
        0 <= k < upto && sub_ref(bvs, #[trigger] bvs[b].2[k]) implies s1[bvs[b].2[k].8 as int] || on_stack(st1, bvs[b].2[k].8 as int) by {
        let x = bvs[b].2[k].8 as int;
        if s0[x] {
        } else {
            assert(on_stack(st0, x));
        }
    }
}

/// Pushing keeps what the stack held.
proof fn lemma_on_stack_push(st: Seq<(u32, Vec<u32>)>, e: (u32, Vec<u32>))
    ensures
        forall|x: int| #[trigger] on_stack(st, x) ==> on_stack(st.push(e), x),
        on_stack(st.push(e), e.0 as int),
{
    assert forall|x: int| #[trigger] on_stack(st, x) implies on_stack(st.push(e), x) by {
        let q = choose|q: int| 0 <= q < st.len() && (#[trigger] st[q]).0 as int == x;
        assert(st.push(e)[q] == st[q]);
    }
    assert(st.push(e)[st.len() as int] == e);
}

/// When the seen drawings cover all their references, every drawing a path
/// from a seen drawing reaches is seen.
proof fn lemma_walk_seen(bvs: Seq<BoardV>, seen: Seq<bool>, st: Seq<(u32, Vec<u32>)>, root: int, p: Seq<u32>)
    requires
        seen.len() == bvs.len(),
        0 <= root < bvs.len(),
        seen[root],
        st.len() == 0,
        forall|b: int| 0 <= b < bvs.len() && #[trigger] seen[b] ==> refs_covered(bvs, seen, st, b, bvs[b].2.len() as int),
    ensures
        walk(bvs, root, p) >= 0 ==> seen[walk(bvs, root, p)],
    decreases p.len(),
{
    if p.len() > 0 {
        lemma_walk_seen(bvs, seen, st, root, p.drop_last());
        let b = walk(bvs, root, p.drop_last());
        let k = p.last() as int;
        if 0 <= b < bvs.len() && 0 <= k < bvs[b].2.len() && sub_ref(bvs, bvs[b].2[k]) {
            assert(refs_covered(bvs, seen, st, b, bvs[b].2.len() as int));
            assert(sub_ref(bvs, bvs[b].2[k]));
            assert(!on_stack(st, bvs[b].2[k].8 as int));
        }
    }
}

/// An instance path from drawing `root` to drawing `target`, found depth-first
/// in instance order; empty when the two are the same or when no instance
/// path leads from one to the other.
fn find_path(bs: &Vec<Board>, root: u32, target: u32) -> (r: Vec<u32>)
    requires
        boards_ok(bs@),
        root < bs@.len(),
        target < bs@.len(),
    ensures
        path_fits(views(bs@), root as int, target as int, r@),
        r@.len() == 0 && target != root ==> forall|p: Seq<u32>| #[trigger] walk(views(bs@), root as int, p) != target as int,
{
    if target == root {
        return Vec::new();
    }
    let ghost bvs = views(bs@);
    let n = bs.len();
    let mut seen: Vec<bool> = Vec::new();
    let mut j: usize = 0;
    while j < n
        invariant
            j <= n,
            seen@.len() == j,
            forall|x: int| 0 <= x < j ==> !#[trigger] seen@[x],
        decreases n - j,
    {
        seen.push(false);
        j = j + 1;
    }
    let mut stack: Vec<(u32, Vec<u32>)> = Vec::new();
    stack.push((root, Vec::new()));
    proof {
        assert(stack@[0].0 == root);
        assert(on_stack(stack@, root as int));
    }
    while stack.len() > 0
        invariant
            n == bs@.len(),
            bvs == views(bs@),
            boards_ok(bs@),
            seen@.len() == n,
            root < n,
            target < n,
            target != root,
            forall|q: int| 0 <= q < stack@.len() ==> (#[trigger] stack@[q]).0 < n && walk(bvs, root as int, stack@[q].1@) == stack@[q].0,
            forall|q: int| 0 <= q < stack@.len() ==> (#[trigger] stack@[q]).0 != target,
            !seen@[target as int],
            seen@[root as int] || on_stack(stack@, root as int),
            forall|b: int| 0 <= b < n && #[trigger] seen@[b] ==> refs_covered(bvs, seen@, stack@, b, bvs[b].2.len() as int),
        decreases count_false(seen@), stack@.len(),
    {
        let ghost st0 = stack@;
        let ghost sn0 = seen@;
        let (b, p) = stack.pop().unwrap();
        let bi = b as usize;
        proof {
            assert(st0.last().0 == b);
            assert forall|x: int| 0 <= x < n && #[trigger] on_stack(st0, x) implies x == b || on_stack(stack@, x) by {
                let q = choose|q: int| 0 <= q < st0.len() && (#[trigger] st0[q]).0 as int == x;
                if q < st0.len() - 1 {
                    assert(stack@[q] == st0[q]);
                }
            }
        }
        if bi >= n || seen[bi] {
            proof {
                assert forall|bb: int| 0 <= bb < n && #[trigger] seen@[bb] implies refs_covered(bvs, seen@, stack@, bb, bvs[bb].2.len() as int) by {
                    lemma_covered_mono(bvs, sn0, st0, seen@, stack@, bb, bvs[bb].2.len() as int);
                }
            }
            continue;
        }
        let ghost seen0 = seen@;
        seen.set(bi, true);
        proof {
            crate::graph::lemma_count_false_set(seen0, bi as int);
            assert forall|bb: int| 0 <= bb < n && #[trigger] seen@[bb] && bb != bi implies refs_covered(bvs, seen@, stack@, bb, bvs[bb].2.len() as int) by {
                lemma_covered_mono(bvs, sn0, st0, seen@, stack@, bb, bvs[bb].2.len() as int);
            }
        }
        let m = bs[bi].instances.len();
        let mut k: usize = 0;
        while k < m
            invariant
                n == bs@.len(),
                bvs == views(bs@),
                boards_ok(bs@),
                bi < n,
                m == bs@[bi as int].instances@.len(),
                m == bvs[bi as int].2.len(),
                k <= m,
                root < n,
                target < n,
                target != root,
                walk(bvs, root as int, p@) == bi,
                forall|q: int| 0 <= q < stack@.len() ==> (#[trigger] stack@[q]).0 < n && walk(bvs, root as int, stack@[q].1@) == stack@[q].0,
                forall|q: int| 0 <= q < stack@.len() ==> (#[trigger] stack@[q]).0 != target,
                seen@.len() == n,
                seen@[bi as int],
                !seen@[target as int],
                seen@[root as int] || on_stack(stack@, root as int),
                forall|bb: int| 0 <= bb < n && #[trigger] seen@[bb] && bb != bi ==> refs_covered(bvs, seen@, stack@, bb, bvs[bb].2.len() as int),
                refs_covered(bvs, seen@, stack@, bi as int, k as int),
            decreases m - k,
        {
            let sub = bs[bi].instances[k].sub;
            proof {
                assert(bvs[bi as int] == bs@[bi as int]@);
                assert(bvs[bi as int].2[k as int] == bs@[bi as int].instances@[k as int]@);
            }
            if sub == NO_SUB || sub as usize >= n {
                proof {
                    assert(!sub_ref(bvs, bvs[bi as int].2[k as int]));
                    assert forall|kk: int|
                        0 <= kk < k + 1 && sub_ref(bvs, #[trigger] bvs[bi as int].2[kk]) implies seen@[bvs[bi as int].2[kk].8 as int]
                        || on_stack(stack@, bvs[bi as int].2[kk].8 as int) by {
                        if kk < k {
                        }
                    }
                }
                k = k + 1;
                continue;
            }
            let mut np = copy_u32s(&p);
            np.push(k as u32);
            proof {
                lemma_walk_push(bvs, root as int, p@, k as u32);
                assert(walk(bvs, root as int, np@) == sub as int);
            }
            if sub == target {
                return np;
            }
            let ghost st1 = stack@;
            stack.push((sub, np));
            proof {
                lemma_on_stack_push(st1, (sub, np));
                assert forall|bb: int| 0 <= bb < n && #[trigger] seen@[bb] && bb != bi implies refs_covered(bvs, seen@, stack@, bb, bvs[bb].2.len() as int) by {
                    lemma_covered_mono(bvs, seen@, st1, seen@, stack@, bb, bvs[bb].2.len() as int);
                }
                lemma_covered_mono(bvs, seen@, st1, seen@, stack@, bi as int, k as int);
                assert forall|kk: int|
                    0 <= kk < k + 1 && sub_ref(bvs, #[trigger] bvs[bi as int].2[kk]) implies seen@[bvs[bi as int].2[kk].8 as int]
                    || on_stack(stack@, bvs[bi as int].2[kk].8 as int) by {
                    if kk < k {
                    } else {
                        assert(bvs[bi as int].2[kk].8 == sub);
                    }
                }
                assert forall|q: int| 0 <= q < stack@.len() implies (#[trigger] stack@[q]).0 < n && walk(bvs, root as int, stack@[q].1@) == stack@[q].0 by {
                    if q < st1.len() {
                        assert(stack@[q] == st1[q]);
                    }
                }
                assert forall|q: int| 0 <= q < stack@.len() implies (#[trigger] stack@[q]).0 != target by {
                    if q < st1.len() {
                        assert(stack@[q] == st1[q]);
                    }
                }
            }
            k = k + 1;
        }
    }
    proof {
        assert forall|pp: Seq<u32>| #[trigger] walk(bvs, root as int, pp) != target as int by {
            assert(!on_stack(stack@, root as int));
            lemma_walk_seen(bvs, seen@, stack@, root as int, pp);
        }
    }
    Vec::new()
}

impl Session {
    /// A session holding `project`: an empty drawing is added to a project
    /// without one, a main index out of range becomes 0, and unnamed
    /// drawings get default names.
    pub fn from_project(project: Project) -> (s: Session)
        requires
            forall|i: int| 0 <= i < project.boards@.len() ==> (#[trigger] project.boards@[i]).wf(),
            project.boards@.len() < MAX_BOARDS,
        ensures
            s.inv(),
            powered_on(s.sim()),
            s.history().len() == 0,
            s.future().len() == 0,
            s.main_spec() == (if project.main_board < project.boards@.len() { project.main_board as int } else { 0 }),
            s.cur() == s.main_spec(),
            s.path_spec().len() == 0,
            s.revision_spec() == 1,
            s.waves().len() == 0,
            s.name_spec() == project.name@,
            synced(
                named(
                    if project.boards@.len() == 0 { seq![blank_board_v()] } else { views(project.boards@) },
                    s.main_spec(),
                ),
                s.boards_v(),
            ),
    {
        let mut project = project;
        if project.boards.len() == 0 {
            project.add_board(Board::new());
            proof {
                let b0 = project.boards@[0]@;
                assert(b0.2 =~= Seq::<InstanceV>::empty());
                assert(b0.3 =~= Seq::<Seq<Point>>::empty());
                assert(b0.4 =~= Seq::<crate::board::AnnotationV>::empty());
                assert(b0.5 =~= Seq::<crate::board::LabelV>::empty());
                assert(b0 == blank_board_v());
                assert(views(project.boards@) =~= seq![blank_board_v()]);
            }
        }
        if project.main_board >= project.boards.len() {
            project.main_board = 0;
        }
        let ghost v0 = views(project.boards@);
        let ghost main0 = project.main_board;
        let ghost name0 = project.name;
        let n = project.boards.len();
        let mut i: usize = 0;
        while i < n
            invariant
                project.main_board == main0,
                project.name == name0,
                n == project.boards@.len(),
                n == v0.len(),
                1 <= n <= MAX_BOARDS,
                project.main_board < n,
                i <= n,
                forall|j: int| 0 <= j < n ==> (#[trigger] project.boards@[j]).wf(),
                forall|j: int| 0 <= j < i ==> #[trigger] views(project.boards@)[j] == named(v0, project.main_board as int)[j],
                forall|j: int| i <= j < n ==> #[trigger] views(project.boards@)[j] == v0[j],
            decreases n - i,
        {
            proof {
                assert(views(project.boards@)[i as int] == v0[i as int]);
            }
            if project.boards[i].name.as_str().unicode_len() == 0 {
                let name = if i == project.main_board {
                    crate::text::copy_str("主图纸")
                } else {
                    crate::text::indexed_name("图纸", (i + 1) as u64)
                };
                let ghost bs0 = project.boards@;
                let mut bd = Board::new();
                std::mem::swap(&mut bd, &mut project.boards[i]);
                bd.name = name;
                std::mem::swap(&mut bd, &mut project.boards[i]);
                proof {
                    assert forall|j: int| 0 <= j < n implies (#[trigger] project.boards@[j]).wf() by {
                        if j != i as int {
                            assert(project.boards@[j] == bs0[j]);
                        }
                    }
                    assert forall|j: int| 0 <= j < n && j != i implies #[trigger] views(project.boards@)[j] == views(bs0)[j] by {
                        assert(project.boards@[j] == bs0[j]);
                    }
                    assert(views(project.boards@)[i as int] == named(v0, project.main_board as int)[i as int]);
                }
            } else {
                proof {
                    assert(views(project.boards@)[i as int] == named(v0, project.main_board as int)[i as int]);
                }
            }
            i = i + 1;
        }
        proof {
            assert(views(project.boards@) =~= named(v0, project.main_board as int));
        }
        let root = project.main_board as u32;
        let mut s = Session {
            project,
            engine: Engine::new(),
            flat: Flat {
                comps: Vec::new(),
                states: Vec::new(),
                pin_net: Vec::new(),
                pin_width: Vec::new(),
                pin_is_out: Vec::new(),
                pin_start: Vec::new(),
                inst_count: 0,
                net_count: 0,
                net_map: Vec::new(),
                inst_map: Vec::new(),
                truncated: false,
            },
            view: CircuitView::empty(),
            shown: Ghost(arbitrary()),
            built: Ghost(arbitrary()),
            active: root,
            path: Vec::new(),
            revision: 1,
            undo: Vec::new(),
            redo: Vec::new(),
            wave: Vec::new(),
        };
        sync_boards(&mut s.project.boards);
        s.rebuild();
        proof {
            assert(s.history() =~= Seq::<Seq<BoardV>>::empty());
            assert(s.future() =~= Seq::<Seq<BoardV>>::empty());
            assert(s.waves() =~= Seq::<(u32, Seq<char>, Width, Seq<u64>)>::empty());
        }
        s
    }

    /// A session with one empty main drawing.
    pub fn new() -> (s: Session)
        ensures
            s.inv(),
            powered_on(s.sim()),
            s.history().len() == 0,
            s.future().len() == 0,
            s.boards_v() == seq![("主图纸"@, Seq::<char>::empty(), Seq::<InstanceV>::empty(), Seq::<Seq<Point>>::empty(), Seq::<crate::board::AnnotationV>::empty(), Seq::<crate::board::LabelV>::empty())],
            s.name_spec() == "未命名工程"@,
            s.main_spec() == 0,
            s.cur() == 0,
            s.path_spec().len() == 0,
            s.revision_spec() == 1,
            s.waves().len() == 0,
    {
        let mut project = Project::new("未命名工程");
        let mut b = Board::new();
        b.name = crate::text::copy_str("主图纸");
        project.add_board(b);
        proof {
            reveal_strlit("主图纸");
            assert(project.boards@[0].wf());
        }
        let ghost pv = views(project.boards@);
        let s = Session::from_project(project);
        proof {
            let bv = s.boards_v();
            assert(pv[0].3 =~= Seq::<Seq<Point>>::empty());
            assert(pv[0].4 =~= Seq::<crate::board::AnnotationV>::empty());
            assert(pv[0].5 =~= Seq::<crate::board::LabelV>::empty());
            assert(named(pv, 0)[0] == pv[0]);
            assert(bv[0].2 =~= Seq::<InstanceV>::empty());
            assert(bv =~= seq![("主图纸"@, Seq::<char>::empty(), Seq::<InstanceV>::empty(), Seq::<Seq<Point>>::empty(), Seq::<crate::board::AnnotationV>::empty(), Seq::<crate::board::LabelV>::empty())]);
        }
        s
    }

    /// Back to a fresh session.
    pub fn clear(&mut self)
        ensures
            final(self).inv(),
            powered_on(final(self).sim()),
            final(self).history().len() == 0,
            final(self).future().len() == 0,
            final(self).boards_v().len() == 1,
            final(self).boards_v()[0].2.len() == 0,
            final(self).cur() == 0,
            final(self).waves().len() == 0,
            final(self).revision_spec() == 1,
    {
        *self = Session::new();
    }
}

proof fn lemma_views_update(bs: Seq<Board>, i: int, b: Board)
    requires
        0 <= i < bs.len(),
    ensures
        views(bs.update(i, b)) == views(bs).update(i, b@),
{
    assert(views(bs.update(i, b)) =~= views(bs).update(i, b@));
}

/// Everything of a drawing but its instances is unchanged.
pub open spec fn same_rest(a: Board, b: Board) -> bool {
    &&& b.wires@ == a.wires@
    &&& b.annotations@ == a.annotations@
    &&& b.labels@ == a.labels@
    &&& b.name@ == a.name@
    &&& b.name_en@ == a.name_en@
}

/// `b` is `a` with a new instance of `def` at (`x`, `y`) appended.
pub open spec fn placed(a: Board, b: Board, def: DefId, params: Params, x: i32, y: i32) -> bool {
    let n = a.instances@.len();
    &&& same_rest(a, b)
    &&& b.instances@.len() == n + 1
    &&& forall|i: int| 0 <= i < n ==> #[trigger] b.instances@[i] == a.instances@[i]
    &&& ({
        let it = b.instances@[n as int];
        &&& it.def == def
        &&& it.params == params
        &&& it.x == x
        &&& it.y == y
        &&& it.rot == 0
        &&& it.sub == NO_SUB
        &&& it.display_name@ == auto_name_spec(n as u32)
        &&& it.mem_init@.len() == 0
        &&& it.pins@.len() == in_count_spec(def, params) + out_count_spec(def, params)
    })
}

/// Where a new instance can go: coordinates in range and room on the drawing.
pub open spec fn room_at(a: Board, x: i32, y: i32) -> bool {
    coord_ok(x as int) && coord_ok(y as int) && a.instances@.len() < MAX_INSTANCES
}

impl Session {
    spec fn same_but_boards(a: Session, b: Session) -> bool {
        &&& a.project.main_board == b.project.main_board
        &&& a.project.name == b.project.name
        &&& a.project.schema_version == b.project.schema_version
        &&& a.engine == b.engine
        &&& a.flat == b.flat
        &&& a.view == b.view
        &&& a.shown == b.shown
        &&& a.built == b.built
        &&& a.active == b.active
        &&& a.path == b.path
        &&& a.revision == b.revision
        &&& a.undo == b.undo
        &&& a.redo == b.redo
        &&& a.wave == b.wave
    }

    /// `s1` is `s0` after an edit that left the drawing being edited as `nb`.
    pub open spec fn edited_cur(s0: Session, s1: Session, nb: BoardV) -> bool {
        Session::edited(s0, s1, s0.boards_v().update(s0.cur(), nb))
    }

    /// Takes drawing `i` out; an empty drawing stands in for it.
    fn take_board(&mut self, i: usize) -> (r: Board)
        requires
            i < old(self).project.boards@.len(),
        ensures
            r == old(self).project.boards@[i as int],
            final(self).project.boards@.len() == old(self).project.boards@.len(),
            forall|j: int| 0 <= j < old(self).project.boards@.len() && j != i ==> #[trigger] final(self).project.boards@[j] == old(self).project.boards@[j],
            final(self).project.boards@[i as int].wf(),
            Session::same_but_boards(*old(self), *final(self)),
    {
        let mut bd = Board::new();
        std::mem::swap(&mut bd, &mut self.project.boards[i]);
        bd
    }

    /// Puts drawing `i` back.
    fn put_board(&mut self, i: usize, bd: Board)
        requires
            i < old(self).project.boards@.len(),
        ensures
            final(self).project.boards@ == old(self).project.boards@.update(i as int, bd),
            Session::same_but_boards(*old(self), *final(self)),
    {
        let mut bd = bd;
        std::mem::swap(&mut bd, &mut self.project.boards[i]);
    }

    /// Places a component of kind `def` with its default parameters at
    /// (`x`, `y`) on the drawing being edited; returns its index. Where the
    /// coordinates are out of range or the drawing is full nothing changes
    /// and `u32::MAX` comes back.
    pub fn add_component(&mut self, def: DefId, x: i32, y: i32) -> (id: u32)
        requires
            old(self).inv(),
        ensures
            final(self).inv(),
            room_at(old(self).boards()[old(self).cur()], x, y) ==> {
                &&& id == old(self).boards()[old(self).cur()].instances@.len()
                &&& exists|bd: Board|
                    #[trigger] Session::edited_cur(*old(self), *final(self), bd@) && placed(
                        old(self).boards()[old(self).cur()],
                        bd,
                        def,
                        default_params_of(def),
                        x,
                        y,
                    )
            },
            !room_at(old(self).boards()[old(self).cur()], x, y) ==> id == u32::MAX && *final(self) == *old(self),
    {
        let ci = self.current_board() as usize;
        if !(x >= -crate::board::COORD_LIMIT && x <= crate::board::COORD_LIMIT && y >= -crate::board::COORD_LIMIT && y
            <= crate::board::COORD_LIMIT && self.project.boards[ci].instances.len() < MAX_INSTANCES) {
            return u32::MAX;
        }
        let ghost s0 = *self;
        let before = self.snapshot();
        let mut bd = self.take_board(ci);
        let id = bd.add_instance(def, def.default_params(), x, y);
        let ghost nb = bd;
        self.put_board(ci, bd);
        proof {
            lemma_views_update(s0.project.boards@, ci as int, nb);
            assert(self.project.boards@ =~= s0.project.boards@.update(ci as int, nb));
            assert(boards_ok(self.project.boards@)) by {
                assert forall|j: int| 0 <= j < self.project.boards@.len() implies (#[trigger] self.project.boards@[j]).wf() by {
                    if j != ci {
                        assert(self.project.boards@[j] == s0.project.boards@[j]);
                    }
                }
            }
        }
        self.commit(before, Ghost(s0));
        proof {
            assert(Session::edited_cur(s0, *self, nb@));
            assert(placed(s0.boards()[s0.cur()], nb, def, default_params_of(def), x, y));
        }
        id
    }
}

/// `b` is `a` without instance `id` and the wires that ended on its pins
/// (`r` tells whether there was such an instance).
pub open spec fn removed_inst(a: Board, b: Board, id: u32, r: bool) -> bool {
    &&& r == (id < a.instances@.len())
    &&& r ==> b.instances@ == a.instances@.remove(id as int)
    &&& r ==> b.wires@ == a.wires@.filter(|w: Wire| !ends_on_instance(w.points@, a.instances@[id as int]))
    &&& !r ==> b.instances@ == a.instances@ && b.wires@ == a.wires@
    &&& b.annotations@ == a.annotations@
    &&& b.labels@ == a.labels@
    &&& b.name@ == a.name@
    &&& b.name_en@ == a.name_en@
}

/// `b` is `a` with instance `id` (if there is one) moved to (`x`, `y`).
pub open spec fn moved_inst(a: Board, b: Board, id: u32, x: i32, y: i32) -> bool {
    &&& same_rest(a, b)
    &&& id < a.instances@.len() ==> b.instances@ == a.instances@.update(id as int, Instance { x, y, ..a.instances@[id as int] })
    &&& id >= a.instances@.len() ==> b.instances@ == a.instances@
}

/// `b` is `a` with instance `id` (if there is one) changed by `f` in its
/// rotation or parameters, all else kept and the pins laid out anew.
pub open spec fn changed_inst(a: Board, b: Board, id: u32, rot: u16, params: Params) -> bool {
    &&& same_rest(a, b)
    &&& b.instances@.len() == a.instances@.len()
    &&& forall|i: int| 0 <= i < a.instances@.len() && i != id ==> #[trigger] b.instances@[i] == a.instances@[i]
    &&& id < a.instances@.len() ==> ({
        let x = a.instances@[id as int];
        let y = b.instances@[id as int];
        &&& y.rot == rot && y.params == params
        &&& y.def == x.def && y.x == x.x && y.y == x.y
        &&& y.display_name@ == x.display_name@ && y.mem_init@ == x.mem_init@ && y.sub == x.sub
        &&& pins_rebuilt(Instance { rot, params, ..x }, y)
    })
}

/// `b` is `a` with instance `id` (if there is one) renamed to `name`.
pub open spec fn renamed_inst(a: Board, b: Board, id: u32, name: Seq<char>) -> bool {
    &&& same_rest(a, b)
    &&& b.instances@.len() == a.instances@.len()
    &&& forall|i: int| 0 <= i < a.instances@.len() && i != id ==> #[trigger] b.instances@[i] == a.instances@[i]
    &&& id < a.instances@.len() ==> ({
        let x = a.instances@[id as int];
        let y = b.instances@[id as int];
        &&& y.display_name@ == name
        &&& y.def == x.def && y.params == x.params && y.x == x.x && y.y == x.y && y.rot == x.rot
        &&& y.pins == x.pins && y.mem_init == x.mem_init && y.sub == x.sub
    })
}

/// `b` is `a` after routing a wire from pin `from` to pin `to` (`r` tells
/// whether a route was found).
pub open spec fn connected(a: Board, b: Board, from: (u32, usize), to: (u32, usize), r: bool) -> bool {
    &&& b.instances@ == a.instances@
    &&& b.annotations@ == a.annotations@
    &&& b.labels@ == a.labels@
    &&& b.name@ == a.name@
    &&& b.name_en@ == a.name_en@
    &&& !is_pin(a.instances@, from.0 as int, from.1 as int) || !is_pin(a.instances@, to.0 as int, to.1 as int) ==> !r
        && b.wires@ == a.wires@
    &&& r ==> ({
        let p = a.instances@[from.0 as int].pin_point(from.1 as int);
        let q = a.instances@[to.0 as int].pin_point(to.1 as int);
        let pts = b.wires@.last().points@;
        &&& b.wires@.len() == a.wires@.len() + 1
        &&& b.wires@.drop_last() == a.wires@
        &&& route_shape(pts, p, q, route_blockers(a, p, q))
        &&& exists|raw: Seq<Point>| #[trigger] route_ok(raw, p, q, route_blockers(a, p, q), a.wires@) && pts == simplified(raw)
    })
    &&& !r ==> b.wires@.len() <= a.wires@.len() + 1 && b.wires@.subrange(0, a.wires@.len() as int) == a.wires@
}

/// `b` is `a` without wire `index` (`r` tells whether there was one).
pub open spec fn removed_wire(a: Board, b: Board, index: u32, r: bool) -> bool {
    &&& r == (index < a.wires@.len())
    &&& r ==> b.wires@ == a.wires@.remove(index as int)
    &&& !r ==> b.wires@ == a.wires@
    &&& b.instances@ == a.instances@
    &&& b.annotations@ == a.annotations@
    &&& b.labels@ == a.labels@
    &&& b.name@ == a.name@
    &&& b.name_en@ == a.name_en@
}

/// Everything of a drawing but its notes is unchanged.
pub open spec fn same_but_notes(a: Board, b: Board) -> bool {
    &&& b.instances@ == a.instances@
    &&& b.wires@ == a.wires@
    &&& b.labels@ == a.labels@
    &&& b.name@ == a.name@
    &&& b.name_en@ == a.name_en@
}

/// Everything of a drawing but its labels is unchanged.
pub open spec fn same_but_labels(a: Board, b: Board) -> bool {
    &&& b.instances@ == a.instances@
    &&& b.wires@ == a.wires@
    &&& b.annotations@ == a.annotations@
    &&& b.name@ == a.name@
    &&& b.name_en@ == a.name_en@
}

/// Notes as values after note `id` (if there is one) was changed to `v`.
pub open spec fn notes_with(a: Board, b: Board, id: u32, f: spec_fn(crate::board::AnnotationV) -> crate::board::AnnotationV) -> bool {
    &&& same_but_notes(a, b)
    &&& b.annotations@.len() == a.annotations@.len()
    &&& forall|i: int| 0 <= i < a.annotations@.len() && i != id ==> #[trigger] b.annotations@[i] == a.annotations@[i]
    &&& id < a.annotations@.len() ==> annotation_view(b.annotations@[id as int]) == f(annotation_view(a.annotations@[id as int]))
}

/// Labels as values after label `id` (if there is one) was changed to `v`.
pub open spec fn labels_with(a: Board, b: Board, id: u32, f: spec_fn(crate::board::LabelV) -> crate::board::LabelV) -> bool {
    &&& same_but_labels(a, b)
    &&& b.labels@.len() == a.labels@.len()
    &&& forall|i: int| 0 <= i < a.labels@.len() && i != id ==> #[trigger] b.labels@[i] == a.labels@[i]
    &&& id < a.labels@.len() ==> label_view(b.labels@[id as int]) == f(label_view(a.labels@[id as int]))
}

/// Whether a drawing keeps within the limits of the library.
fn board_wf(b: &Board) -> (r: bool)
    ensures
        r == b.wf(),
{
    if b.instances.len() > MAX_INSTANCES || b.wires.len() > MAX_WIRES || b.annotations.len() > MAX_WIRES || b.labels.len() > MAX_WIRES {
        return false;
    }
    let mut i: usize = 0;
    while i < b.instances.len()
        invariant
            i <= b.instances@.len(),
            forall|j: int| 0 <= j < i ==> (#[trigger] b.instances@[j]).wf(),
        decreases b.instances@.len() - i,
    {
        let it = &b.instances[i];
        if it.x < -crate::board::COORD_LIMIT || it.x > crate::board::COORD_LIMIT || it.y < -crate::board::COORD_LIMIT || it.y
            > crate::board::COORD_LIMIT || it.pins.len() > crate::board::MAX_PINS {
            proof {
                assert(!b.instances@[i as int].wf());
            }
            return false;
        }
        let mut k: usize = 0;
        while k < it.pins.len()
            invariant
                i < b.instances@.len(),
                *it == b.instances@[i as int],
                k <= it.pins@.len(),
                forall|q: int| 0 <= q < k ==> crate::board::pin_offset_ok(#[trigger] it.pins@[q]),
            decreases it.pins@.len() - k,
        {
            let pd = &it.pins[k];
            if pd.dx < 0 || pd.dx > crate::board::PIN_SPAN || pd.dy < 0 || pd.dy > crate::board::PIN_SPAN {
                proof {
                    assert(!crate::board::pin_offset_ok(it.pins@[k as int]));
                    assert(!b.instances@[i as int].wf());
                }
                return false;
            }
            k = k + 1;
        }
        i = i + 1;
    }
    true
}

impl Session {
    /// Starts an edit of the drawing being edited: its index, the drawing
    /// itself (taken out) and the step to record for undo.
    fn start_edit(&mut self) -> (r: (usize, Board, Snapshot))
        requires
            old(self).inv(),
        ensures
            r.0 == old(self).cur(),
            r.1 == old(self).boards()[r.0 as int],
            r.1.wf(),
            views(r.2.boards@) == old(self).boards_v(),
            boards_ok(r.2.boards@),
            final(self).project.boards@.len() == old(self).project.boards@.len(),
            forall|j: int| 0 <= j < old(self).project.boards@.len() && j != r.0 ==> #[trigger] final(self).project.boards@[j] == old(self).project.boards@[j],
            Session::same_but_boards(*old(self), *final(self)),
    {
        let ci = self.current_board() as usize;
        let before = self.snapshot();
        let bd = self.take_board(ci);
        (ci, bd, before)
    }

    /// Puts the edited drawing back and finishes the edit.
    fn finish_cur(&mut self, ci: usize, bd: Board, before: Snapshot, Ghost(s0): Ghost<Session>)
        requires
            s0.inv(),
            ci == s0.cur(),
            bd.wf(),
            views(before.boards@) == s0.boards_v(),
            boards_ok(before.boards@),
            old(self).project.boards@.len() == s0.project.boards@.len(),
            forall|j: int| 0 <= j < s0.project.boards@.len() && j != ci ==> #[trigger] old(self).project.boards@[j] == s0.project.boards@[j],
            Session::same_but_boards(s0, *old(self)),
        ensures
            final(self).inv(),
            Session::edited_cur(s0, *final(self), bd@),
    {
        let ghost nb = bd;
        self.put_board(ci, bd);
        proof {
            lemma_views_update(s0.project.boards@, ci as int, nb);
            assert(self.project.boards@ =~= s0.project.boards@.update(ci as int, nb));
            assert(boards_ok(self.project.boards@)) by {
                assert forall|j: int| 0 <= j < self.project.boards@.len() implies (#[trigger] self.project.boards@[j]).wf() by {
                    if j != ci {
                        assert(self.project.boards@[j] == s0.project.boards@[j]);
                    }
                }
            }
            assert(shapes_follow(views(before.boards@)));
            assert(views(before.boards@).len() == before.boards@.len());
            assert(s0.boards_v().len() == s0.project.boards@.len());
        }
        self.commit(before, Ghost(s0));
    }

    /// Removes instance `id` and the wires ending on its pins; returns
    /// whether there was such an instance. (An edit either way.)
    pub fn remove_component(&mut self, id: u32) -> (r: bool)
        requires
            old(self).inv(),
        ensures
            final(self).inv(),
            exists|bd: Board|
                #[trigger] Session::edited_cur(*old(self), *final(self), bd@) && removed_inst(old(self).boards()[old(self).cur()], bd, id, r),
    {
        let ghost s0 = *self;
        let (ci, mut bd, before) = self.start_edit();
        let r = bd.remove_instance(id);
        let ghost nb = bd;
        self.finish_cur(ci, bd, before, Ghost(s0));
        proof {
            assert(Session::edited_cur(s0, *self, nb@));
        }
        r
    }

    /// Moves instance `id` to (`x`, `y`); coordinates out of range are refused
    /// and change nothing.
    pub fn move_component(&mut self, id: u32, x: i32, y: i32)
        requires
            old(self).inv(),
        ensures
            final(self).inv(),
            coord_ok(x as int) && coord_ok(y as int) ==> exists|bd: Board|
                #[trigger] Session::edited_cur(*old(self), *final(self), bd@) && moved_inst(old(self).boards()[old(self).cur()], bd, id, x, y),
            !(coord_ok(x as int) && coord_ok(y as int)) ==> *final(self) == *old(self),
    {
        if !(x >= -crate::board::COORD_LIMIT && x <= crate::board::COORD_LIMIT && y >= -crate::board::COORD_LIMIT && y
            <= crate::board::COORD_LIMIT) {
            return;
        }
        let ghost s0 = *self;
        let (ci, mut bd, before) = self.start_edit();
        bd.set_pos(id, x, y);
        let ghost nb = bd;
        self.finish_cur(ci, bd, before, Ghost(s0));
        proof {
            assert(Session::edited_cur(s0, *self, nb@));
        }
    }

    /// Turns instance `id` clockwise by 90 degrees.
    pub fn rotate_component(&mut self, id: u32)
        requires
            old(self).inv(),
        ensures
            final(self).inv(),
            exists|bd: Board|
                #[trigger] Session::edited_cur(*old(self), *final(self), bd@) && ({
                    let a = old(self).boards()[old(self).cur()];
                    id < a.instances@.len() ==> changed_inst(a, bd, id, ((a.instances@[id as int].rot + 90) % 360) as u16, a.instances@[id as int].params)
                }) && ({
                    let a = old(self).boards()[old(self).cur()];
                    id >= a.instances@.len() ==> bd.instances@ == a.instances@ && same_rest(a, bd)
                }),
    {
        let ghost s0 = *self;
        let (ci, mut bd, before) = self.start_edit();
        let ghost b0 = bd;
        bd.rotate(id);
        let ghost nb = bd;
        proof {
            if id >= b0.instances@.len() {
                assert(nb.instances@ =~= b0.instances@);
            }
        }
        self.finish_cur(ci, bd, before, Ghost(s0));
        proof {
            assert(Session::edited_cur(s0, *self, nb@));
        }
    }

    /// Gives instance `id` the parameters `params` (its pins are laid out anew).
    pub fn set_params(&mut self, id: u32, params: Params)
        requires
            old(self).inv(),
        ensures
            final(self).inv(),
            exists|bd: Board|
                #[trigger] Session::edited_cur(*old(self), *final(self), bd@) && ({
                    let a = old(self).boards()[old(self).cur()];
                    id < a.instances@.len() ==> changed_inst(a, bd, id, a.instances@[id as int].rot, params)
                }) && ({
                    let a = old(self).boards()[old(self).cur()];
                    id >= a.instances@.len() ==> bd.instances@ == a.instances@ && same_rest(a, bd)
                }),
    {
        let ghost s0 = *self;
        let (ci, mut bd, before) = self.start_edit();
        let ghost b0 = bd;
        bd.set_params(id, params);
        let ghost nb = bd;
        proof {
            if id >= b0.instances@.len() {
                assert(nb.instances@ =~= b0.instances@);
            }
        }
        self.finish_cur(ci, bd, before, Ghost(s0));
        proof {
            assert(Session::edited_cur(s0, *self, nb@));
        }
    }
}

impl Session {
    /// Sets parameter `key` of instance `id` to `value` (keys as in
    /// `Params::set_named`). False for a missing instance or an unknown key;
    /// a value that changes nothing is no edit.
    pub fn set_param(&mut self, id: u32, key: &str, value: i64) -> (r: bool)
        requires
            old(self).inv(),
        ensures
            final(self).inv(),
            ({
                let a = old(self).boards()[old(self).cur()];
                &&& r == (id < a.instances@.len() && crate::defs::set_named_spec(a.instances@[id as int].params, key@, value) is Some)
                &&& (r && crate::defs::set_named_spec(a.instances@[id as int].params, key@, value)->0 != a.instances@[id as int].params)
                    ==> exists|bd: Board|
                    #[trigger] Session::edited_cur(*old(self), *final(self), bd@) && changed_inst(
                        a,
                        bd,
                        id,
                        a.instances@[id as int].rot,
                        crate::defs::set_named_spec(a.instances@[id as int].params, key@, value)->0,
                    )
                &&& !(r && crate::defs::set_named_spec(a.instances@[id as int].params, key@, value)->0 != a.instances@[id as int].params)
                    ==> *final(self) == *old(self)
            }),
    {
        let ci = self.current_board() as usize;
        if id as usize >= self.project.boards[ci].instances.len() {
            return false;
        }
        let old_p = self.project.boards[ci].instances[id as usize].params;
        let mut next = old_p;
        if !next.set_named(key, value) {
            return false;
        }
        if next.width == old_p.width && next.inputs == old_p.inputs && next.value == old_p.value && next.opts == old_p.opts
            && next.high == old_p.high && next.low == old_p.low && next.depth == old_p.depth {
            return true;
        }
        self.set_params(id, next);
        true
    }

    /// Renames instance `id` (an edit even when there is no such instance).
    pub fn set_display_name(&mut self, id: u32, name: &str)
        requires
            old(self).inv(),
        ensures
            final(self).inv(),
            exists|bd: Board|
                #[trigger] Session::edited_cur(*old(self), *final(self), bd@) && renamed_inst(old(self).boards()[old(self).cur()], bd, id, name@),
    {
        let ghost s0 = *self;
        let (ci, mut bd, before) = self.start_edit();
        let ghost b0 = bd;
        if (id as usize) < bd.instances.len() {
            bd.instances[id as usize].display_name = crate::text::copy_str(name);
        }
        let ghost nb = bd;
        proof {
            assert forall|j: int| 0 <= j < bd.instances@.len() implies (#[trigger] bd.instances@[j]).wf() by {
                assert(b0.instances@[j].wf());
            }
            if id >= b0.instances@.len() {
                assert(nb.instances@ =~= b0.instances@);
            }
        }
        self.finish_cur(ci, bd, before, Ghost(s0));
        proof {
            assert(Session::edited_cur(s0, *self, nb@));
        }
    }

    /// Routes a wire between two pins; returns whether a route was found.
    /// A drawing already holding the most wires is refused unchanged.
    pub fn connect_pins(&mut self, from: (u32, usize), to: (u32, usize)) -> (r: bool)
        requires
            old(self).inv(),
        ensures
            final(self).inv(),
            old(self).boards()[old(self).cur()].wires@.len() < MAX_WIRES ==> exists|bd: Board|
                #[trigger] Session::edited_cur(*old(self), *final(self), bd@) && connected(old(self).boards()[old(self).cur()], bd, from, to, r),
            old(self).boards()[old(self).cur()].wires@.len() >= MAX_WIRES ==> !r && *final(self) == *old(self),
    {
        let ci = self.current_board() as usize;
        if self.project.boards[ci].wires.len() >= MAX_WIRES {
            return false;
        }
        let ghost s0 = *self;
        let (ci, mut bd, before) = self.start_edit();
        let r = bd.connect_pins(from, to);
        let ghost nb = bd;
        self.finish_cur(ci, bd, before, Ghost(s0));
        proof {
            assert(Session::edited_cur(s0, *self, nb@));
        }
        r
    }

    /// Removes wire `index`; returns whether there was one.
    pub fn remove_wire(&mut self, index: u32) -> (r: bool)
        requires
            old(self).inv(),
        ensures
            final(self).inv(),
            exists|bd: Board|
                #[trigger] Session::edited_cur(*old(self), *final(self), bd@) && removed_wire(old(self).boards()[old(self).cur()], bd, index, r),
    {
        let ghost s0 = *self;
        let (ci, mut bd, before) = self.start_edit();
        let r = bd.remove_wire(index);
        let ghost nb = bd;
        self.finish_cur(ci, bd, before, Ghost(s0));
        proof {
            assert(Session::edited_cur(s0, *self, nb@));
        }
        r
    }

    /// Adds a note; returns its index (`u32::MAX`, and no change, when the
    /// drawing already holds the most notes).
    pub fn add_annotation(&mut self, x: i32, y: i32, text: &str) -> (id: u32)
        requires
            old(self).inv(),
        ensures
            final(self).inv(),
            ({
                let a = old(self).boards()[old(self).cur()];
                &&& a.annotations@.len() < MAX_WIRES ==> id == a.annotations@.len() && exists|bd: Board|
                    #[trigger] Session::edited_cur(*old(self), *final(self), bd@) && same_but_notes(a, bd)
                        && bd.annotations@.drop_last() == a.annotations@ && bd.annotations@.len() == a.annotations@.len() + 1
                        && annotation_view(bd.annotations@.last()) == (x, y, text@, 0u32)
                &&& a.annotations@.len() >= MAX_WIRES ==> id == u32::MAX && *final(self) == *old(self)
            }),
    {
        let ci = self.current_board() as usize;
        if self.project.boards[ci].annotations.len() >= MAX_WIRES {
            return u32::MAX;
        }
        let ghost s0 = *self;
        let (ci, mut bd, before) = self.start_edit();
        let ghost b0 = bd;
        let id = bd.add_annotation(x, y, text);
        let ghost nb = bd;
        proof {
            assert(nb.annotations@.drop_last() =~= b0.annotations@);
        }
        self.finish_cur(ci, bd, before, Ghost(s0));
        proof {
            assert(Session::edited_cur(s0, *self, nb@));
        }
        id
    }

    /// Removes note `id`; returns whether there was one.
    pub fn remove_annotation(&mut self, id: u32) -> (r: bool)
        requires
            old(self).inv(),
        ensures
            final(self).inv(),
            exists|bd: Board|
                #[trigger] Session::edited_cur(*old(self), *final(self), bd@) && ({
                    let a = old(self).boards()[old(self).cur()];
                    &&& same_but_notes(a, bd)
                    &&& r == (id < a.annotations@.len())
                    &&& r ==> bd.annotations@ == a.annotations@.remove(id as int)
                    &&& !r ==> bd.annotations@ == a.annotations@
                }),
    {
        let ghost s0 = *self;
        let (ci, mut bd, before) = self.start_edit();
        let r = bd.remove_annotation(id);
        let ghost nb = bd;
        self.finish_cur(ci, bd, before, Ghost(s0));
        proof {
            assert(Session::edited_cur(s0, *self, nb@));
        }
        r
    }

    /// Changes the text of note `id` (an edit even when there is no such note).
    pub fn set_annotation_text(&mut self, id: u32, text: &str)
        requires
            old(self).inv(),
        ensures
            final(self).inv(),
            exists|bd: Board|
                #[trigger] Session::edited_cur(*old(self), *final(self), bd@) && notes_with(
                    old(self).boards()[old(self).cur()],
                    bd,
                    id,
                    |v: crate::board::AnnotationV| (v.0, v.1, text@, v.3),
                ),
    {
        let ghost s0 = *self;
        let (ci, mut bd, before) = self.start_edit();
        if (id as usize) < bd.annotations.len() {
            bd.annotations[id as usize].text = crate::text::copy_str(text);
        }
        let ghost nb = bd;
        self.finish_cur(ci, bd, before, Ghost(s0));
        proof {
            assert(Session::edited_cur(s0, *self, nb@));
        }
    }

    /// Moves note `id` to (`x`, `y`) (an edit even when there is no such note).
    pub fn move_annotation(&mut self, id: u32, x: i32, y: i32)
        requires
            old(self).inv(),
        ensures
            final(self).inv(),
            exists|bd: Board|
                #[trigger] Session::edited_cur(*old(self), *final(self), bd@) && notes_with(
                    old(self).boards()[old(self).cur()],
                    bd,
                    id,
                    |v: crate::board::AnnotationV| (x, y, v.2, v.3),
                ),
    {
        let ghost s0 = *self;
        let (ci, mut bd, before) = self.start_edit();
        if (id as usize) < bd.annotations.len() {
            bd.annotations[id as usize].x = x;
            bd.annotations[id as usize].y = y;
        }
        let ghost nb = bd;
        self.finish_cur(ci, bd, before, Ghost(s0));
        proof {
            assert(Session::edited_cur(s0, *self, nb@));
        }
    }

    /// Adds a net label (labels with the same name are joined); returns its
    /// index (`u32::MAX`, and no change, when the drawing holds the most labels).
    pub fn add_label(&mut self, x: i32, y: i32, name: &str) -> (id: u32)
        requires
            old(self).inv(),
        ensures
            final(self).inv(),
            ({
                let a = old(self).boards()[old(self).cur()];
                &&& a.labels@.len() < MAX_WIRES ==> id == a.labels@.len() && exists|bd: Board|
                    #[trigger] Session::edited_cur(*old(self), *final(self), bd@) && same_but_labels(a, bd)
                        && bd.labels@.drop_last() == a.labels@ && bd.labels@.len() == a.labels@.len() + 1
                        && label_view(bd.labels@.last()) == (x, y, name@)
                &&& a.labels@.len() >= MAX_WIRES ==> id == u32::MAX && *final(self) == *old(self)
            }),
    {
        let ci = self.current_board() as usize;
        if self.project.boards[ci].labels.len() >= MAX_WIRES {
            return u32::MAX;
        }
        let ghost s0 = *self;
        let (ci, mut bd, before) = self.start_edit();
        let ghost b0 = bd;
        let id = bd.add_label(x, y, name);
        let ghost nb = bd;
        proof {
            assert(nb.labels@.drop_last() =~= b0.labels@);
        }
        self.finish_cur(ci, bd, before, Ghost(s0));
        proof {
            assert(Session::edited_cur(s0, *self, nb@));
        }
        id
    }

    /// Removes label `id`; returns whether there was one.
    pub fn remove_label(&mut self, id: u32) -> (r: bool)
        requires
            old(self).inv(),
        ensures
            final(self).inv(),
            exists|bd: Board|
                #[trigger] Session::edited_cur(*old(self), *final(self), bd@) && ({
                    let a = old(self).boards()[old(self).cur()];
                    &&& same_but_labels(a, bd)
                    &&& r == (id < a.labels@.len())
                    &&& r ==> bd.labels@ == a.labels@.remove(id as int)
                    &&& !r ==> bd.labels@ == a.labels@
                }),
    {
        let ghost s0 = *self;
        let (ci, mut bd, before) = self.start_edit();
        let r = bd.remove_label(id);
        let ghost nb = bd;
        self.finish_cur(ci, bd, before, Ghost(s0));
        proof {
            assert(Session::edited_cur(s0, *self, nb@));
        }
        r
    }

    /// Renames label `id` (an edit even when there is no such label).
    pub fn set_label_name(&mut self, id: u32, name: &str)
        requires
            old(self).inv(),
        ensures
            final(self).inv(),
            exists|bd: Board|
                #[trigger] Session::edited_cur(*old(self), *final(self), bd@) && labels_with(
                    old(self).boards()[old(self).cur()],
                    bd,
                    id,
                    |v: crate::board::LabelV| (v.0, v.1, name@),
                ),
    {
        let ghost s0 = *self;
        let (ci, mut bd, before) = self.start_edit();
        if (id as usize) < bd.labels.len() {
            bd.labels[id as usize].name = crate::text::copy_str(name);
        }
        let ghost nb = bd;
        self.finish_cur(ci, bd, before, Ghost(s0));
        proof {
            assert(Session::edited_cur(s0, *self, nb@));
        }
    }

    /// Runs `f` on the drawing being edited as one edit (one undo step, one
    /// rebuild of the simulation); returns what `f` returns. Should `f` leave
    /// the drawing beyond the library's limits, the drawing is kept as it was.
    pub fn edit<R, F: FnOnce(&mut Board) -> R>(&mut self, f: F) -> (r: R)
        requires
            old(self).inv(),
            forall|b: &mut Board| f.requires((b,)),
        ensures
            final(self).inv(),
            exists|bd: Board| #[trigger] Session::edited_cur(*old(self), *final(self), bd@) && bd.wf(),
    {
        let ghost s0 = *self;
        let (ci, mut bd, before) = self.start_edit();
        let keep = bd.duplicate();
        let r = f(&mut bd);
        if !board_wf(&bd) {
            bd = keep;
        }
        let ghost nb = bd;
        self.finish_cur(ci, bd, before, Ghost(s0));
        proof {
            assert(Session::edited_cur(s0, *self, nb@));
        }
        r
    }

    /// Several changes as one edit: the simulation is rebuilt once.
    pub fn edit_batch<R, F: FnOnce(&mut Board) -> R>(&mut self, f: F) -> (r: R)
        requires
            old(self).inv(),
            forall|b: &mut Board| f.requires((b,)),
        ensures
            final(self).inv(),
            exists|bd: Board| #[trigger] Session::edited_cur(*old(self), *final(self), bd@) && bd.wf(),
    {
        self.edit(f)
    }
}

impl Session {
    /// `s1` is `s0` after a step back: the newest undo step's drawings are
    /// restored, the drawings before it become the newest redo step, and the
    /// simulation is back at power-on.
    pub open spec fn undone(s0: Session, s1: Session) -> bool {
        &&& s1.boards_v() == s0.history().last()
        &&& s1.history() == s0.history().drop_last()
        &&& s1.future() == s0.future().push(s0.boards_v())
        &&& Session::restored(s0, s1)
    }

    /// `s1` is `s0` after a step forward again.
    pub open spec fn redone(s0: Session, s1: Session) -> bool {
        &&& s1.boards_v() == s0.future().last()
        &&& s1.future() == s0.future().drop_last()
        &&& s1.history() == s0.history().push(s0.boards_v())
        &&& Session::restored(s0, s1)
    }

    /// What undo and redo share: power-on shown by the view, a bumped
    /// revision, the path recomputed for the drawing being edited.
    pub open spec fn restored(s0: Session, s1: Session) -> bool {
        &&& powered_on(s1.sim())
        &&& s1.shown_sim() == s1.sim()
        &&& s1.built_boards() == s1.boards()
        &&& s1.revision_spec() == bumped(s0.revision_spec())
        &&& s1.main_spec() == s0.main_spec()
        &&& s1.name_spec() == s0.name_spec()
        &&& s1.cur() == (if s0.active_spec() < s1.boards_v().len() { s0.active_spec() } else { s0.main_spec() })
        &&& path_fits(s1.boards_v(), s1.main_spec(), s1.cur(), s1.path_spec())
        &&& s1.waves() == s0.waves()
    }

    /// After the drawings were replaced wholesale: the active index falls
    /// back to the main drawing when out of range, the path is recomputed,
    /// the simulation restarts, the revision is bumped.
    fn after_restore(&mut self)
        requires
            boards_ok(old(self).project.boards@),
            old(self).project.main_board < old(self).project.boards@.len(),
        ensures
            powered_on(final(self).engine),
            final(self).view_ok(),
            final(self).built_ok(),
            final(self).built@.0 == final(self).project.boards@,
            final(self).shown@.2 == final(self).engine,
            final(self).project == old(self).project,
            final(self).undo == old(self).undo,
            final(self).redo == old(self).redo,
            final(self).wave == old(self).wave,
            final(self).revision == bumped(old(self).revision),
            final(self).active as int == (if (old(self).active as int) < old(self).project.boards@.len() { old(self).active as int } else { old(self).project.main_board as int }),
            path_fits(views(final(self).project.boards@), final(self).project.main_board as int, final(self).cur(), final(self).path@),
    {
        if self.active as usize >= self.project.boards.len() {
            self.active = self.project.main_board as u32;
        }
        self.recompute_path();
        self.rebuild();
        if self.revision < u64::MAX {
            self.revision = self.revision + 1;
        }
    }

    /// Whether there is a step to undo.
    pub fn can_undo(&self) -> (r: bool)
        ensures
            r == (self.history().len() > 0),
    {
        self.undo.len() > 0
    }

    /// Whether there is a step to redo.
    pub fn can_redo(&self) -> (r: bool)
        ensures
            r == (self.future().len() > 0),
    {
        self.redo.len() > 0
    }

    /// Steps back one edit; false (and no change) when there is none.
    pub fn undo(&mut self) -> (r: bool)
        requires
            old(self).inv(),
        ensures
            final(self).inv(),
            r == (old(self).history().len() > 0),
            r ==> Session::undone(*old(self), *final(self)),
            !r ==> *final(self) == *old(self),
    {
        if self.undo.len() == 0 {
            return false;
        }
        let ghost s0 = *self;
        let ghost u0 = self.undo@;
        let prev = self.undo.pop().unwrap();
        let cur = self.snapshot();
        proof {
            assert(shapes_follow(views(cur.boards@)));
        }
        let ghost r0 = self.redo@;
        self.redo.push(cur);
        self.project.boards = prev.boards;
        self.path = prev.path;
        proof {
            assert(snaps_v(self.undo@) =~= snaps_v(u0).drop_last());
            assert(snaps_v(self.redo@) =~= snaps_v(r0).push(s0.boards_v()));
            assert(snaps_ok(self.undo@));
            assert(snaps_ok(self.redo@));
            assert(boards_ok(self.project.boards@)) by {
                assert(u0[u0.len() - 1] == prev);
            }
        }
        self.after_restore();
        true
    }

    /// Steps forward one undone edit; false (and no change) when there is none.
    pub fn redo(&mut self) -> (r: bool)
        requires
            old(self).inv(),
        ensures
            final(self).inv(),
            r == (old(self).future().len() > 0),
            r ==> Session::redone(*old(self), *final(self)),
            !r ==> *final(self) == *old(self),
    {
        if self.redo.len() == 0 {
            return false;
        }
        let ghost s0 = *self;
        let ghost r0 = self.redo@;
        let next = self.redo.pop().unwrap();
        let cur = self.snapshot();
        let ghost u0 = self.undo@;
        self.undo.push(cur);
        self.project.boards = next.boards;
        self.path = next.path;
        proof {
            assert(snaps_v(self.redo@) =~= snaps_v(r0).drop_last());
            assert(snaps_v(self.undo@) =~= snaps_v(u0).push(s0.boards_v()));
            assert(snaps_ok(self.undo@));
            assert(snaps_ok(self.redo@));
            assert(boards_ok(self.project.boards@)) by {
                assert(r0[r0.len() - 1] == next);
            }
        }
        self.after_restore();
        true
    }
}

/// Undoing an edit restores the drawings as they were before it.
pub proof fn law_undo_reverts_edit(s0: Session, s1: Session, mid: Seq<BoardV>, s2: Session)
    requires
        Session::edited(s0, s1, mid),
        Session::undone(s1, s2),
    ensures
        s2.boards_v() == s0.boards_v(),
        s2.future().last() == s1.boards_v(),
{
}

/// Redoing an undone step restores the drawings the undo left.
pub proof fn law_redo_reverts_undo(s1: Session, s2: Session, s3: Session)
    requires
        s1.history().len() > 0,
        Session::undone(s1, s2),
        Session::redone(s2, s3),
    ensures
        s3.boards_v() == s1.boards_v(),
        s3.history() == s1.history(),
{
    assert(s3.history() =~= s1.history());
}

/// Every edit, undo and redo restarts the simulation at tick 0.
pub proof fn law_edits_reset_simulation(s0: Session, s1: Session, mid: Seq<BoardV>, s2: Session, s3: Session)
    requires
        s1.history().len() > 0,
        Session::edited(s0, s1, mid),
        Session::undone(s1, s2),
        Session::redone(s2, s3),
    ensures
        s1.ticks() == 0,
        s2.ticks() == 0,
        s3.ticks() == 0,
        powered_on(s1.sim()),
        powered_on(s2.sim()),
        powered_on(s3.sim()),
{
}

/// A new edit leaves nothing to redo.
pub proof fn law_edit_clears_redo(s0: Session, s1: Session, mid: Seq<BoardV>)
    requires
        Session::edited(s0, s1, mid),
    ensures
        s1.future().len() == 0,
        s1.history().len() > 0,
{
}

/// Step `i` of a run of edits: `runs[i + 1]` is `runs[i]` edited to `mids[i]`,
/// with room left in the undo history so that no older step is dropped.
pub open spec fn edit_step(runs: Seq<Session>, mids: Seq<BoardV>, i: int) -> bool {
    &&& Session::edited(runs[i], runs[i + 1], mids)
    &&& runs[i].history().len() < history_limit(runs[i].boards_v())
}

/// Step `j` of a run of undos: `backs[j + 1]` is `backs[j]` one step back.
pub open spec fn undo_step(backs: Seq<Session>, j: int) -> bool {
    Session::undone(backs[j], backs[j + 1])
}

/// Undoing, one step each, all the edits of a run that dropped no history
/// gives back the drawings the run started from and the history it had.
pub proof fn law_undo_all_edits(runs: Seq<Session>, mids: Seq<Seq<BoardV>>, backs: Seq<Session>)
    requires
        runs.len() >= 1,
        mids.len() + 1 == runs.len(),
        backs.len() == runs.len(),
        backs[0] == runs.last(),
        forall|i: int| 0 <= i < mids.len() ==> #[trigger] edit_step(runs, mids[i], i),
        forall|j: int| 0 <= j < mids.len() ==> #[trigger] undo_step(backs, j),
    ensures
        backs.last().boards_v() == runs[0].boards_v(),
        backs.last().history() == runs[0].history(),
{
    lemma_undo_prefix(runs, mids, backs, mids.len() as int);
}

/// After `j` undos the run is back where it stood `j` edits before its end.
proof fn lemma_undo_prefix(runs: Seq<Session>, mids: Seq<Seq<BoardV>>, backs: Seq<Session>, j: int)
    requires
        runs.len() >= 1,
        mids.len() + 1 == runs.len(),
        backs.len() == runs.len(),
        backs[0] == runs.last(),
        0 <= j <= mids.len(),
        forall|i: int| 0 <= i < mids.len() ==> #[trigger] edit_step(runs, mids[i], i),
        forall|j: int| 0 <= j < mids.len() ==> #[trigger] undo_step(backs, j),
    ensures
        backs[j].boards_v() == runs[mids.len() - j].boards_v(),
        backs[j].history() == runs[mids.len() - j].history(),
    decreases j,
{
    if j > 0 {
        lemma_undo_prefix(runs, mids, backs, j - 1);
        let k = mids.len() - j;
        assert(edit_step(runs, mids[k], k));
        assert(undo_step(backs, j - 1));
        let h = runs[k].history();
        assert(runs[k + 1].history() =~= h.push(runs[k].boards_v()));
        assert(h.push(runs[k].boards_v()).drop_last() =~= h);
    }
}

/// A consistent session simulates the circuit it holds: its engine is loaded
/// from `build`'s flattening, from the main drawing, of drawings laid out as
/// the session's own (only instance parameters set by input changes may
/// differ; the engine carries those changes itself).
pub proof fn law_simulates_drawings(s: Session)
    requires
        s.inv(),
    ensures
        flattened(s.built_boards(), s.main_spec(), s.flat_spec(), s.built_netlists()),
        s.built_boards().len() == s.boards().len(),
        forall|i: int| 0 <= i < s.boards().len() ==> #[trigger] same_layout(s.built_boards()[i], s.boards()[i]),
        loadable(s.flat_spec()) ==> loaded_from(s.sim(), s.flat_spec()),
        !loadable(s.flat_spec()) ==> s.sim().num_comps() == 0 && s.sim().num_nets() == 0,
{
}

/// In a consistent session every sub-circuit instance carries the interface
/// of the drawing it stands for.
pub proof fn law_shapes_follow(s: Session)
    requires
        s.inv(),
    ensures
        shapes_follow(s.boards_v()),
{
}

/// Binary digits of a natural number, most significant first.
pub open spec fn binary(n: nat) -> Seq<char>
    decreases n,
{
    if n < 2 {
        seq![if n == 1 { '1' } else { '0' }]
    } else {
        binary(n / 2) + seq![if n % 2 == 1 { '1' } else { '0' }]
    }
}

/// Appends the binary digits of `n`.
fn push_binary(s: &mut String, n: u64)
    ensures
        final(s)@ == old(s)@ + binary(n as nat),
    decreases n,
{
    proof {
        reveal_strlit("0");
        reveal_strlit("1");
    }
    if n < 2 {
        if n == 1 {
            s.append("1");
        } else {
            s.append("0");
        }
    } else {
        push_binary(s, n / 2);
        if n % 2 == 1 {
            s.append("1");
        } else {
            s.append("0");
        }
    }
}

/// An instance with other parameters.
pub open spec fn with_params(it: InstanceV, p: Params) -> InstanceV {
    (it.0, p, it.2, it.3, it.4, it.5, it.6, it.7, it.8)
}

impl Session {
    /// Flattened index of instance `inst` of the drawing being edited
    /// (`u32::MAX` when it has none).
    pub closed spec fn global_of(&self, inst: u32) -> u32 {
        let b = self.cur();
        if b >= self.flat.inst_map@.len() || inst >= self.flat.inst_map@[b]@.len() {
            u32::MAX
        } else {
            self.flat.inst_map@[b]@[inst as int]
        }
    }

    /// First flattened pin of flattened instance `gi` (0 when out of range).
    pub closed spec fn pin_base(&self, gi: u32) -> u32 {
        if gi < self.flat.pin_start@.len() {
            self.flat.pin_start@[gi as int]
        } else {
            0
        }
    }

    /// Whether the hierarchy was cut off while flattening.
    pub closed spec fn truncated_spec(&self) -> bool {
        self.flat.truncated
    }

    /// The view of the drawing being edited.
    pub closed spec fn view_spec(&self) -> CircuitView {
        self.view
    }

    /// The project.
    pub fn project(&self) -> (r: &Project)
        ensures
            r.boards@ == self.boards(),
            r.main_board == self.main_spec(),
            r.name@ == self.name_spec(),
    {
        &self.project
    }

    /// Index of the drawing being edited.
    pub fn board_index(&self) -> (r: u32)
        requires
            self.inv(),
        ensures
            r == self.cur(),
    {
        self.current_board()
    }

    /// The drawing being edited.
    pub fn board(&self) -> (r: &Board)
        requires
            self.inv(),
        ensures
            *r == self.boards()[self.cur()],
    {
        &self.project.boards[self.current_board() as usize]
    }

    /// The simulation.
    pub fn engine(&self) -> (r: &Engine)
        ensures
            *r == self.sim(),
    {
        &self.engine
    }

    /// The view of the drawing being edited.
    pub fn view(&self) -> (r: &CircuitView)
        requires
            self.inv(),
        ensures
            *r == self.view_spec(),
            same_layout(self.shown_board(), self.boards()[self.cur()]),
            netlist_ok(self.shown_board(), &self.shown_netlist()),
            shows(*r, self.shown_board(), self.shown_netlist(), self.view_nets(), &self.shown_sim()),
            self.shown_sim().num_nets() == self.sim().num_nets(),
            forall|n: u32| #[trigger] self.shown_sim().width_of(n) == self.sim().width_of(n),
    {
        &self.view
    }

    /// Ticks simulated since the last edit or reset.
    pub fn tick(&self) -> (r: u64)
        ensures
            r == self.ticks(),
    {
        self.engine.tick_count()
    }

    /// The edit counter (bumped on every edit and navigation).
    pub fn revision(&self) -> (r: u64)
        ensures
            r == self.revision_spec(),
    {
        self.revision
    }

    /// How many sub-circuit levels deep the drawing being edited is (0 = main).
    pub fn depth(&self) -> (r: usize)
        ensures
            r == self.path_spec().len(),
    {
        self.path.len()
    }

    /// Whether flattening the hierarchy was cut off (self reference, too
    /// deep, a reference out of range).
    pub fn hierarchy_truncated(&self) -> (r: bool)
        ensures
            r == self.truncated_spec(),
    {
        self.flat.truncated
    }

    /// Value on pin `slot` of instance `inst` of the drawing being edited
    /// (zero when the instance was not flattened). A pin is read rather than
    /// an output, so observers such as probes can be read too.
    pub fn pin_value(&self, inst: u32, slot: usize) -> (r: NetValue)
        requires
            self.inv(),
        ensures
            ({
                let gi = self.global_of(inst);
                let base = self.pin_base(gi);
                r == (if gi == u32::MAX || base + slot > u32::MAX {
                    NetValue { val: 0, unk: 0 }
                } else {
                    self.sim().pin_value_spec(base + slot)
                })
            }),
    {
        let b = self.current_board();
        let gi = self.flat.global_inst(b, inst);
        if gi == u32::MAX {
            return NetValue::zero();
        }
        let base = if (gi as usize) < self.flat.pin_start.len() {
            self.flat.pin_start[gi as usize]
        } else {
            0
        };
        if slot > (u32::MAX - base) as usize {
            return NetValue::zero();
        }
        self.engine.pin_value(base + slot as u32)
    }

    /// Memory contents of instance `inst` of the drawing being edited (RAM,
    /// ROM, display frame buffer); empty when it has none.
    pub fn instance_mem(&self, inst: u32) -> (r: &[u32])
        requires
            self.inv(),
        ensures
            self.global_of(inst) == u32::MAX ==> r@.len() == 0,
            self.global_of(inst) != u32::MAX ==> r@ == (if self.sim().comp_index(self.global_of(inst) as int) == crate::engine::NO_COMP {
                Seq::<u32>::empty()
            } else {
                self.sim().state_of(self.sim().comp_index(self.global_of(inst) as int) as int).3
            }),
    {
        let gi = self.flat.global_inst(self.current_board(), inst);
        if gi == u32::MAX {
            return &[];
        }
        self.engine.instance_mem(gi)
    }

    /// Value of net `net` (zero for `NO_NET` or a net out of range).
    pub fn net_value(&self, net: u32) -> (r: NetValue)
        requires
            self.inv(),
        ensures
            r == self.sim().net_spec(net),
    {
        if net == NO_NET {
            proof {
                self.engine.lemma_nets_fit();
                self.engine.lemma_net_outside(net);
            }
            NetValue::zero()
        } else {
            self.engine.net_value(net)
        }
    }

    /// Takes one sample of every watched net, unless nothing is watched or
    /// the first trace is full.
    fn record_wave(&mut self)
        requires
            old(self).engine.wf(),
        ensures
            final(self).project == old(self).project,
            final(self).engine == old(self).engine,
            final(self).flat == old(self).flat,
            final(self).view == old(self).view,
            final(self).shown == old(self).shown,
            final(self).built == old(self).built,
            final(self).active == old(self).active,
            final(self).path == old(self).path,
            final(self).revision == old(self).revision,
            final(self).undo == old(self).undo,
            final(self).redo == old(self).redo,
            final(self).wave@.len() == old(self).wave@.len(),
            Session::recorded(*old(self), *final(self)),
    {
        if self.wave.len() == 0 || self.wave[0].samples.len() >= WAVE_LIMIT {
            proof {
                assert(self.waves() =~= old(self).waves());
            }
            return;
        }
        let n = self.wave.len();
        let mut i: usize = 0;
        while i < n
            invariant
                n == self.wave@.len(),
                n == old(self).wave@.len(),
                i <= n,
                old(self).wave@[0].samples@.len() < WAVE_LIMIT,
                self.project == old(self).project,
                self.engine == old(self).engine,
                self.flat == old(self).flat,
                self.view == old(self).view,
                self.shown == old(self).shown,
                self.built == old(self).built,
                self.active == old(self).active,
                self.path == old(self).path,
                self.revision == old(self).revision,
                self.undo == old(self).undo,
                self.redo == old(self).redo,
                self.engine.wf(),
                forall|j: int| 0 <= j < n ==> (#[trigger] self.wave@[j]).net == old(self).wave@[j].net && self.wave@[j].name@
                    == old(self).wave@[j].name@ && self.wave@[j].width == old(self).wave@[j].width,
                forall|j: int| 0 <= j < i ==> (#[trigger] self.wave@[j]).samples@ == old(self).wave@[j].samples@.push(
                    self.engine.net_spec(old(self).wave@[j].net).val as u64,
                ),
                forall|j: int| i <= j < n ==> (#[trigger] self.wave@[j]).samples@ == old(self).wave@[j].samples@,
            decreases n - i,
        {
            let v = self.engine.net_value(self.wave[i].net).val as u64;
            let mut t = WaveTrace { net: 0, name: String::new(), width: 1, samples: Vec::new() };
            std::mem::swap(&mut t, &mut self.wave[i]);
            t.samples.push(v);
            std::mem::swap(&mut t, &mut self.wave[i]);
            i = i + 1;
        }
        proof {
            assert forall|j: int| 0 <= j < n implies #[trigger] self.waves()[j] == Session::sampled(old(self).waves()[j], self.engine) by {
            }
            assert(self.waves() =~= Seq::new(n as nat, |j: int| Session::sampled(old(self).waves()[j], self.engine)));
        }
    }

    /// A trace with one more sample: the net's value now.
    pub open spec fn sampled(t: (u32, Seq<char>, Width, Seq<u64>), e: Engine) -> (u32, Seq<char>, Width, Seq<u64>) {
        (t.0, t.1, t.2, t.3.push(e.net_spec(t.0).val as u64))
    }

    /// `s1` took one sample per watched net after `s0` (none when nothing is
    /// watched or the first trace holds `WAVE_LIMIT` samples).
    pub open spec fn recorded(s0: Session, s1: Session) -> bool {
        if s0.waves().len() == 0 || s0.waves()[0].3.len() >= WAVE_LIMIT {
            s1.waves() == s0.waves()
        } else {
            s1.waves() == Seq::new(s0.waves().len(), |j: int| Session::sampled(s0.waves()[j], s1.sim()))
        }
    }

    /// One tick of simulation, then one wave sample.
    pub fn sim_tick(&mut self)
        requires
            old(self).inv(),
        ensures
            final(self).inv(),
            final(self).ticks() == (if old(self).ticks() < u64::MAX { old(self).ticks() + 1 } else { u64::MAX as int }),
            final(self).sim().same_circuit(&old(self).sim()),
            Session::recorded(*old(self), *final(self)),
            Session::same_drawings(*old(self), *final(self)),
            final(self).view_spec() == old(self).view_spec(),
            final(self).shown_sim() == old(self).shown_sim(),
            Engine::tick_result(old(self).sim(), final(self).sim()),
    {
        self.engine.tick();
        proof {
            Engine::lemma_same_circuit(&self.engine, &old(self).engine);
            if loadable(self.flat) {
                Engine::lemma_loaded_kept(&self.engine, &old(self).engine, self.flat);
            }
        }
        self.record_wave();
    }

    /// Everything but the simulation, the waves and the view is unchanged.
    pub open spec fn same_drawings(s0: Session, s1: Session) -> bool {
        &&& s1.boards_v() == s0.boards_v()
        &&& s1.boards() == s0.boards()
        &&& s1.history() == s0.history()
        &&& s1.future() == s0.future()
        &&& s1.cur() == s0.cur()
        &&& s1.main_spec() == s0.main_spec()
        &&& s1.path_spec() == s0.path_spec()
        &&& s1.revision_spec() == s0.revision_spec()
    }

    /// How many samples `n` ticks add to each trace: one per tick until the
    /// first trace holds `WAVE_LIMIT` samples, none when nothing is watched.
    pub open spec fn samples_added(s0: Session, n: int) -> int {
        if s0.waves().len() == 0 || s0.waves()[0].3.len() >= WAVE_LIMIT {
            0
        } else {
            let room = WAVE_LIMIT - s0.waves()[0].3.len();
            if n < room { n } else { room }
        }
    }

    /// The traces of `s1` are those of `s0` with `k` more samples each.
    pub open spec fn traces_grew(s0: Session, s1: Session, k: int) -> bool {
        &&& s1.waves().len() == s0.waves().len()
        &&& forall|j: int|
            0 <= j < s0.waves().len() ==> {
                let t0 = s0.waves()[j];
                let t1 = #[trigger] s1.waves()[j];
                &&& t1.0 == t0.0
                &&& t1.1 == t0.1
                &&& t1.2 == t0.2
                &&& t1.3.len() == t0.3.len() + k
                &&& t1.3.subrange(0, t0.3.len() as int) == t0.3
            }
    }

    /// Step `i` of a run of the simulation is one tick.
    pub open spec fn tick_at(es: Seq<Engine>, i: int) -> bool {
        Engine::tick_result(es[i], es[i + 1])
    }

    /// Every step of the run `es` is one tick.
    pub open spec fn tick_run(es: Seq<Engine>) -> bool {
        forall|i: int| 0 <= i < es.len() - 1 ==> #[trigger] Session::tick_at(es, i)
    }

    /// The first `k` new samples of every trace of `s1` (after those of
    /// `s0`) are the values of its net in the engines after each tick of `es`.
    pub open spec fn samples_follow(s0: Session, s1: Session, es: Seq<Engine>, k: int) -> bool {
        forall|j: int, i: int|
            0 <= j < s0.waves().len() && 0 <= i < k ==> #[trigger] s1.waves()[j].3[s0.waves()[j].3.len() + i] == es[i
                + 1].net_spec(s0.waves()[j].0).val as u64
    }

    /// `n` ticks, each followed by a wave sample (while recording runs).
    pub fn sim_run_for(&mut self, n: u64)
        requires
            old(self).inv(),
        ensures
            final(self).inv(),
            final(self).ticks() == (if old(self).ticks() + n <= u64::MAX { old(self).ticks() + n } else { u64::MAX as int }),
            Session::same_drawings(*old(self), *final(self)),
            final(self).waves().len() == old(self).waves().len(),
            Session::traces_grew(*old(self), *final(self), Session::samples_added(*old(self), n as int)),
            exists|es: Seq<Engine>|
                es.len() == n + 1 && es[0] == old(self).sim() && es.last() == final(self).sim() && #[trigger] Session::tick_run(es)
                    && Session::samples_follow(*old(self), *final(self), es, Session::samples_added(*old(self), n as int)),
    {
        let mut i: u64 = 0;
        let ghost mut es: Seq<Engine> = seq![self.sim()];
        proof {
            assert forall|j: int| 0 <= j < self.waves().len() implies #[trigger] self.waves()[j].3.subrange(0, self.waves()[j].3.len() as int)
                == self.waves()[j].3 by {
                assert(self.waves()[j].3.subrange(0, self.waves()[j].3.len() as int) =~= self.waves()[j].3);
            }
        }
        while i < n
            invariant
                i <= n,
                self.inv(),
                self.ticks() == (if old(self).ticks() + i <= u64::MAX { old(self).ticks() + i } else { u64::MAX as int }),
                Session::same_drawings(*old(self), *self),
                self.waves().len() == old(self).waves().len(),
                Session::traces_grew(*old(self), *self, Session::samples_added(*old(self), i as int)),
                es.len() == i + 1,
                es[0] == old(self).sim(),
                es.last() == self.sim(),
                Session::tick_run(es),
                Session::samples_follow(*old(self), *self, es, Session::samples_added(*old(self), i as int)),
            decreases n - i,
        {
            let ghost s1 = *self;
            let ghost es0 = es;
            self.sim_tick();
            proof {
                es = es.push(self.sim());
                assert forall|q: int| 0 <= q < es.len() - 1 implies #[trigger] Session::tick_at(es, q) by {
                    if q < es0.len() - 1 {
                        assert(Session::tick_at(es0, q));
                    }
                }
                let k = Session::samples_added(*old(self), i as int);
                let w0 = old(self).waves();
                if w0.len() > 0 && s1.waves()[0].3.len() < WAVE_LIMIT {
                    assert(Session::samples_added(*old(self), i as int + 1) == k + 1);
                    assert forall|j: int| 0 <= j < w0.len() implies {
                        let t0 = w0[j];
                        let t1 = #[trigger] self.waves()[j];
                        &&& t1.0 == t0.0
                        &&& t1.1 == t0.1
                        &&& t1.2 == t0.2
                        &&& t1.3.len() == t0.3.len() + k + 1
                        &&& t1.3.subrange(0, t0.3.len() as int) == t0.3
                    } by {
                        assert(self.waves()[j] == Session::sampled(s1.waves()[j], self.sim()));
                        assert(self.waves()[j].3.subrange(0, w0[j].3.len() as int) =~= s1.waves()[j].3.subrange(0, w0[j].3.len() as int));
                    }
                    assert forall|j: int, q: int| 0 <= j < w0.len() && 0 <= q < k + 1 implies #[trigger] self.waves()[j].3[w0[j].3.len()
                        + q] == es[q + 1].net_spec(w0[j].0).val as u64 by {
                        assert(self.waves()[j] == Session::sampled(s1.waves()[j], self.sim()));
                        assert(s1.waves()[j].3.len() == w0[j].3.len() + k);
                        if q < k {
                            assert(s1.waves()[j].3[w0[j].3.len() + q] == es0[q + 1].net_spec(w0[j].0).val as u64);
                            assert(es[q + 1] == es0[q + 1]);
                        } else {
                            assert(k == i);
                            assert(es[q + 1] == self.sim());
                        }
                    }
                } else {
                    assert(Session::samples_added(*old(self), i as int + 1) == k);
                    assert(self.waves() == s1.waves());
                    assert forall|j: int, q: int| 0 <= j < w0.len() && 0 <= q < k implies #[trigger] self.waves()[j].3[w0[j].3.len() + q]
                        == es[q + 1].net_spec(w0[j].0).val as u64 by {
                        assert(s1.waves()[j].3[w0[j].3.len() + q] == es0[q + 1].net_spec(w0[j].0).val as u64);
                        assert(k <= i);
                        assert(es[q + 1] == es0[q + 1]);
                    }
                }
            }
            i = i + 1;
        }
    }

    /// Sets the value of input instance `id` on the drawing and in the
    /// simulation. A run-time interaction, not an edit: nothing is recorded
    /// and the simulation is not reset.
    pub fn set_input(&mut self, id: u32, value: u32)
        requires
            old(self).inv(),
        ensures
            final(self).inv(),
            final(self).ticks() == old(self).ticks(),
            final(self).history() == old(self).history(),
            final(self).future() == old(self).future(),
            final(self).cur() == old(self).cur(),
            final(self).main_spec() == old(self).main_spec(),
            final(self).path_spec() == old(self).path_spec(),
            final(self).revision_spec() == old(self).revision_spec(),
            final(self).waves() == old(self).waves(),
            forall|n: u32| #[trigger] final(self).sim().net_spec(n) == old(self).sim().net_spec(n),
            id >= old(self).boards()[old(self).cur()].instances@.len() ==> *final(self) == *old(self),
            id < old(self).boards()[old(self).cur()].instances@.len() ==> final(self).shown_sim() == final(self).sim(),
            id < old(self).boards()[old(self).cur()].instances@.len() ==> final(self).boards_v() == old(self).boards_v().update(
                old(self).cur(),
                with_inst(
                    old(self).boards_v()[old(self).cur()],
                    id as int,
                    with_params(
                        old(self).boards_v()[old(self).cur()].2[id as int],
                        Params { value, ..old(self).boards()[old(self).cur()].instances@[id as int].params },
                    ),
                ),
            ),
    {
        let ci = self.current_board() as usize;
        if id as usize >= self.project.boards[ci].instances.len() {
            return;
        }
        let ghost v0 = views(self.project.boards@);
        let mut bd = self.take_board(ci);
        let ghost b0 = bd;
        bd.instances[id as usize].params.value = value;
        let ghost nb = bd;
        proof {
            assert forall|j: int| 0 <= j < bd.instances@.len() implies (#[trigger] bd.instances@[j]).wf() by {
                assert(b0.instances@[j].wf());
            }
            assert(nb@.2 =~= b0@.2.update(id as int, with_params(b0@.2[id as int], Params { value, ..b0.instances@[id as int].params })));
        }
        self.put_board(ci, bd);
        proof {
            lemma_views_update(old(self).project.boards@, ci as int, nb);
            assert(self.project.boards@ =~= old(self).project.boards@.update(ci as int, nb));
            let v1 = views(self.project.boards@);
            assert(v1 == v0.update(ci as int, nb@));
            assert(boards_ok(self.project.boards@)) by {
                assert forall|j: int| 0 <= j < self.project.boards@.len() implies (#[trigger] self.project.boards@[j]).wf() by {
                    if j != ci {
                        assert(self.project.boards@[j] == old(self).project.boards@[j]);
                    }
                }
            }
            assert forall|x: int| 0 <= x < v0.len() implies #[trigger] same_iface(v0[x], v1[x]) by {
                if x == ci {
                    assert forall|k: int| 0 <= k < v0[x].2.len() implies {
                        &&& (#[trigger] v0[x].2[k]).0 == v1[x].2[k].0
                        &&& v0[x].2[k].5 == v1[x].2[k].5
                        &&& v0[x].2[k].1.width == v1[x].2[k].1.width
                    } by {
                    }
                }
            }
            assert forall|x: int, i: int| 0 <= x < v0.len() && 0 <= i < v0[x].2.len() implies (#[trigger] v1[x].2[i]).8 == v0[x].2[i].8
                && v1[x].2[i].6 == v0[x].2[i].6 by {
            }
            lemma_shapes_stable(v0, v1);
        }
        proof {
            let bs = self.built@.0;
            assert forall|k: int| 0 <= k < bs.len() implies #[trigger] same_layout(bs[k], self.project.boards@[k]) by {
                assert(same_layout(bs[k], old(self).project.boards@[k]));
                if k != ci as int {
                    assert(self.project.boards@[k] == old(self).project.boards@[k]);
                } else {
                    assert(self.project.boards@[k] == nb);
                    assert forall|q: int| 0 <= q < nb.instances@.len() implies (#[trigger] nb.instances@[q]).pins@ == b0.instances@[q].pins@
                        && nb.instances@[q].def == b0.instances@[q].def && nb.instances@[q].x == b0.instances@[q].x
                        && nb.instances@[q].y == b0.instances@[q].y && nb.instances@[q].rot == b0.instances@[q].rot
                        && nb.instances@[q].display_name@ == b0.instances@[q].display_name@ && nb.instances@[q].sub == b0.instances@[q].sub by {
                    }
                }
            }
        }
        let gi = self.flat.global_inst(ci as u32, id);
        if gi != u32::MAX {
            let ghost e0 = self.engine;
            self.engine.set_input(gi, value);
            proof {
                if loadable(self.flat) {
                    Engine::lemma_loaded_kept(&self.engine, &e0, self.flat);
                }
            }
        }
        let ghost v0 = self.view;
        refresh_values(&mut self.view, &self.engine);
        proof {
            let b = self.shown@.0;
            let nl = self.shown@.1;
            let e0 = self.shown@.2;
            let m = self.view_nets();
            assert(m == old(self).view_nets());
            assert forall|i: int, k: int|
                0 <= i < b.instances@.len() && 0 <= k < b.instances@[i].pins@.len() implies #[trigger] pin_shows(
                self.view.pins@[nl.pin_start@[i] + k],
                b,
                nl,
                m,
                &self.engine,
                i,
                k,
            ) by {
                assert(pin_shows(v0.pins@[nl.pin_start@[i] + k], b, nl, m, &e0, i, k));
            }
            assert forall|wi: int| 0 <= wi < b.wires@.len() implies #[trigger] wire_shows(self.view.wires@[wi], b, nl, m, &self.engine, wi) by {
                assert(wire_shows(v0.wires@[wi], b, nl, m, &e0, wi));
            }
        }
        self.shown = Ghost((self.shown@.0, self.shown@.1, self.engine));
    }

    /// Flips input instance `id` between 0 and 1 (see `set_input`).
    pub fn toggle_input(&mut self, id: u32)
        requires
            old(self).inv(),
        ensures
            final(self).inv(),
            final(self).ticks() == old(self).ticks(),
            final(self).history() == old(self).history(),
            final(self).future() == old(self).future(),
            final(self).waves() == old(self).waves(),
            final(self).revision_spec() == old(self).revision_spec(),
            final(self).cur() == old(self).cur(),
            final(self).main_spec() == old(self).main_spec(),
            final(self).path_spec() == old(self).path_spec(),
            id >= old(self).boards()[old(self).cur()].instances@.len() ==> *final(self) == *old(self),
            id < old(self).boards()[old(self).cur()].instances@.len() ==> ({
                let p = old(self).boards()[old(self).cur()].instances@[id as int].params;
                final(self).boards_v() == old(self).boards_v().update(
                    old(self).cur(),
                    with_inst(
                        old(self).boards_v()[old(self).cur()],
                        id as int,
                        with_params(old(self).boards_v()[old(self).cur()].2[id as int], Params { value: if p.value != 0 { 0 } else { 1 }, ..p }),
                    ),
                )
            }),
    {
        let ci = self.current_board() as usize;
        if id as usize >= self.project.boards[ci].instances.len() {
            return;
        }
        let p = self.project.boards[ci].instances[id as usize].params;
        let next: u32 = if p.value != 0 { 0 } else { 1 };
        self.set_input(id, next);
    }

    /// Restarts the simulation from power-on (what an edit does, on request).
    pub fn reset_sim(&mut self)
        requires
            old(self).inv(),
        ensures
            final(self).inv(),
            powered_on(final(self).sim()),
            Session::same_drawings(*old(self), *final(self)),
            final(self).waves() == old(self).waves(),
    {
        self.rebuild();
    }
}

/// A watched net's trace as values: net, name, width, samples.
pub type TraceV = (u32, Seq<char>, Width, Seq<u64>);

/// The declaration line of trace `i`.
pub open spec fn var_line(t: TraceV, i: int) -> Seq<char> {
    "$var wire "@ + decimal(t.2 as nat) + " v"@ + decimal(i as nat) + " "@ + t.1 + " $end\n"@
}

/// Declaration lines of the first `k` traces.
pub open spec fn var_lines(ws: Seq<TraceV>, k: int) -> Seq<char>
    decreases k,
{
    if k <= 0 {
        Seq::empty()
    } else {
        var_lines(ws, k - 1) + var_line(ws[k - 1], k - 1)
    }
}

/// Sample `tick` of a trace (0 where the trace is shorter).
pub open spec fn sample_at(t: TraceV, tick: int) -> u64 {
    if 0 <= tick < t.3.len() {
        t.3[tick]
    } else {
        0
    }
}

/// The value line of trace `i` at `tick`: one digit for a 1-bit net,
/// binary digits otherwise.
pub open spec fn value_line(t: TraceV, i: int, tick: int) -> Seq<char> {
    let v = sample_at(t, tick);
    if t.2 == 1 {
        (if v != 0 { "1"@ } else { "0"@ }) + "v"@ + decimal(i as nat) + "\n"@
    } else {
        "b"@ + binary(v as nat) + " v"@ + decimal(i as nat) + "\n"@
    }
}

/// Value lines of the first `k` traces at `tick`.
pub open spec fn value_lines(ws: Seq<TraceV>, tick: int, k: int) -> Seq<char>
    decreases k,
{
    if k <= 0 {
        Seq::empty()
    } else {
        value_lines(ws, tick, k - 1) + value_line(ws[k - 1], k - 1, tick)
    }
}

/// The blocks of the first `m` ticks: a time stamp, then every value.
pub open spec fn tick_blocks(ws: Seq<TraceV>, m: int) -> Seq<char>
    decreases m,
{
    if m <= 0 {
        Seq::empty()
    } else {
        tick_blocks(ws, m - 1) + "#"@ + decimal((m - 1) as nat) + "\n"@ + value_lines(ws, m - 1, ws.len() as int)
    }
}

/// The VCD text of the traces: header, declarations, then one block per
/// sample of the first trace.
pub open spec fn vcd_text(ws: Seq<TraceV>) -> Seq<char> {
    let n = if ws.len() == 0 { 0 } else { ws[0].3.len() as int };
    "$timescale 1ns $end\n$scope module logiclab $end\n"@ + var_lines(ws, ws.len() as int) + "$upscope $end\n$enddefinitions $end\n"@
        + tick_blocks(ws, n)
}

/// The name a watched net gets: the one given, or `net<n>` when blank.
pub open spec fn trace_name(net: u32, name: Seq<char>) -> Seq<char> {
    if is_blank(name) {
        "net"@ + decimal(net as nat)
    } else {
        name
    }
}

impl Session {
    /// Watches net `net` under `name`: false for `NO_NET`, a net out of range
    /// or when `WAVE_WATCH_LIMIT` nets are watched already; true (and no
    /// change) when it is watched already. A new trace starts with one zero
    /// for each tick already run.
    pub fn wave_watch(&mut self, net: u32, name: &str) -> (r: bool)
        requires
            old(self).inv(),
        ensures
            final(self).inv(),
            Session::same_drawings(*old(self), *final(self)),
            final(self).sim() == old(self).sim(),
            ({
                let ws = old(self).waves();
                let known = exists|j: int| 0 <= j < ws.len() && #[trigger] ws[j].0 == net;
                let ok = net != NO_NET && net < old(self).sim().num_nets();
                let done = old(self).ticks();
                &&& r == (ok && (known || ws.len() < WAVE_WATCH_LIMIT))
                &&& (ok && !known && ws.len() < WAVE_WATCH_LIMIT) ==> final(self).waves() == ws.push(
                    (net, trace_name(net, name@), old(self).sim().width_of(net), Seq::new(done as nat, |k: int| 0u64)),
                )
                &&& !(ok && !known && ws.len() < WAVE_WATCH_LIMIT) ==> final(self).waves() == ws
            }),
    {
        if net == NO_NET || net as usize >= self.engine.net_count() {
            return false;
        }
        if self.watched(net) {
            return true;
        }
        if self.wave.len() >= WAVE_WATCH_LIMIT {
            return false;
        }
        let width = self.engine.net_width(net);
        let tname = if crate::text::blank(name) {
            crate::text::indexed_name("net", net as u64)
        } else {
            crate::text::copy_str(name)
        };
        let t = self.engine.tick_count();
        let done: u64 = t;
        let mut samples: Vec<u64> = Vec::new();
        let mut k: u64 = 0;
        while k < done
            invariant
                k <= done,
                samples@ == Seq::new(k as nat, |q: int| 0u64),
            decreases done - k,
        {
            samples.push(0);
            k = k + 1;
            proof {
                assert(samples@ =~= Seq::new(k as nat, |q: int| 0u64));
            }
        }
        let ghost ws0 = self.waves();
        self.wave.push(WaveTrace { net, name: tname, width, samples });
        proof {
            reveal_strlit("net");
            assert(self.waves() =~= ws0.push((net, trace_name(net, name@), old(self).sim().width_of(net), Seq::new(done as nat, |q: int| 0u64))));
        }
        true
    }

    /// Whether net `net` is watched.
    fn watched(&self, net: u32) -> (r: bool)
        ensures
            r == exists|j: int| 0 <= j < self.waves().len() && #[trigger] self.waves()[j].0 == net,
    {
        let n = self.wave.len();
        let mut j: usize = 0;
        while j < n
            invariant
                n == self.wave@.len(),
                j <= n,
                forall|q: int| 0 <= q < j ==> (#[trigger] self.wave@[q]).net != net,
            decreases n - j,
        {
            if self.wave[j].net == net {
                proof {
                    assert(self.waves()[j as int].0 == net);
                }
                return true;
            }
            j = j + 1;
        }
        proof {
            assert forall|q: int| 0 <= q < self.waves().len() implies #[trigger] self.waves()[q].0 != net by {
                assert(self.wave@[q].net != net);
            }
        }
        false
    }

    /// Stops watching net `net`.
    pub fn wave_unwatch(&mut self, net: u32)
        requires
            old(self).inv(),
        ensures
            final(self).inv(),
            Session::same_drawings(*old(self), *final(self)),
            final(self).sim() == old(self).sim(),
            final(self).waves() == old(self).waves().filter(|t: TraceV| t.0 != net),
    {
        let mut old_wave: Vec<WaveTrace> = Vec::new();
        std::mem::swap(&mut old_wave, &mut self.wave);
        let ghost ws = old(self).waves();
        let mut kept: Vec<WaveTrace> = Vec::new();
        let n = old_wave.len();
        let mut i: usize = 0;
        while i < n
            invariant
                n == ws.len(),
                i <= n,
                old_wave@.len() == n - i,
                forall|q: int| 0 <= q < n - i ==> (#[trigger] old_wave@[q]).net == ws[i + q].0 && old_wave@[q].name@ == ws[i + q].1
                    && old_wave@[q].width == ws[i + q].2 && old_wave@[q].samples@ == ws[i + q].3,
                Seq::new(kept@.len(), |q: int| (kept@[q].net, kept@[q].name@, kept@[q].width, kept@[q].samples@))
                    == ws.subrange(0, i as int).filter(|t: TraceV| t.0 != net),
                kept@.len() <= i,
            decreases n - i,
        {
            let ghost k0 = kept@;
            let ghost o0 = old_wave@;
            let t = old_wave.remove(0);
            proof {
                assert(ws.subrange(0, i + 1).drop_last() =~= ws.subrange(0, i as int));
                reveal(Seq::filter);
                assert(ws.subrange(0, i + 1).last() == ws[i as int]);
                assert forall|q: int| 0 <= q < n - i - 1 implies (#[trigger] old_wave@[q]).net == ws[i + 1 + q].0 && old_wave@[q].name@
                    == ws[i + 1 + q].1 && old_wave@[q].width == ws[i + 1 + q].2 && old_wave@[q].samples@ == ws[i + 1 + q].3 by {
                    assert(old_wave@[q] == o0[q + 1]);
                }
            }
            if t.net != net {
                kept.push(t);
                proof {
                    assert(Seq::new(kept@.len(), |q: int| (kept@[q].net, kept@[q].name@, kept@[q].width, kept@[q].samples@))
                        =~= Seq::new(k0.len(), |q: int| (k0[q].net, k0[q].name@, k0[q].width, k0[q].samples@)).push(ws[i as int]));
                }
            } else {
                proof {
                    assert(Seq::new(kept@.len(), |q: int| (kept@[q].net, kept@[q].name@, kept@[q].width, kept@[q].samples@))
                        =~= Seq::new(k0.len(), |q: int| (k0[q].net, k0[q].name@, k0[q].width, k0[q].samples@)));
                }
            }
            i = i + 1;
        }
        proof {
            assert(ws.subrange(0, n as int) =~= ws);
        }
        self.wave = kept;
    }

    /// Stops watching every net.
    pub fn wave_clear(&mut self)
        requires
            old(self).inv(),
        ensures
            final(self).inv(),
            Session::same_drawings(*old(self), *final(self)),
            final(self).sim() == old(self).sim(),
            final(self).waves().len() == 0,
    {
        self.wave = Vec::new();
    }

    /// How many nets are watched.
    pub fn wave_len(&self) -> (r: usize)
        ensures
            r == self.waves().len(),
    {
        self.wave.len()
    }

    /// Trace `i`, if there is one.
    pub fn wave_trace(&self, i: usize) -> (r: Option<&WaveTrace>)
        ensures
            i < self.waves().len() ==> r is Some && (r->0.net, r->0.name@, r->0.width, r->0.samples@) == self.waves()[i as int],
            i >= self.waves().len() ==> r is None,
    {
        if i < self.wave.len() {
            Some(&self.wave[i])
        } else {
            None
        }
    }

    /// Whether the first trace holds `WAVE_LIMIT` samples (recording stopped).
    pub fn wave_saturated(&self) -> (r: bool)
        ensures
            r == (self.waves().len() > 0 && self.waves()[0].3.len() >= WAVE_LIMIT),
    {
        self.wave.len() > 0 && self.wave[0].samples.len() >= WAVE_LIMIT
    }

    /// The traces as VCD text (for GTKWave and the like).
    pub fn wave_vcd(&self) -> (r: String)
        ensures
            r@ == vcd_text(self.waves()),
    {
        let ghost ws = self.waves();
        proof {
            reveal_strlit("$timescale 1ns $end\n$scope module logiclab $end\n");
            reveal_strlit("$var wire ");
            reveal_strlit(" v");
            reveal_strlit(" ");
            reveal_strlit(" $end\n");
            reveal_strlit("$upscope $end\n$enddefinitions $end\n");
            reveal_strlit("#");
            reveal_strlit("\n");
            reveal_strlit("1");
            reveal_strlit("0");
            reveal_strlit("v");
            reveal_strlit("b");
        }
        let mut s = crate::text::copy_str("$timescale 1ns $end\n$scope module logiclab $end\n");
        let nw = self.wave.len();
        let mut i: usize = 0;
        while i < nw
            invariant
                nw == ws.len(),
                ws == self.waves(),
                i <= nw,
                s@ == "$timescale 1ns $end\n$scope module logiclab $end\n"@ + var_lines(ws, i as int),
            decreases nw - i,
        {
            let t = &self.wave[i];
            s.append("$var wire ");
            push_decimal(&mut s, t.width as u64);
            s.append(" v");
            push_decimal(&mut s, i as u64);
            s.append(" ");
            s.append(t.name.as_str());
            s.append(" $end\n");
            proof {
                assert(ws[i as int] == (t.net, t.name@, t.width, t.samples@));
                assert(s@ =~= "$timescale 1ns $end\n$scope module logiclab $end\n"@ + var_lines(ws, i + 1));
            }
            i = i + 1;
        }
        s.append("$upscope $end\n$enddefinitions $end\n");
        let n = if self.wave.len() == 0 { 0 } else { self.wave[0].samples.len() };
        let ghost head = s@;
        let mut tick: usize = 0;
        while tick < n
            invariant
                nw == ws.len(),
                ws == self.waves(),
                n == (if ws.len() == 0 { 0 } else { ws[0].3.len() as int }),
                tick <= n,
                s@ == head + tick_blocks(ws, tick as int),
            decreases n - tick,
        {
            let ghost before_tick = s@;
            s.append("#");
            push_decimal(&mut s, tick as u64);
            s.append("\n");
            let ghost mid = s@;
            let mut i: usize = 0;
            while i < nw
                invariant
                    nw == ws.len(),
                    ws == self.waves(),
                    i <= nw,
                    s@ == mid + value_lines(ws, tick as int, i as int),
                decreases nw - i,
            {
                let t = &self.wave[i];
                let v: u64 = if tick < t.samples.len() { t.samples[tick] } else { 0 };
                proof {
                    assert(ws[i as int] == (t.net, t.name@, t.width, t.samples@));
                    assert(v == sample_at(ws[i as int], tick as int));
                }
                if t.width == 1 {
                    if v != 0 {
                        s.append("1");
                    } else {
                        s.append("0");
                    }
                    s.append("v");
                } else {
                    s.append("b");
                    push_binary(&mut s, v);
                    s.append(" v");
                }
                push_decimal(&mut s, i as u64);
                s.append("\n");
                proof {
                    assert(s@ =~= mid + value_lines(ws, tick as int, i + 1));
                }
                i = i + 1;
            }
            proof {
                assert(s@ =~= head + tick_blocks(ws, tick + 1));
            }
            tick = tick + 1;
        }
        s
    }
}

/// The drawings met following an instance path from drawing `from`, the
/// first included; it stops before the first step that is not a sub-circuit
/// instance of a drawing.
pub open spec fn trail(bvs: Seq<BoardV>, from: int, path: Seq<u32>) -> Seq<u32>
    decreases path.len(),
{
    if path.len() == 0 {
        seq![from as u32]
    } else {
        let t = trail(bvs, from, path.drop_last());
        let b = t.last() as int;
        let k = path.last() as int;
        if t.len() == path.len() && 0 <= b < bvs.len() && 0 <= k < bvs[b].2.len() && sub_ref(bvs, bvs[b].2[k]) {
            t.push(bvs[b].2[k].8)
        } else {
            t
        }
    }
}

proof fn lemma_trail_len(bvs: Seq<BoardV>, from: int, path: Seq<u32>)
    ensures
        1 <= trail(bvs, from, path).len() <= path.len() + 1,
    decreases path.len(),
{
    if path.len() > 0 {
        lemma_trail_len(bvs, from, path.drop_last());
    }
}

/// Once a step fails the trail stops growing.
proof fn lemma_trail_stuck(bvs: Seq<BoardV>, from: int, path: Seq<u32>, i: int, j: int)
    requires
        0 <= i < j <= path.len(),
        trail(bvs, from, path.subrange(0, i)).len() == i + 1,
        trail(bvs, from, path.subrange(0, i + 1)) == trail(bvs, from, path.subrange(0, i)),
    ensures
        trail(bvs, from, path.subrange(0, j)) == trail(bvs, from, path.subrange(0, i)),
    decreases j - i,
{
    if j > i + 1 {
        lemma_trail_stuck(bvs, from, path, i, j - 1);
        assert(path.subrange(0, j).drop_last() =~= path.subrange(0, j - 1));
    }
}

/// A drawing's display name: in English (`lang` != 0) its English name if
/// it has one, else the English form of a default name, else its name.
pub open spec fn label_of(bv: BoardV, lang: u32) -> Seq<char> {
    if lang == 0 {
        bv.0
    } else if bv.1.len() > 0 {
        bv.1
    } else if bv.0 == "主图纸"@ {
        "Main"@
    } else if bv.0 == "子电路"@ {
        "Sub-circuit"@
    } else if bv.0.len() >= 2 && bv.0[0] == '图' && bv.0[1] == '纸' {
        "Sheet "@ + bv.0.subrange(2, bv.0.len() as int)
    } else {
        bv.0
    }
}

/// Whether an instance stands for drawing `idx`.
pub open spec fn refers_to(idx: u32) -> spec_fn(InstanceV) -> bool {
    |it: InstanceV| it.8 == idx
}

/// How many instances over all drawings stand for drawing `idx`.
pub open spec fn refs_upto(bvs: Seq<BoardV>, idx: u32, upto: int) -> nat
    decreases upto,
{
    if upto <= 0 {
        0
    } else {
        refs_upto(bvs, idx, upto - 1) + bvs[upto - 1].2.filter(refers_to(idx)).len()
    }
}

/// Parts joined with `/`.
pub open spec fn joined(parts: Seq<Seq<char>>) -> Seq<char>
    decreases parts.len(),
{
    if parts.len() == 0 {
        Seq::empty()
    } else if parts.len() == 1 {
        parts[0]
    } else {
        joined(parts.drop_last()) + "/"@ + parts.last()
    }
}

impl Session {
    /// The drawings from the main one along the path (see `trail`).
    fn path_boards(&self) -> (r: Vec<u32>)
        requires
            self.inv(),
        ensures
            r@ == trail(self.boards_v(), self.main_spec(), self.path_spec()),
            forall|k: int| 0 <= k < r@.len() ==> (#[trigger] r@[k]) < self.boards_v().len(),
    {
        let ghost bvs = self.boards_v();
        let ghost path = self.path@;
        let n = self.project.boards.len();
        let mut b = self.project.main_board as u32;
        let mut v: Vec<u32> = Vec::new();
        v.push(b);
        proof {
            assert(path.subrange(0, 0) =~= Seq::<u32>::empty());
            assert(v@ =~= seq![b]);
        }
        let m = self.path.len();
        let mut i: usize = 0;
        while i < m
            invariant
                m == path.len(),
                n == bvs.len(),
                bvs == self.boards_v(),
                path == self.path@,
                boards_ok(self.project.boards@),
                i <= m,
                b < n,
                v@ == trail(bvs, self.main_spec(), path.subrange(0, i as int)),
                v@.len() == i + 1,
                v@.last() == b,
                forall|k: int| 0 <= k < v@.len() ==> (#[trigger] v@[k]) < n,
            decreases m - i,
        {
            let k = self.path[i];
            proof {
                assert(path.subrange(0, i + 1).drop_last() =~= path.subrange(0, i as int));
                assert(bvs[b as int] == self.project.boards@[b as int]@);
            }
            if k as usize >= self.project.boards[b as usize].instances.len() {
                proof {
                    lemma_trail_stuck(bvs, self.main_spec(), path, i as int, m as int);
                    assert(path.subrange(0, m as int) =~= path);
                }
                return v;
            }
            let sub = self.project.boards[b as usize].instances[k as usize].sub;
            proof {
                assert(bvs[b as int].2[k as int] == self.project.boards@[b as int].instances@[k as int]@);
            }
            if sub == NO_SUB || sub as usize >= n {
                proof {
                    lemma_trail_stuck(bvs, self.main_spec(), path, i as int, m as int);
                    assert(path.subrange(0, m as int) =~= path);
                }
                return v;
            }
            b = sub;
            v.push(b);
            i = i + 1;
        }
        proof {
            assert(path.subrange(0, m as int) =~= path);
        }
        v
    }

    /// Display name of drawing `idx` (empty when there is none).
    pub fn board_label(&self, idx: u32, lang: u32) -> (r: String)
        requires
            self.inv(),
        ensures
            idx >= self.boards_v().len() ==> r@.len() == 0,
            idx < self.boards_v().len() ==> r@ == label_of(self.boards_v()[idx as int], lang),
    {
        proof {
            reveal_strlit("主图纸");
            reveal_strlit("子电路");
            reveal_strlit("Main");
            reveal_strlit("Sub-circuit");
            reveal_strlit("Sheet ");
        }
        if idx as usize >= self.project.boards.len() {
            return String::new();
        }
        let b = &self.project.boards[idx as usize];
        proof {
            assert(self.boards_v()[idx as int] == b@);
        }
        if lang == 0 {
            return crate::text::copy_str(b.name.as_str());
        }
        if b.name_en.as_str().unicode_len() > 0 {
            return crate::text::copy_str(b.name_en.as_str());
        }
        let name = b.name.as_str();
        if crate::text::str_eq(name, "主图纸") {
            return crate::text::copy_str("Main");
        }
        if crate::text::str_eq(name, "子电路") {
            return crate::text::copy_str("Sub-circuit");
        }
        let n = name.unicode_len();
        if n >= 2 && name.get_char(0) == '图' && name.get_char(1) == '纸' {
            let mut out = crate::text::copy_str("Sheet ");
            out.append(name.substring_char(2, n));
            return out;
        }
        crate::text::copy_str(name)
    }

    /// Display names of the drawings from the main one to the one being edited.
    pub fn breadcrumb(&self, lang: u32) -> (r: Vec<String>)
        requires
            self.inv(),
        ensures
            r@.len() == trail(self.boards_v(), self.main_spec(), self.path_spec()).len(),
            forall|k: int| 0 <= k < r@.len() ==> (#[trigger] r@[k])@ == label_of(
                self.boards_v()[trail(self.boards_v(), self.main_spec(), self.path_spec())[k] as int],
                lang,
            ),
    {
        let bs = self.path_boards();
        let mut out: Vec<String> = Vec::new();
        let mut i: usize = 0;
        while i < bs.len()
            invariant
                self.inv(),
                bs@ == trail(self.boards_v(), self.main_spec(), self.path_spec()),
                forall|k: int| 0 <= k < bs@.len() ==> (#[trigger] bs@[k]) < self.boards_v().len(),
                i <= bs@.len(),
                out@.len() == i,
                forall|k: int| 0 <= k < i ==> (#[trigger] out@[k])@ == label_of(self.boards_v()[bs@[k] as int], lang),
            decreases bs@.len() - i,
        {
            out.push(self.board_label(bs[i], lang));
            i = i + 1;
        }
        out
    }

    /// Display names of all drawings.
    pub fn board_names(&self, lang: u32) -> (r: Vec<String>)
        requires
            self.inv(),
        ensures
            r@.len() == self.boards_v().len(),
            forall|k: int| 0 <= k < r@.len() ==> (#[trigger] r@[k])@ == label_of(self.boards_v()[k], lang),
    {
        let n = self.project.boards.len();
        let mut out: Vec<String> = Vec::new();
        let mut i: usize = 0;
        while i < n
            invariant
                self.inv(),
                n == self.boards_v().len(),
                i <= n,
                out@.len() == i,
                forall|k: int| 0 <= k < i ==> (#[trigger] out@[k])@ == label_of(self.boards_v()[k], lang),
            decreases n - i,
        {
            out.push(self.board_label(i as u32, lang));
            i = i + 1;
        }
        out
    }

    /// How many instances over all drawings stand for drawing `idx`.
    pub fn board_refs(&self, idx: u32) -> (r: usize)
        requires
            self.inv(),
        ensures
            r == refs_upto(self.boards_v(), idx, self.boards_v().len() as int),
    {
        let ghost bvs = self.boards_v();
        let n = self.project.boards.len();
        let mut total: usize = 0;
        let mut b: usize = 0;
        while b < n
            invariant
                n == bvs.len(),
                bvs == self.boards_v(),
                boards_ok(self.project.boards@),
                b <= n,
                total == refs_upto(bvs, idx, b as int),
                total <= b * MAX_INSTANCES,
            decreases n - b,
        {
            let insts = &self.project.boards[b].instances;
            let ghost iv = bvs[b as int].2;
            proof {
                assert(iv == self.project.boards@[b as int]@.2);
            }
            let m = insts.len();
            let mut c: usize = 0;
            let mut i: usize = 0;
            while i < m
                invariant
                    m == insts@.len(),
                    m == iv.len(),
                    m <= MAX_INSTANCES,
                    iv == insts@.map_values(|it: Instance| crate::board::instance_view(it)),
                    i <= m,
                    c == iv.subrange(0, i as int).filter(refers_to(idx)).len(),
                    c <= i,
                decreases m - i,
            {
                proof {
                    reveal(Seq::filter);
                    assert(iv.subrange(0, i + 1).drop_last() =~= iv.subrange(0, i as int));
                    assert(iv[i as int].8 == insts@[i as int].sub);
                }
                if insts[i].sub == idx {
                    c = c + 1;
                }
                i = i + 1;
            }
            proof {
                assert(iv.subrange(0, m as int) =~= iv);
                assert(refs_upto(bvs, idx, b + 1) == refs_upto(bvs, idx, b as int) + bvs[b as int].2.filter(refers_to(idx)).len());
                assert(total + c <= (b + 1) * MAX_INSTANCES) by (nonlinear_arith)
                    requires
                        total <= b * MAX_INSTANCES,
                        c <= MAX_INSTANCES,
                ;
                assert((b + 1) * MAX_INSTANCES <= MAX_BOARDS * MAX_INSTANCES) by (nonlinear_arith)
                    requires
                        b + 1 <= MAX_BOARDS,
                ;
            }
            total = total + c;
            b = b + 1;
        }
        total
    }

    /// Debug path of a pin: the drawing names from the main one, the
    /// instance's name (`?` when there is no such instance) and the pin name,
    /// joined with `/`.
    pub fn hierarchy_path(&self, inst: u32, pin: &str) -> (r: String)
        requires
            self.inv(),
        ensures
            ({
                let t = trail(self.boards_v(), self.main_spec(), self.path_spec());
                let crumbs = Seq::new(t.len(), |k: int| label_of(self.boards_v()[t[k] as int], 0));
                let b = self.boards_v()[self.cur()];
                let iname = if inst < b.2.len() { b.2[inst as int].5 } else { "?"@ };
                r@ == joined(crumbs.push(iname).push(pin@))
            }),
    {
        proof {
            reveal_strlit("?");
            reveal_strlit("/");
        }
        let parts = self.breadcrumb(0);
        let ghost t = trail(self.boards_v(), self.main_spec(), self.path_spec());
        let ghost crumbs = Seq::new(t.len(), |k: int| label_of(self.boards_v()[t[k] as int], 0));
        proof {
            lemma_trail_len(self.boards_v(), self.main_spec(), self.path_spec());
        }
        proof {
            assert forall|k: int| 0 <= k < parts@.len() implies (#[trigger] parts@[k])@ == crumbs[k] by {
            }
            assert(crumbs.subrange(0, 1) =~= seq![crumbs[0]]);
        }
        let mut s = crate::text::copy_str(parts[0].as_str());
        let mut i: usize = 1;
        while i < parts.len()
            invariant
                crumbs.len() == t.len(),
                parts@.len() == t.len(),
                parts@.len() >= 1,
                forall|k: int| 0 <= k < parts@.len() ==> (#[trigger] parts@[k])@ == crumbs[k],
                1 <= i <= parts@.len(),
                s@ == joined(crumbs.subrange(0, i as int)),
            decreases parts@.len() - i,
        {
            s.append("/");
            s.append(parts[i].as_str());
            proof {
                assert(crumbs.subrange(0, i + 1).drop_last() =~= crumbs.subrange(0, i as int));
            }
            i = i + 1;
        }
        let b = self.board();
        let iname: &str = match b.instance_name(inst) {
            Some(n) => n,
            None => "?",
        };
        let ghost s1 = s@;
        s.append("/");
        s.append(iname);
        s.append("/");
        s.append(pin);
        proof {
            assert(crumbs.subrange(0, crumbs.len() as int) =~= crumbs);
            assert(s1 == joined(crumbs));
            let bv = self.boards_v()[self.cur()];
            assert(bv == b@);
            let nm = if inst < bv.2.len() { bv.2[inst as int].5 } else { "?"@ };
            if inst < bv.2.len() {
                assert(bv.2[inst as int] == b.instances@[inst as int]@);
            }
            assert(iname@ == nm);
            let full = crumbs.push(nm);
            assert(full.drop_last() =~= crumbs);
            assert(full.len() >= 2);
            assert(joined(full) == joined(crumbs) + "/"@ + nm);
            assert(full.push(pin@).drop_last() =~= full);
            assert(joined(full.push(pin@)) == joined(full) + "/"@ + pin@);
            assert(s@ =~= joined(full.push(pin@)));
        }
        s
    }

    /// Enters the sub-circuit of instance `inst` of the drawing being edited
    /// (a navigation, not an edit); false when it is not a sub-circuit
    /// instance of a drawing.
    pub fn enter_sub(&mut self, inst: u32) -> (r: bool)
        requires
            old(self).inv(),
        ensures
            final(self).inv(),
            ({
                let b = old(self).boards_v()[old(self).cur()];
                &&& r == (inst < b.2.len() && sub_ref(old(self).boards_v(), b.2[inst as int]))
                &&& r ==> final(self).cur() == b.2[inst as int].8 && final(self).path_spec() == old(self).path_spec().push(inst)
                    && final(self).revision_spec() == bumped(old(self).revision_spec())
                &&& !r ==> *final(self) == *old(self)
            }),
            Session::kept_all(*old(self), *final(self)),
    {
        let ci = self.current_board() as usize;
        if inst as usize >= self.project.boards[ci].instances.len() {
            return false;
        }
        let sub = self.project.boards[ci].instances[inst as usize].sub;
        proof {
            assert(self.boards_v()[ci as int].2[inst as int] == self.project.boards@[ci as int].instances@[inst as int]@);
        }
        if sub == NO_SUB || sub as usize >= self.project.boards.len() {
            return false;
        }
        self.active = sub;
        self.path.push(inst);
        self.refresh_view();
        if self.revision < u64::MAX {
            self.revision = self.revision + 1;
        }
        true
    }

    /// Drawings, history, simulation and waves are unchanged (navigation).
    pub open spec fn kept_all(s0: Session, s1: Session) -> bool {
        &&& s1.boards() == s0.boards()
        &&& s1.boards_v() == s0.boards_v()
        &&& s1.history() == s0.history()
        &&& s1.future() == s0.future()
        &&& s1.sim() == s0.sim()
        &&& s1.main_spec() == s0.main_spec()
        &&& s1.waves() == s0.waves()
    }

    /// Goes back up to level `depth` (0 = the main drawing); false when the
    /// path is not that deep.
    pub fn goto_depth(&mut self, depth: usize) -> (r: bool)
        requires
            old(self).inv(),
        ensures
            final(self).inv(),
            r == (depth <= old(self).path_spec().len()),
            r ==> final(self).path_spec() == old(self).path_spec().subrange(0, depth as int)
                && final(self).cur() == trail(final(self).boards_v(), final(self).main_spec(), final(self).path_spec()).last()
                && final(self).revision_spec() == bumped(old(self).revision_spec()),
            !r ==> *final(self) == *old(self),
            Session::kept_all(*old(self), *final(self)),
    {
        if depth > self.path.len() {
            return false;
        }
        self.path.truncate(depth);
        let bs = self.path_boards();
        proof {
            lemma_trail_len(self.boards_v(), self.main_spec(), self.path_spec());
        }
        self.active = bs[bs.len() - 1];
        self.refresh_view();
        if self.revision < u64::MAX {
            self.revision = self.revision + 1;
        }
        true
    }

    /// Opens drawing `idx` directly (a drawing not yet used as a sub-circuit
    /// can only be reached this way); false when there is no such drawing.
    pub fn open_board(&mut self, idx: u32) -> (r: bool)
        requires
            old(self).inv(),
        ensures
            final(self).inv(),
            r == (idx < old(self).boards_v().len()),
            r ==> final(self).cur() == idx && path_fits(final(self).boards_v(), final(self).main_spec(), idx as int, final(self).path_spec())
                && final(self).revision_spec() == bumped(old(self).revision_spec()),
            !r ==> *final(self) == *old(self),
            Session::kept_all(*old(self), *final(self)),
    {
        if idx as usize >= self.project.boards.len() {
            return false;
        }
        self.active = idx;
        self.recompute_path();
        self.refresh_view();
        if self.revision < u64::MAX {
            self.revision = self.revision + 1;
        }
        true
    }
}

/// The name a new drawing gets: the one given, or a numbered sub-circuit name
/// when blank.
pub open spec fn new_board_name(name: Seq<char>, n: int) -> Seq<char> {
    if is_blank(name) {
        "子电路"@ + decimal(n as nat)
    } else {
        name
    }
}

/// An empty drawing named `name`.
pub open spec fn named_blank(name: Seq<char>) -> BoardV {
    (name, Seq::empty(), Seq::empty(), Seq::empty(), Seq::empty(), Seq::empty())
}

/// `b` is `a` with a sub-circuit instance of drawing `sub` named `name`
/// appended at (`x`, `y`) (its pins follow once the edit is finished).
pub open spec fn sub_placed(a: Board, b: Board, sub: u32, name: Seq<char>, x: i32, y: i32) -> bool {
    let n = a.instances@.len();
    &&& same_rest(a, b)
    &&& b.instances@.len() == n + 1
    &&& forall|i: int| 0 <= i < n ==> #[trigger] b.instances@[i] == a.instances@[i]
    &&& ({
        let it = b.instances@[n as int];
        &&& it.def == DefId::Custom
        &&& it.x == x
        &&& it.y == y
        &&& it.rot == 0
        &&& it.sub == sub
        &&& it.display_name@ == name
        &&& it.mem_init@.len() == 0
    })
}

impl Session {
    /// Adds an empty drawing named `name` (a numbered default when blank);
    /// returns its index. A project holding `MAX_BOARDS - 1` drawings is
    /// refused: `u32::MAX` and no change.
    pub fn add_board(&mut self, name: &str) -> (r: u32)
        requires
            old(self).inv(),
        ensures
            final(self).inv(),
            old(self).boards_v().len() + 1 < MAX_BOARDS ==> r == old(self).boards_v().len() && Session::edited(
                *old(self),
                *final(self),
                old(self).boards_v().push(named_blank(new_board_name(name@, old(self).boards_v().len() as int))),
            ),
            old(self).boards_v().len() + 1 >= MAX_BOARDS ==> r == u32::MAX && *final(self) == *old(self),
    {
        let n = self.project.boards.len();
        if n + 1 >= MAX_BOARDS {
            return u32::MAX;
        }
        let nm = if crate::text::blank(name) {
            crate::text::indexed_name("子电路", n as u64)
        } else {
            crate::text::copy_str(name)
        };
        let mut b = Board::new();
        b.name = nm;
        let ghost s0 = *self;
        let before = self.snapshot();
        let ghost nb = b;
        self.project.boards.push(b);
        proof {
            reveal_strlit("子电路");
            assert(nb@.2 =~= Seq::<InstanceV>::empty());
            assert(nb@.3 =~= Seq::<Seq<Point>>::empty());
            assert(nb@.4 =~= Seq::<crate::board::AnnotationV>::empty());
            assert(nb@.5 =~= Seq::<crate::board::LabelV>::empty());
            assert(views(self.project.boards@) =~= s0.boards_v().push(named_blank(new_board_name(name@, n as int))));
            assert(boards_ok(self.project.boards@)) by {
                assert forall|j: int| 0 <= j < self.project.boards@.len() implies (#[trigger] self.project.boards@[j]).wf() by {
                    if j < n {
                        assert(self.project.boards@[j] == s0.project.boards@[j]);
                    }
                }
            }
            assert(views(before.boards@).len() == before.boards@.len());
        }
        self.commit(before, Ghost(s0));
        n as u32
    }

    /// Renames drawing `idx`; false (and no change) when there is no such
    /// drawing or the name is blank.
    pub fn set_board_name(&mut self, idx: u32, name: &str) -> (r: bool)
        requires
            old(self).inv(),
        ensures
            final(self).inv(),
            r == (idx < old(self).boards_v().len() && !is_blank(name@)),
            r ==> Session::edited(
                *old(self),
                *final(self),
                old(self).boards_v().update(idx as int, ({
                    let b = old(self).boards_v()[idx as int];
                    (name@, b.1, b.2, b.3, b.4, b.5)
                })),
            ),
            !r ==> *final(self) == *old(self),
    {
        if idx as usize >= self.project.boards.len() || crate::text::blank(name) {
            return false;
        }
        let ghost s0 = *self;
        let before = self.snapshot();
        let mut bd = self.take_board(idx as usize);
        bd.name = crate::text::copy_str(name);
        let ghost nb = bd;
        self.put_board(idx as usize, bd);
        proof {
            lemma_views_update(s0.project.boards@, idx as int, nb);
            assert(self.project.boards@ =~= s0.project.boards@.update(idx as int, nb));
            assert(nb@ == ({
                let b = s0.boards_v()[idx as int];
                (name@, b.1, b.2, b.3, b.4, b.5)
            }));
            assert(boards_ok(self.project.boards@)) by {
                assert forall|j: int| 0 <= j < self.project.boards@.len() implies (#[trigger] self.project.boards@[j]).wf() by {
                    if j != idx {
                        assert(self.project.boards@[j] == s0.project.boards@[j]);
                    } else {
                        assert(s0.project.boards@[j].wf());
                    }
                }
            }
            assert(views(before.boards@).len() == before.boards@.len());
        }
        self.commit(before, Ghost(s0));
        true
    }

    /// Places an instance of drawing `sub` at (`x`, `y`) on the drawing being
    /// edited, named after that drawing; returns its index. `None` (and no
    /// change) for a drawing that does not exist or is the one being edited
    /// (a drawing cannot contain itself), or where `add_component` would
    /// refuse the place.
    pub fn add_sub_instance(&mut self, sub: u32, x: i32, y: i32) -> (r: Option<u32>)
        requires
            old(self).inv(),
        ensures
            final(self).inv(),
            ({
                let a = old(self).boards()[old(self).cur()];
                let ok = sub < old(self).boards_v().len() && sub != old(self).cur() && room_at(a, x, y);
                &&& r is Some == ok
                &&& ok ==> r == Some(a.instances@.len() as u32) && exists|bd: Board|
                    #[trigger] Session::edited_cur(*old(self), *final(self), bd@) && sub_placed(a, bd, sub, old(self).boards_v()[sub as int].0, x, y)
                &&& !ok ==> *final(self) == *old(self)
            }),
    {
        let ci = self.current_board() as usize;
        if sub as usize >= self.project.boards.len() || sub as usize == ci {
            return None;
        }
        if !(x >= -crate::board::COORD_LIMIT && x <= crate::board::COORD_LIMIT && y >= -crate::board::COORD_LIMIT && y
            <= crate::board::COORD_LIMIT && self.project.boards[ci].instances.len() < MAX_INSTANCES) {
            return None;
        }
        let name = crate::text::copy_str(self.project.boards[sub as usize].name.as_str());
        proof {
            assert(self.boards_v()[sub as int] == self.project.boards@[sub as int]@);
        }
        let ghost s0 = *self;
        let (ci, mut bd, before) = self.start_edit();
        let id = bd.add_sub_instance(sub, name.as_str(), x, y);
        let ghost nb = bd;
        self.finish_cur(ci, bd, before, Ghost(s0));
        proof {
            assert(Session::edited_cur(s0, *self, nb@));
        }
        Some(id)
    }

    /// Replaces the drawings with built-in example `id` (one main drawing,
    /// opened); false (and no change) for an unknown id.
    pub fn load_example(&mut self, id: &str) -> (r: bool)
        requires
            old(self).inv(),
        ensures
            final(self).inv(),
            r == crate::examples::example_parts(id@) is Some,
            r ==> exists|bd: Board|
                #[trigger] Session::edited_main(*old(self), *final(self), seq![bd@], 0) && Some(crate::examples::parts(bd))
                    == crate::examples::example_parts(id@),
            r ==> final(self).cur() == 0,
            !r ==> *final(self) == *old(self),
    {
        let b = match crate::examples::build(id) {
            Some(b) => b,
            None => {
                return false;
            },
        };
        let ghost s_old = *self;
        self.path = Vec::new();
        self.project.main_board = 0;
        self.active = 0;
        let ghost s0 = *self;
        let before = self.snapshot();
        let ghost nb = b;
        let mut bs: Vec<Board> = Vec::new();
        bs.push(b);
        self.project.boards = bs;
        proof {
            assert(views(self.project.boards@) =~= seq![nb@]);
            assert(snaps_fit(self.undo@, 0)) by {
                assert forall|i: int| 0 <= i < self.undo@.len() implies 0 < (#[trigger] self.undo@[i]).boards@.len() by {
                    assert(boards_ok(self.undo@[i].boards@));
                }
            }
            assert(views(before.boards@).len() == before.boards@.len());
            assert(boards_ok(before.boards@));
        }
        self.commit(before, Ghost(s0));
        proof {
            assert(Session::edited_main(s0, *self, seq![nb@], 0));
            assert(s0.history() == s_old.history());
            assert(s0.boards_v() == s_old.boards_v());
            assert(Session::edited_main(s_old, *self, seq![nb@], 0));
        }
        true
    }

    /// Design-rule checks of every drawing, each issue with its drawing.
    pub fn drc_all(&self) -> (r: Vec<(u32, crate::drc::Issue)>)
        requires
            self.inv(),
        ensures
            exists|nls: Seq<crate::netlist::Netlist>|
                crate::elaborate::nls_ok(self.boards(), nls) && #[trigger] crate::drc::pivs(r@) == crate::drc::project_issues(
                    self.boards(),
                    nls,
                    self.boards().len() as int,
                ),
    {
        let r = crate::drc::check_project(&self.project.boards);
        proof {
            let nls = choose|nls: Seq<crate::netlist::Netlist>|
                crate::elaborate::nls_ok(self.project.boards@, nls) && #[trigger] crate::drc::pivs(r@) == crate::drc::project_issues(
                    self.project.boards@,
                    nls,
                    self.project.boards@.len() as int,
                );
            assert(crate::elaborate::nls_ok(self.boards(), nls) && crate::drc::pivs(r@) == crate::drc::project_issues(
                self.boards(),
                nls,
                self.boards().len() as int,
            ));
        }
        r
    }
}

/// A pin's place: where it is and which (instance, slot) it is.
pub type PinAt = (Point, (u32, usize));

/// Selected instance indices: strictly increasing, in range, at least one.
pub open spec fn sel_ok(sel: Seq<u32>, n: int) -> bool {
    &&& sel.len() > 0
    &&& forall|k: int| 0 <= k < sel.len() ==> (#[trigger] sel[k]) < n
    &&& forall|k: int, l: int| 0 <= k < l < sel.len() ==> #[trigger] sel[k] < #[trigger] sel[l]
}

/// The pin (instance, slot) found last at `q`, as a map keyed by points
/// would keep it.
fn find_pin(entries: &Vec<PinAt>, q: Point) -> (r: Option<(u32, usize)>)
    ensures
        r is None ==> forall|k: int| 0 <= k < entries@.len() ==> (#[trigger] entries@[k]).0 != q,
        r is Some ==> exists|k: int| 0 <= k < entries@.len() && (#[trigger] entries@[k]).0 == q && entries@[k].1 == r->0,
{
    let mut k = entries.len();
    while k > 0
        invariant
            k <= entries@.len(),
            forall|j: int| k <= j < entries@.len() ==> (#[trigger] entries@[j]).0 != q,
        decreases k,
    {
        k = k - 1;
        let e = entries[k];
        if e.0.x == q.x && e.0.y == q.y {
            proof {
                assert(entries@[k as int].0 == q);
            }
            return Some(e.1);
        }
    }
    None
}

/// Where `x` stands in `v`, if it does.
fn pos_of(v: &Vec<u32>, x: u32) -> (r: Option<usize>)
    ensures
        r is Some ==> r->0 < v@.len() && v@[r->0 as int] == x,
        r is None ==> !v@.contains(x),
{
    let mut k: usize = 0;
    while k < v.len()
        invariant
            k <= v@.len(),
            forall|j: int| 0 <= j < k ==> v@[j] != x,
        decreases v@.len() - k,
    {
        if v[k] == x {
            return Some(k);
        }
        k = k + 1;
    }
    None
}

/// The scan for `key` stops at an entry of that key or of a greater one.
pub open spec fn stops_at(key: (u32, usize), c: (u32, usize)) -> bool {
    c == key || key.0 < c.0 || (key.0 == c.0 && key.1 < c.1)
}

/// Where the scan for `key` from entry `k` on stops (the length when nowhere).
pub open spec fn stop_pos(cross: Seq<((u32, usize), Vec<(u32, usize)>)>, key: (u32, usize), k: int) -> int
    decreases cross.len() - k,
{
    if k >= cross.len() || stops_at(key, cross[k].0) {
        k
    } else {
        stop_pos(cross, key, k + 1)
    }
}

/// Appends `o` to the list of key `key`, keeping the keys in order: the
/// first entry of that key gets `o` at the end of its list; when a greater
/// key comes first (or no entry stops the scan) a new entry with the list
/// `[o]` goes in there.
fn cross_add(cross: &mut Vec<((u32, usize), Vec<(u32, usize)>)>, key: (u32, usize), o: (u32, usize))
    ensures
        final(cross)@.len() <= old(cross)@.len() + 1,
        ({
            let c0 = old(cross)@;
            let c1 = final(cross)@;
            let p = stop_pos(c0, key, 0);
            &&& 0 <= p <= c0.len()
            &&& p < c0.len() && c0[p].0 == key ==> {
                &&& c1.len() == c0.len()
                &&& c1[p].0 == key
                &&& c1[p].1@ == c0[p].1@.push(o)
                &&& forall|j: int| 0 <= j < c0.len() && j != p ==> #[trigger] c1[j] == c0[j]
            }
            &&& !(p < c0.len() && c0[p].0 == key) ==> {
                &&& c1.len() == c0.len() + 1
                &&& c1[p].0 == key
                &&& c1[p].1@ == seq![o]
                &&& forall|j: int| 0 <= j < p ==> #[trigger] c1[j] == c0[j]
                &&& forall|j: int| p < j < c1.len() ==> #[trigger] c1[j] == c0[j - 1]
            }
        }),
{
    let n = cross.len();
    let mut k: usize = 0;
    while k < n
        invariant
            n == cross@.len(),
            cross@ == old(cross)@,
            k <= n,
            stop_pos(old(cross)@, key, 0) == stop_pos(old(cross)@, key, k as int),
        decreases n - k,
    {
        let c = cross[k].0;
        if c.0 == key.0 && c.1 == key.1 {
            let mut entry: ((u32, usize), Vec<(u32, usize)>) = ((0, 0), Vec::new());
            std::mem::swap(&mut entry, &mut cross[k]);
            entry.1.push(o);
            std::mem::swap(&mut entry, &mut cross[k]);
            return;
        }
        if key.0 < c.0 || (key.0 == c.0 && key.1 < c.1) {
            let mut v: Vec<(u32, usize)> = Vec::new();
            v.push(o);
            cross.insert(k, (key, v));
            return;
        }
        k = k + 1;
    }
    let mut v: Vec<(u32, usize)> = Vec::new();
    v.push(o);
    cross.push((key, v));
}

/// Whether some selected instance has pins.
pub open spec fn sel_has_pins(a: Board, sel: Seq<u32>) -> bool {
    exists|k: int| 0 <= k < sel.len() && (#[trigger] a.instances@[sel[k] as int]).pins@.len() > 0
}

/// Every pin of drawing `a`, and those of the selected instances.
fn collect_pins(a: &Board, sel: &Vec<u32>) -> (r: (Vec<PinAt>, Vec<PinAt>))
    requires
        a.wf(),
        sel_ok(sel@, a.instances@.len() as int),
    ensures
        r.1@.len() > 0 <==> sel_has_pins(*a, sel@),
{
    let mut all_pin: Vec<PinAt> = Vec::new();
    let mut sel_pin: Vec<PinAt> = Vec::new();
    let total = a.instances.len();
    let mut ii: usize = 0;
    while ii < total
        invariant
            total == a.instances@.len(),
            a.wf(),
            ii <= total,
            sel_pin@.len() > 0 <==> exists|k: int| 0 <= k < sel@.len() && sel@[k] < ii && (#[trigger] a.instances@[sel@[k] as int]).pins@.len() > 0,
        decreases total - ii,
    {
        let it = &a.instances[ii];
        proof {
            assert(it.wf());
        }
        let pts = it.pin_points();
        let is_sel = pos_of(sel, ii as u32).is_some();
        let ghost had = sel_pin@.len() > 0;
        let np = pts.len();
        let mut slot: usize = 0;
        while slot < np
            invariant
                np == pts@.len(),
                slot <= np,
                sel_pin@.len() > 0 <==> (had || (is_sel && slot > 0)),
            decreases np - slot,
        {
            all_pin.push((pts[slot], (ii as u32, slot)));
            if is_sel {
                sel_pin.push((pts[slot], (ii as u32, slot)));
            }
            slot = slot + 1;
        }
        proof {
            assert(np == it.pins@.len()) by {
                assert(pts@ == crate::board::inst_pin_points(*it));
            }
            if is_sel {
                let k = choose|k: int| 0 <= k < sel@.len() && sel@[k] == ii as u32;
                if np > 0 {
                    assert(a.instances@[sel@[k] as int].pins@.len() > 0);
                }
            } else {
                assert forall|k: int| 0 <= k < sel@.len() && sel@[k] < ii + 1 implies sel@[k] < ii by {
                    if sel@[k] == ii as u32 {
                        assert(sel@.contains(ii as u32));
                    }
                }
            }
            if is_sel && np == 0 {
                assert forall|k: int| 0 <= k < sel@.len() && sel@[k] == ii implies (#[trigger] a.instances@[sel@[k] as int]).pins@.len() == 0 by {
                }
            }
        }
        ii = ii + 1;
    }
    proof {
        if sel_has_pins(*a, sel@) {
            let k = choose|k: int| 0 <= k < sel@.len() && (#[trigger] a.instances@[sel@[k] as int]).pins@.len() > 0;
            assert(sel@[k] < total);
        }
    }
    (all_pin, sel_pin)
}

/// Sorts the wires of drawing `a`: those between two selected pins become
/// inner connections, those between a selected and an unselected pin become
/// crossings (selected pin -> the pins outside); both kinds are dropped.
fn classify_wires(a: &Board, all_pin: &Vec<PinAt>, sel_pin: &Vec<PinAt>) -> (r: (
    Vec<((u32, usize), (u32, usize))>,
    Vec<((u32, usize), Vec<(u32, usize)>)>,
    Vec<bool>,
))
    ensures
        r.2@.len() == a.wires@.len(),
{
    let mut inner: Vec<((u32, usize), (u32, usize))> = Vec::new();
    let mut cross: Vec<((u32, usize), Vec<(u32, usize)>)> = Vec::new();
    let mut dropped: Vec<bool> = Vec::new();
    let nw = a.wires.len();
    let mut wi: usize = 0;
    while wi < nw
        invariant
            nw == a.wires@.len(),
            wi <= nw,
            dropped@.len() == wi,
        decreases nw - wi,
    {
        let w = &a.wires[wi];
        let np = w.points.len();
        if np == 0 {
            dropped.push(false);
        } else {
            let pa = w.points[0];
            let pb = w.points[np - 1];
            let sa = find_pin(sel_pin, pa);
            let sb = find_pin(sel_pin, pb);
            match (sa, sb) {
                (Some(x), Some(y)) => {
                    if x.0 != y.0 || x.1 != y.1 {
                        inner.push((x, y));
                    }
                    dropped.push(true);
                },
                (Some(x), None) => {
                    match find_pin(all_pin, pb) {
                        Some(o) => {
                            cross_add(&mut cross, x, o);
                            dropped.push(true);
                        },
                        None => {
                            dropped.push(false);
                        },
                    }
                },
                (None, Some(y)) => {
                    match find_pin(all_pin, pa) {
                        Some(o) => {
                            cross_add(&mut cross, y, o);
                            dropped.push(true);
                        },
                        None => {
                            dropped.push(false);
                        },
                    }
                },
                (None, None) => {
                    dropped.push(false);
                },
            }
        }
        wi = wi + 1;
    }
    (inner, cross, dropped)
}

/// Smallest x among the first `k` selected instances.
pub open spec fn sel_min_x(insts: Seq<Instance>, sel: Seq<u32>, k: int) -> int
    decreases k,
{
    if k <= 0 {
        i32::MAX as int
    } else {
        let m = sel_min_x(insts, sel, k - 1);
        let x = insts[sel[k - 1] as int].x as int;
        if x < m {
            x
        } else {
            m
        }
    }
}

/// Smallest y among the first `k` selected instances.
pub open spec fn sel_min_y(insts: Seq<Instance>, sel: Seq<u32>, k: int) -> int
    decreases k,
{
    if k <= 0 {
        i32::MAX as int
    } else {
        let m = sel_min_y(insts, sel, k - 1);
        let y = insts[sel[k - 1] as int].y as int;
        if y < m {
            y
        } else {
            m
        }
    }
}

/// The selection fits in a drawing once moved to the origin.
pub open spec fn spread_ok(a: Board, sel: Seq<u32>) -> bool {
    forall|k: int|
        0 <= k < sel.len() ==> (#[trigger] a.instances@[sel[k] as int]).x - sel_min_x(a.instances@, sel, sel.len() as int)
            <= crate::board::COORD_LIMIT && a.instances@[sel[k] as int].y - sel_min_y(a.instances@, sel, sel.len() as int)
            <= crate::board::COORD_LIMIT
}

/// `dst` is `src` moved by (-`mx`, -`my`): a built-in component gets its pins
/// laid out anew, a sub-circuit instance keeps its pins.
pub open spec fn copied(src: Instance, dst: Instance, mx: int, my: int) -> bool {
    &&& dst.def == src.def
    &&& dst.params == src.params
    &&& dst.x == src.x - mx
    &&& dst.y == src.y - my
    &&& dst.rot == src.rot
    &&& dst.display_name@ == src.display_name@
    &&& dst.mem_init@ == src.mem_init@
    &&& dst.sub == src.sub
    &&& src.sub != NO_SUB ==> pins_view(dst.pins@) == pins_view(src.pins@)
    &&& src.sub == NO_SUB ==> pins_rebuilt(src, dst)
}

/// The first `k` items of `s` whose index is not selected, in order.
pub open spec fn unselected<T>(s: Seq<T>, sel: Seq<u32>, k: int) -> Seq<T>
    decreases k,
{
    if k <= 0 {
        Seq::empty()
    } else {
        unselected(s, sel, k - 1) + if sel.contains((k - 1) as u32) {
            Seq::empty()
        } else {
            seq![s[k - 1]]
        }
    }
}

proof fn lemma_unselected_prefix<T>(s1: Seq<T>, s2: Seq<T>, sel: Seq<u32>, k: int)
    requires
        0 <= k <= s1.len(),
        k <= s2.len(),
        forall|i: int| 0 <= i < k ==> s1[i] == s2[i],
    ensures
        unselected(s1, sel, k) == unselected(s2, sel, k),
    decreases k,
{
    if k > 0 {
        lemma_unselected_prefix(s1, s2, sel, k - 1);
    }
}

proof fn lemma_unselected_len<T>(s: Seq<T>, sel: Seq<u32>, k: int)
    ensures
        unselected(s, sel, k).len() <= if k < 0 { 0 } else { k },
    decreases k,
{
    if k > 0 {
        lemma_unselected_len(s, sel, k - 1);
    }
}

proof fn lemma_sel_bound(sel: Seq<u32>, n: int)
    requires
        sel_ok(sel, n),
    ensures
        sel.len() <= n,
{
    assert forall|k: int| 0 <= k < sel.len() implies sel[k] >= k by {
        lemma_sel_at_least(sel, n, k);
    }
    assert(sel[sel.len() - 1] >= sel.len() - 1);
}

proof fn lemma_sel_at_least(sel: Seq<u32>, n: int, k: int)
    requires
        sel_ok(sel, n),
        0 <= k < sel.len(),
    ensures
        sel[k] >= k,
    decreases k,
{
    if k > 0 {
        lemma_sel_at_least(sel, n, k - 1);
        assert(sel[k - 1] < sel[k]);
    }
}

/// The lowest corner of the selection.
fn sel_min(a: &Board, sel: &Vec<u32>) -> (r: (i32, i32))
    requires
        a.wf(),
        sel_ok(sel@, a.instances@.len() as int),
    ensures
        r.0 == sel_min_x(a.instances@, sel@, sel@.len() as int),
        r.1 == sel_min_y(a.instances@, sel@, sel@.len() as int),
        forall|k: int| 0 <= k < sel@.len() ==> r.0 <= (#[trigger] a.instances@[sel@[k] as int]).x && r.1 <= a.instances@[sel@[k] as int].y,
        coord_ok(r.0 as int) && coord_ok(r.1 as int),
{
    let mut mx: i32 = i32::MAX;
    let mut my: i32 = i32::MAX;
    let mut k: usize = 0;
    while k < sel.len()
        invariant
            a.wf(),
            sel_ok(sel@, a.instances@.len() as int),
            k <= sel@.len(),
            mx == sel_min_x(a.instances@, sel@, k as int),
            my == sel_min_y(a.instances@, sel@, k as int),
            forall|j: int| 0 <= j < k ==> mx <= (#[trigger] a.instances@[sel@[j] as int]).x && my <= a.instances@[sel@[j] as int].y,
            k > 0 ==> coord_ok(mx as int) && coord_ok(my as int),
        decreases sel@.len() - k,
    {
        let it = &a.instances[sel[k] as usize];
        proof {
            assert(a.instances@[sel@[k as int] as int].wf());
        }
        if it.x < mx {
            mx = it.x;
        }
        if it.y < my {
            my = it.y;
        }
        k = k + 1;
    }
    (mx, my)
}

/// The new drawing: copies of the selected instances moved to the origin,
/// their inner connections, and one interface pin per crossing (inputs for
/// crossings at input pins, outputs for those at output pins), in key order.
/// Returns the drawing and the interface instance of each crossing
/// (`u32::MAX` where none could be made).
fn build_sub_board(
    a: &Board,
    sel: &Vec<u32>,
    mx: i32,
    my: i32,
    label: String,
    inner: &Vec<((u32, usize), (u32, usize))>,
    cross: &Vec<((u32, usize), Vec<(u32, usize)>)>,
) -> (r: (Board, Vec<u32>))
    requires
        a.wf(),
        sel_ok(sel@, a.instances@.len() as int),
        mx == sel_min_x(a.instances@, sel@, sel@.len() as int),
        my == sel_min_y(a.instances@, sel@, sel@.len() as int),
        forall|k: int| 0 <= k < sel@.len() ==> mx <= (#[trigger] a.instances@[sel@[k] as int]).x && my <= a.instances@[sel@[k] as int].y,
        coord_ok(mx as int) && coord_ok(my as int),
        spread_ok(*a, sel@),
    ensures
        r.0.wf(),
        r.0.name@ == label@,
        r.0.name_en@.len() == 0,
        r.0.annotations@.len() == 0,
        r.0.labels@.len() == 0,
        r.0.instances@.len() >= sel@.len(),
        forall|k: int| 0 <= k < sel@.len() ==> copied(a.instances@[sel@[k] as int], #[trigger] r.0.instances@[k], mx as int, my as int),
        forall|k: int|
            sel@.len() <= k < r.0.instances@.len() ==> (#[trigger] r.0.instances@[k]).def == DefId::InputPin || r.0.instances@[k].def
                == DefId::OutputPin,
        r.1@.len() == cross@.len(),
{
    proof {
        lemma_sel_bound(sel@, a.instances@.len() as int);
    }
    let mut nb = Board::new();
    nb.name = label;
    let ns = sel.len();
    let mut k: usize = 0;
    while k < ns
        invariant
            ns == sel@.len(),
            ns <= a.instances@.len(),
            a.wf(),
            sel_ok(sel@, a.instances@.len() as int),
            forall|j: int| 0 <= j < sel@.len() ==> mx <= (#[trigger] a.instances@[sel@[j] as int]).x && my <= a.instances@[sel@[j] as int].y,
            spread_ok(*a, sel@),
            mx == sel_min_x(a.instances@, sel@, sel@.len() as int),
            my == sel_min_y(a.instances@, sel@, sel@.len() as int),
            k <= ns,
            nb.wf(),
            nb.name@ == label@,
            nb.name_en@.len() == 0,
            nb.annotations@.len() == 0,
            nb.labels@.len() == 0,
            nb.wires@.len() == 0,
            nb.instances@.len() == k,
            forall|j: int| 0 <= j < k ==> copied(a.instances@[sel@[j] as int], #[trigger] nb.instances@[j], mx as int, my as int),
        decreases ns - k,
    {
        let src = &a.instances[sel[k] as usize];
        proof {
            assert(src.wf());
            assert(src.x - mx <= crate::board::COORD_LIMIT);
            assert(src.y - my <= crate::board::COORD_LIMIT);
        }
        let mut ni = src.duplicate();
        ni.x = src.x - mx;
        ni.y = src.y - my;
        if ni.sub == NO_SUB {
            ni.rebuild_pins();
        }
        proof {
            assert(ni.wf()) by {
                if src.sub != NO_SUB {
                    assert forall|q: int| 0 <= q < ni.pins@.len() implies crate::board::pin_offset_ok(#[trigger] ni.pins@[q]) by {
                        assert(pin_view(ni.pins@[q]) == pin_view(src.pins@[q]));
                        assert(crate::board::pin_offset_ok(src.pins@[q]));
                    }
                }
            }
            if src.sub != NO_SUB {
                assert(pins_view(ni.pins@) =~= pins_view(src.pins@)) by {
                    assert forall|q: int| 0 <= q < ni.pins@.len() implies #[trigger] pins_view(ni.pins@)[q] == pins_view(src.pins@)[q] by {
                        assert(pin_view(ni.pins@[q]) == pin_view(src.pins@[q]));
                    }
                }
            } else {
                assert(pins_rebuilt(*src, ni));
            }
        }
        nb.instances.push(ni);
        k = k + 1;
    }
    let mut c: usize = 0;
    let ghost nb0 = nb;
    while c < inner.len()
        invariant
            nb.wf(),
            nb.name@ == label@,
            nb.name_en@.len() == 0,
            nb.annotations@.len() == 0,
            nb.labels@.len() == 0,
            nb.instances@ == nb0.instances@,
            c <= inner@.len(),
        decreases inner@.len() - c,
    {
        let (x, y) = inner[c];
        let px = pos_of(sel, x.0);
        let py = pos_of(sel, y.0);
        if px.is_some() && py.is_some() && nb.wires.len() < MAX_WIRES {
            nb.connect_pins((px.unwrap() as u32, x.1), (py.unwrap() as u32, y.1));
        }
        c = c + 1;
    }
    let mut iface: Vec<u32> = Vec::new();
    let mut nin: usize = 0;
    let mut nout: usize = 0;
    let mut j: usize = 0;
    while j < cross.len()
        invariant
            a.wf(),
            nb.wf(),
            nb.name@ == label@,
            nb.name_en@.len() == 0,
            nb.annotations@.len() == 0,
            nb.labels@.len() == 0,
            nb.instances@.len() >= ns,
            ns == sel@.len(),
            forall|q: int| 0 <= q < ns ==> #[trigger] nb.instances@[q] == nb0.instances@[q],
            forall|q: int|
                ns <= q < nb.instances@.len() ==> (#[trigger] nb.instances@[q]).def == DefId::InputPin || nb.instances@[q].def
                    == DefId::OutputPin,
            j <= cross@.len(),
            iface@.len() == j,
            nin + nout <= j,
        decreases cross@.len() - j,
    {
        let key = cross[j].0;
        if key.0 as usize >= a.instances.len() || key.1 >= a.instances[key.0 as usize].pins.len() || nb.instances.len() >= MAX_INSTANCES
            || nin + nout >= MAX_INSTANCES {
            iface.push(u32::MAX);
            j = j + 1;
            continue;
        }
        let src = &a.instances[key.0 as usize];
        let is_out = match src.pins[key.1].dir {
            Dir::Out => true,
            _ => false,
        };
        let width = src.pins[key.1].width;
        let iname = if is_out {
            let s = crate::text::indexed_name("out", nout as u64);
            nout = nout + 1;
            s
        } else {
            let s = crate::text::indexed_name("in", nin as u64);
            nin = nin + 1;
            s
        };
        let def = if is_out {
            DefId::OutputPin
        } else {
            DefId::InputPin
        };
        let ghost nbi = nb.instances@;
        let pi = nb.add_instance(def, Params::default().width(width as u32), -4, (nin + nout) as i32);
        nb.instances[pi as usize].display_name = iname;
        proof {
            assert forall|q: int| 0 <= q < nb.instances@.len() implies (#[trigger] nb.instances@[q]).wf() by {
                if q < nbi.len() {
                    assert(nb.instances@[q] == nbi[q]);
                }
            }
        }
        let px = pos_of(sel, key.0);
        if px.is_some() && nb.wires.len() < MAX_WIRES {
            nb.connect_pins((pi, 0), (px.unwrap() as u32, key.1));
        }
        iface.push(pi);
        j = j + 1;
    }
    (nb, iface)
}

/// Drops the selected instances and the flagged wires of a drawing.
fn prune(b: &mut Board, sel: &Vec<u32>, dropped: &Vec<bool>)
    requires
        old(b).wf(),
    ensures
        final(b).wf(),
        final(b)@.2 == unselected(old(b)@.2, sel@, old(b)@.2.len() as int),
        final(b).annotations@ == old(b).annotations@,
        final(b).labels@ == old(b).labels@,
        final(b).name@ == old(b).name@,
        final(b).name_en@ == old(b).name_en@,
{
    let ghost b0 = *b;
    let mut ws: Vec<Wire> = Vec::new();
    std::mem::swap(&mut ws, &mut b.wires);
    let nw = ws.len();
    let mut kept_w: Vec<Wire> = Vec::new();
    let mut i: usize = 0;
    while i < nw
        invariant
            nw == ws@.len(),
            i <= nw,
            kept_w@.len() <= i,
            nw <= MAX_WIRES,
        decreases nw - i,
    {
        let mut w = Wire::new(Vec::new());
        std::mem::swap(&mut w, &mut ws[i]);
        if i >= dropped.len() || !dropped[i] {
            kept_w.push(w);
        }
        i = i + 1;
    }
    b.wires = kept_w;
    let mut insts: Vec<Instance> = Vec::new();
    std::mem::swap(&mut insts, &mut b.instances);
    let ghost orig = insts@;
    let ghost ov = b0@.2;
    proof {
        assert(ov == orig.map_values(|it: Instance| crate::board::instance_view(it)));
    }
    let ni = insts.len();
    let mut kept: Vec<Instance> = Vec::new();
    let mut j: usize = 0;
    while j < ni
        invariant
            ni == insts@.len(),
            ni == orig.len(),
            ni <= MAX_INSTANCES,
            ov == orig.map_values(|it: Instance| crate::board::instance_view(it)),
            j <= ni,
            forall|q: int| j <= q < ni ==> #[trigger] insts@[q] == orig[q],
            forall|q: int| 0 <= q < ni ==> (#[trigger] orig[q]).wf(),
            forall|q: int| 0 <= q < kept@.len() ==> (#[trigger] kept@[q]).wf(),
            kept@.map_values(|it: Instance| crate::board::instance_view(it)) == unselected(ov, sel@, j as int),
            kept@.len() <= j,
        decreases ni - j,
    {
        let mut it = Instance::new(DefId::Custom, Params::default(), 0, 0);
        std::mem::swap(&mut it, &mut insts[j]);
        let ghost k0 = kept@;
        let is_sel = pos_of(sel, j as u32).is_some();
        if !is_sel {
            kept.push(it);
            proof {
                assert(kept@.map_values(|it: Instance| crate::board::instance_view(it)) =~= k0.map_values(
                    |it: Instance| crate::board::instance_view(it),
                ).push(ov[j as int]));
            }
        }
        proof {
            assert(unselected(ov, sel@, j + 1) == unselected(ov, sel@, j as int) + if sel@.contains(j as u32) {
                Seq::<InstanceV>::empty()
            } else {
                seq![ov[j as int]]
            });
            if is_sel {
                assert(unselected(ov, sel@, j + 1) =~= unselected(ov, sel@, j as int));
            }
        }
        j = j + 1;
    }
    b.instances = kept;
    proof {
        assert(b@.2 == kept@.map_values(|it: Instance| crate::board::instance_view(it)));
    }
}

/// The drawings after extracting the selection of drawing `cur` into a new
/// drawing named `name` (see `extract`).
pub open spec fn extracted(old: Seq<Board>, new: Seq<Board>, cur: int, sel: Seq<u32>, name: Seq<char>) -> bool {
    let a = old[cur];
    let n = old.len() as int;
    let label = if is_blank(name) { "子电路"@ } else { name };
    let mx = sel_min_x(a.instances@, sel, sel.len() as int);
    let my = sel_min_y(a.instances@, sel, sel.len() as int);
    let nb = new[n];
    let c = new[cur]@;
    let u = unselected(a@.2, sel, a@.2.len() as int);
    &&& new.len() == n + 1
    &&& forall|j: int| 0 <= j < n && j != cur ==> #[trigger] new[j] == old[j]
    &&& nb.name@ == label
    &&& nb.name_en@.len() == 0
    &&& nb.annotations@.len() == 0
    &&& nb.labels@.len() == 0
    &&& nb.instances@.len() >= sel.len()
    &&& forall|k: int| 0 <= k < sel.len() ==> copied(a.instances@[sel[k] as int], #[trigger] nb.instances@[k], mx, my)
    &&& forall|k: int|
        sel.len() <= k < nb.instances@.len() ==> (#[trigger] nb.instances@[k]).def == DefId::InputPin || nb.instances@[k].def
            == DefId::OutputPin
    &&& c.0 == a@.0
    &&& c.1 == a@.1
    &&& c.4 == a@.4
    &&& c.5 == a@.5
    &&& c.2.len() == u.len() + 1
    &&& forall|i: int| 0 <= i < u.len() ==> #[trigger] c.2[i] == u[i]
    &&& ({
        let it = c.2.last();
        &&& it.0 == DefId::Custom
        &&& it.2 == mx
        &&& it.3 == my
        &&& it.4 == 0
        &&& it.5 == label
        &&& it.7.len() == 0
        &&& it.8 == n
        &&& follows_iface(nb@, it.6)
    })
}

/// When extraction can be done: some selected instance has pins, the
/// selection fits a drawing, and there is room for one more instance and
/// one more drawing.
pub open spec fn extract_ok(bs: Seq<Board>, cur: int, sel: Seq<u32>) -> bool {
    let a = bs[cur];
    &&& sel_has_pins(a, sel)
    &&& spread_ok(a, sel)
    &&& a.instances@.len() < MAX_INSTANCES
    &&& bs.len() + 1 < MAX_BOARDS
}

/// Moves the selected instances of drawing `cur` into a new drawing and puts
/// an instance of it in their place: inner wires move along, wires crossing
/// the boundary become interface pins of the new drawing and are routed
/// again to the new instance. Returns the new drawing's index.
fn extract(bs: &mut Vec<Board>, cur: usize, sel: &Vec<u32>, name: &str) -> (r: Option<u32>)
    requires
        boards_ok(old(bs)@),
        cur < old(bs)@.len(),
        sel_ok(sel@, old(bs)@[cur as int].instances@.len() as int),
    ensures
        boards_ok(final(bs)@),
        r is Some == extract_ok(old(bs)@, cur as int, sel@),
        r is None ==> final(bs)@ == old(bs)@,
        r is Some ==> r->0 == old(bs)@.len() && extracted(old(bs)@, final(bs)@, cur as int, sel@, name@),
{
    proof {
        assert(old(bs)@[cur as int].wf());
    }
    let (all_pin, sel_pin) = collect_pins(&bs[cur], sel);
    if sel_pin.len() == 0 {
        return None;
    }
    if bs.len() + 1 >= MAX_BOARDS || bs[cur].instances.len() >= MAX_INSTANCES {
        return None;
    }
    let (mx, my) = sel_min(&bs[cur], sel);
    let mut k: usize = 0;
    while k < sel.len()
        invariant
            boards_ok(bs@),
            cur < bs@.len(),
            sel_ok(sel@, bs@[cur as int].instances@.len() as int),
            mx == sel_min_x(bs@[cur as int].instances@, sel@, sel@.len() as int),
            my == sel_min_y(bs@[cur as int].instances@, sel@, sel@.len() as int),
            coord_ok(mx as int) && coord_ok(my as int),
            forall|j: int| 0 <= j < sel@.len() ==> mx <= (#[trigger] bs@[cur as int].instances@[sel@[j] as int]).x && my
                <= bs@[cur as int].instances@[sel@[j] as int].y,
            k <= sel@.len(),
            forall|j: int|
                0 <= j < k ==> (#[trigger] bs@[cur as int].instances@[sel@[j] as int]).x - mx <= crate::board::COORD_LIMIT
                    && bs@[cur as int].instances@[sel@[j] as int].y - my <= crate::board::COORD_LIMIT,
        decreases sel@.len() - k,
    {
        let it = &bs[cur].instances[sel[k] as usize];
        proof {
            assert(bs@[cur as int].wf());
            assert(it.wf());
        }
        if it.x as i64 - mx as i64 > crate::board::COORD_LIMIT as i64 || it.y as i64 - my as i64 > crate::board::COORD_LIMIT as i64 {
            return None;
        }
        k = k + 1;
    }
    let ghost bs0 = bs@;
    let ghost a = bs@[cur as int];
    let (inner, cross, dropped) = classify_wires(&bs[cur], &all_pin, &sel_pin);
    proof {
        reveal_strlit("子电路");
    }
    let label = if crate::text::blank(name) {
        crate::text::copy_str("子电路")
    } else {
        crate::text::copy_str(name)
    };
    let (nb, iface) = build_sub_board(&bs[cur], sel, mx, my, crate::text::copy_str(label.as_str()), &inner, &cross);
    let ghost nbg = nb;
    let sub_idx = bs.len() as u32;
    bs.push(nb);
    let mut cb = Board::new();
    std::mem::swap(&mut cb, &mut bs[cur]);
    let inst = cb.add_sub_instance(sub_idx, label.as_str(), mx, my);
    std::mem::swap(&mut cb, &mut bs[cur]);
    let ghost bs1 = bs@;
    proof {
        assert(bs@[sub_idx as int] == nbg);
        assert(bs@[sub_idx as int].wf());
    }
    let pins = custom_pins(&bs[sub_idx as usize]);
    proof {
        let s = choose|s: Shape|
            iface_sorted(bs@[sub_idx as int], s.inputs@, DefId::InputPin) && iface_sorted(bs@[sub_idx as int], s.outputs@, DefId::OutputPin)
                && #[trigger] custom_layout(bs@[sub_idx as int], s, pins@);
        lemma_custom_pins(bs@[sub_idx as int], s, pins@);
        assert(pins_ok(pins@)) by {
            assert(pins@.len() <= MAX_INSTANCES);
        }
    }
    set_pins_in(bs, cur, inst as usize, pins);
    let ghost bs2 = bs@;
    let sh = shape(&bs[sub_idx as usize]);
    let n_in = sh.inputs.len();
    let mut cb = Board::new();
    std::mem::swap(&mut cb, &mut bs[cur]);
    let ghost cb0 = cb;
    proof {
        assert(cb0 == bs2[cur as int]);
        assert(bs2[cur as int].wf());
    }
    let mut j: usize = 0;
    while j < cross.len()
        invariant
            cb.wf(),
            cb.instances@ == cb0.instances@,
            cb.annotations@ == cb0.annotations@,
            cb.labels@ == cb0.labels@,
            cb.name@ == cb0.name@,
            cb.name_en@ == cb0.name_en@,
            iface@.len() == cross@.len(),
            j <= cross@.len(),
        decreases cross@.len() - j,
    {
        let pi = iface[j];
        let key = cross[j].0;
        if pi != u32::MAX && (key.0 as usize) < cb.instances.len() && key.1 < cb.instances[key.0 as usize].pins.len() {
            let is_out = match cb.instances[key.0 as usize].pins[key.1].dir {
                Dir::Out => true,
                _ => false,
            };
            let slot = if is_out {
                match pos_of(&sh.outputs, pi) {
                    Some(p) => {
                        if p <= usize::MAX - n_in {
                            Some(p + n_in)
                        } else {
                            None
                        }
                    },
                    None => None,
                }
            } else {
                pos_of(&sh.inputs, pi)
            };
            if let Some(slot) = slot {
                let outer = &cross[j].1;
                let mut q: usize = 0;
                while q < outer.len()
                    invariant
                        cb.wf(),
                        cb.instances@ == cb0.instances@,
                        cb.annotations@ == cb0.annotations@,
                        cb.labels@ == cb0.labels@,
                        cb.name@ == cb0.name@,
                        cb.name_en@ == cb0.name_en@,
                        q <= outer@.len(),
                    decreases outer@.len() - q,
                {
                    if cb.wires.len() < MAX_WIRES {
                        cb.connect_pins((inst, slot), outer[q]);
                    }
                    q = q + 1;
                }
            }
        }
        j = j + 1;
    }
    let ghost cb1 = cb;
    prune(&mut cb, sel, &dropped);
    let ghost cb2 = cb;
    std::mem::swap(&mut cb, &mut bs[cur]);
    proof {
        let n = bs0.len() as int;
        let total = a.instances@.len() as int;
        assert(bs@.len() == n + 1);
        assert forall|q: int| 0 <= q < bs@.len() implies (#[trigger] bs@[q]).wf() by {
            if q != cur as int {
                assert(bs@[q] == bs2[q]);
                if q < n {
                    assert(bs2[q] == bs1[q]);
                    assert(bs1[q] == bs0[q]);
                }
            }
        }
        assert forall|q: int| 0 <= q < n && q != cur implies #[trigger] bs@[q] == bs0[q] by {
            assert(bs@[q] == bs2[q]);
            assert(bs2[q] == bs1[q]);
        }
        assert(bs@[n] == nbg) by {
            assert(bs@[n] == bs2[n]);
            assert(bs2[n] == bs1[n]);
        }
        // the drawing being cut
        let v1 = views(bs1)[cur as int];
        let v2 = views(bs2)[cur as int];
        assert(v1 == bs1[cur as int]@);
        assert(v1.2.len() == total + 1);
        assert(v2 == with_inst(v1, inst as int, with_pins(v1.2[inst as int], pins_view(pins@))));
        assert(views(bs2)[cur as int] == bs2[cur as int]@);
        assert(cb1@.2 == cb0@.2);
        assert(cb0@ == v2);
        let u = unselected(a@.2, sel@, total);
        assert forall|i: int| 0 <= i < total implies #[trigger] v2.2[i] == a@.2[i] by {
            assert(v1.2[i] == bs1[cur as int].instances@[i]@);
        }
        lemma_unselected_prefix(v2.2, a@.2, sel@, total);
        assert(!sel@.contains(total as u32)) by {
            if sel@.contains(total as u32) {
                let k = choose|k: int| 0 <= k < sel@.len() && sel@[k] == total as u32;
                assert(sel@[k] < total);
            }
        }
        assert(cb2@.2 == unselected(v2.2, sel@, total + 1));
        assert(cb2@.2 =~= u.push(v2.2[total]));
        assert(bs@[cur as int]@ == cb2@);
        let it = v2.2[total];
        assert(it.6 == pins_view(pins@));
        assert(bs2[n] == bs1[n]);
        lemma_unselected_len(a@.2, sel@, total);
    }
    Some(sub_idx)
}

/// The selection as a strictly increasing list of the indices below `total`
/// that `sel` names (duplicates and out-of-range entries dropped).
fn normalize_sel(sel: &[u32], total: usize) -> (v: Vec<u32>)
    requires
        total <= MAX_INSTANCES,
    ensures
        forall|k: int| 0 <= k < v@.len() ==> (#[trigger] v@[k]) < total,
        forall|k: int, l: int| 0 <= k < l < v@.len() ==> #[trigger] v@[k] < #[trigger] v@[l],
        forall|x: u32| #[trigger] v@.contains(x) <==> (sel@.contains(x) && x < total),
{
    let mut mark: Vec<bool> = Vec::new();
    let mut i: usize = 0;
    while i < total
        invariant
            i <= total,
            mark@.len() == i,
            forall|q: int| 0 <= q < i ==> !mark@[q],
        decreases total - i,
    {
        mark.push(false);
        i = i + 1;
    }
    let mut k: usize = 0;
    while k < sel.len()
        invariant
            mark@.len() == total,
            total <= MAX_INSTANCES,
            k <= sel@.len(),
            forall|q: int| 0 <= q < total ==> (#[trigger] mark@[q] <==> exists|j: int| 0 <= j < k && sel@[j] == q as u32),
        decreases sel@.len() - k,
    {
        let x = sel[k];
        if (x as usize) < total {
            mark.set(x as usize, true);
        }
        proof {
            assert forall|q: int| 0 <= q < total implies (#[trigger] mark@[q] <==> exists|j: int| 0 <= j < k + 1 && sel@[j] == q as u32) by {
                if mark@[q] && q != x {
                    let j = choose|j: int| 0 <= j < k && sel@[j] == q as u32;
                    assert(0 <= j < k + 1 && sel@[j] == q as u32);
                }
                if q == x {
                    assert(sel@[k as int] == q as u32);
                }
            }
        }
        k = k + 1;
    }
    let mut v: Vec<u32> = Vec::new();
    let mut q: usize = 0;
    while q < total
        invariant
            mark@.len() == total,
            total <= MAX_INSTANCES,
            q <= total,
            forall|a: int| 0 <= a < total ==> (#[trigger] mark@[a] <==> exists|j: int| 0 <= j < sel@.len() && sel@[j] == a as u32),
            forall|a: int| 0 <= a < v@.len() ==> (#[trigger] v@[a]) < q,
            forall|a: int, b: int| 0 <= a < b < v@.len() ==> #[trigger] v@[a] < #[trigger] v@[b],
            forall|x: u32| #[trigger] v@.contains(x) <==> (x < q && mark@[x as int]),
        decreases total - q,
    {
        let ghost v0 = v@;
        if mark[q] {
            v.push(q as u32);
            proof {
                assert forall|x: u32| #[trigger] v@.contains(x) <==> (x < q + 1 && mark@[x as int]) by {
                    if x == q as u32 {
                        assert(v@[v@.len() - 1] == x);
                        assert(v@.contains(x));
                    }
                    if v@.contains(x) && x != q as u32 {
                        let a = choose|a: int| 0 <= a < v@.len() && v@[a] == x;
                        assert(v0.contains(x)) by {
                            assert(v0[a] == x);
                        }
                    }
                    if x < q && mark@[x as int] {
                        assert(v0.contains(x));
                        let a = choose|a: int| 0 <= a < v0.len() && v0[a] == x;
                        assert(v@[a] == x);
                        assert(v@.contains(x));
                    }
                }
            }
        } else {
            proof {
                assert forall|x: u32| #[trigger] v@.contains(x) <==> (x < q + 1 && mark@[x as int]) by {
                    if x == q as u32 && v@.contains(x) {
                        let a = choose|a: int| 0 <= a < v@.len() && v@[a] == x;
                        assert(v@[a] < q);
                    }
                }
            }
        }
        q = q + 1;
    }
    proof {
        assert forall|x: u32| #[trigger] v@.contains(x) <==> (sel@.contains(x) && x < total) by {
            if sel@.contains(x) && x < total {
                let j = choose|j: int| 0 <= j < sel@.len() && sel@[j] == x;
                assert(mark@[x as int]);
            }
            if v@.contains(x) {
                assert(mark@[x as int]);
                let j = choose|j: int| 0 <= j < sel@.len() && sel@[j] == x as u32;
                assert(sel@[j] == x);
            }
        }
    }
    v
}

impl Session {
    /// Wraps the selected instances of the drawing being edited into a new
    /// drawing named `name` and puts an instance of it in their place (see
    /// `extract`); returns the new drawing's index. `None` and no change when
    /// nothing in range is selected; otherwise an edit even when the
    /// extraction cannot be done (`None`).
    pub fn extract_to_sub(&mut self, sel: &[u32], name: &str) -> (r: Option<u32>)
        requires
            old(self).inv(),
        ensures
            final(self).inv(),
            ({
                let a = old(self).boards()[old(self).cur()];
                let total = a.instances@.len();
                let any = exists|k: int| 0 <= k < sel@.len() && (#[trigger] sel@[k]) < total;
                &&& !any ==> r is None && *final(self) == *old(self)
                &&& any ==> exists|v: Seq<u32>, bs: Seq<Board>|
                    #[trigger] sel_ok(v, total as int) && (forall|x: u32| #[trigger] v.contains(x) <==> (sel@.contains(x) && x < total))
                        && #[trigger] Session::edited(*old(self), *final(self), views(bs))
                        && (r is Some == extract_ok(old(self).boards(), old(self).cur(), v))
                        && (r is None ==> bs == old(self).boards())
                        && (r is Some ==> r->0 == old(self).boards().len() && extracted(old(self).boards(), bs, old(self).cur(), v, name@))
            }),
    {
        let ci = self.current_board() as usize;
        let total = self.project.boards[ci].instances.len();
        proof {
            assert(self.project.boards@[ci as int].wf());
        }
        let v = normalize_sel(sel, total);
        if v.len() == 0 {
            proof {
                assert forall|k: int| 0 <= k < sel@.len() implies (#[trigger] sel@[k]) >= total by {
                    if sel@[k] < total {
                        assert(sel@.contains(sel@[k]));
                        assert(v@.contains(sel@[k]));
                    }
                }
            }
            return None;
        }
        proof {
            let x = v@[0];
            assert(v@.contains(x));
            let k = choose|k: int| 0 <= k < sel@.len() && sel@[k] == x;
            assert(sel@[k] < total);
        }
        let ghost s0 = *self;
        let before = self.snapshot();
        let r = extract(&mut self.project.boards, ci, &v, name);
        let ghost bs = self.project.boards@;
        proof {
            assert(views(before.boards@).len() == before.boards@.len());
        }
        self.commit(before, Ghost(s0));
        proof {
            assert(Session::edited(s0, *self, views(bs)));
            assert(sel_ok(v@, total as int));
        }
        r
    }
}

/// A drawing reference after drawing `idx` was removed: later drawings move down.
pub open spec fn renumbered(sub: u32, idx: u32) -> u32 {
    if sub != NO_SUB && sub > idx {
        (sub - 1) as u32
    } else {
        sub
    }
}

/// Whether an instance does not stand for drawing `idx`.
pub open spec fn not_ref(idx: u32) -> spec_fn(Instance) -> bool {
    |it: Instance| it.sub != idx
}

/// Whether wire `w` ends on none of the instances of `insts` from index
/// `from` on that stand for drawing `idx`.
pub open spec fn spared(insts: Seq<Instance>, idx: u32, from: int) -> spec_fn(Wire) -> bool {
    |w: Wire| forall|i: int| from <= i < insts.len() && (#[trigger] insts[i]).sub == idx ==> !ends_on_instance(w.points@, insts[i])
}

/// `b` is drawing `a` once drawing `idx` is gone: the instances standing
/// for it are removed together with the wires that end on them, and
/// references to later drawings move down.
pub open spec fn dropped_ref(a: Board, b: Board, idx: u32) -> bool {
    let kept = a.instances@.filter(not_ref(idx));
    &&& b.instances@.len() == kept.len()
    &&& forall|i: int| 0 <= i < kept.len() ==> #[trigger] b.instances@[i] == (Instance { sub: renumbered(kept[i].sub, idx), ..kept[i] })
    &&& b.wires@ == a.wires@.filter(spared(a.instances@, idx, 0))
    &&& b.annotations@ == a.annotations@
    &&& b.labels@ == a.labels@
    &&& b.name@ == a.name@
    &&& b.name_en@ == a.name_en@
}

/// A filter that keeps everything keeps the sequence.
proof fn lemma_filter_all(s: Seq<Wire>, p: spec_fn(Wire) -> bool)
    requires
        forall|w: Wire| #[trigger] p(w),
    ensures
        s.filter(p) == s,
    decreases s.len(),
{
    reveal(Seq::filter);
    if s.len() > 0 {
        lemma_filter_all(s.drop_last(), p);
        assert(s.drop_last().push(s.last()) =~= s);
    }
}

/// Filtering by `p` and then by `q` filters by `r`, the conjunction.
proof fn lemma_filter_both(s: Seq<Wire>, p: spec_fn(Wire) -> bool, q: spec_fn(Wire) -> bool, r: spec_fn(Wire) -> bool)
    requires
        forall|w: Wire| #[trigger] r(w) == (p(w) && q(w)),
    ensures
        s.filter(p).filter(q) == s.filter(r),
    decreases s.len(),
{
    reveal(Seq::filter);
    if s.len() > 0 {
        lemma_filter_both(s.drop_last(), p, q, r);
        let x = s.last();
        let fp = s.drop_last().filter(p);
        assert(fp.push(x).drop_last() =~= fp);
        assert(fp.push(x).last() == x);
        assert(r(x) == (p(x) && q(x)));
    }
}

/// Removes from drawing `b` the instances standing for drawing `idx`, and
/// renumbers references to later drawings.
fn drop_refs(b: &mut Board, idx: u32)
    requires
        old(b).wf(),
    ensures
        final(b).wf(),
        dropped_ref(*old(b), *final(b), idx),
{
    let ghost orig = b.instances@;
    let ghost ow = b.wires@;
    let ghost p = not_ref(idx);
    let n = b.instances.len();
    let mut k = n;
    proof {
        lemma_filter_all(ow, spared(orig, idx, n as int));
        assert(orig.subrange(0, n as int) =~= orig);
        assert(orig.subrange(n as int, n as int).filter(p) =~= Seq::<Instance>::empty()) by {
            reveal(Seq::filter);
        }
        assert(orig.subrange(0, n as int) + orig.subrange(n as int, n as int).filter(p) =~= orig);
    }
    while k > 0
        invariant
            k <= n,
            n == orig.len(),
            b.wf(),
            b.instances@ == orig.subrange(0, k as int) + orig.subrange(k as int, n as int).filter(p),
            b.wires@ == ow.filter(spared(orig, idx, k as int)),
            b.annotations@ == old(b).annotations@,
            b.labels@ == old(b).labels@,
            b.name@ == old(b).name@,
            b.name_en@ == old(b).name_en@,
            p == not_ref(idx),
        decreases k,
    {
        let ghost w0 = b.wires@;
        let ghost i0 = b.instances@;
        let x = orig_sub(b, k - 1);
        proof {
            assert(i0[k - 1] == orig[k - 1]);
            assert(x == orig[k - 1].sub);
            assert(orig.subrange(k - 1, n as int) =~= seq![orig[k - 1]] + orig.subrange(k as int, n as int));
            Seq::filter_distributes_over_add(seq![orig[k - 1]], orig.subrange(k as int, n as int), p);
            reveal(Seq::filter);
            assert(seq![orig[k - 1]].drop_last() =~= Seq::<Instance>::empty());
            assert(Seq::<Instance>::empty().filter(p) =~= Seq::<Instance>::empty());
        }
        if x == idx {
            b.remove_instance((k - 1) as u32);
            proof {
                assert(b.instances@ =~= orig.subrange(0, k - 1) + orig.subrange(k - 1, n as int).filter(p));
                let keep = |w: Wire| !ends_on_instance(w.points@, i0[k - 1]);
                let lo = spared(orig, idx, k - 1);
                let hi = spared(orig, idx, k as int);
                assert forall|w: Wire| #[trigger] lo(w) == (hi(w) && keep(w)) by {
                    if hi(w) && keep(w) {
                        assert forall|i: int| k - 1 <= i < orig.len() && (#[trigger] orig[i]).sub == idx implies !ends_on_instance(w.points@, orig[i]) by {
                            if i >= k {
                                assert(hi(w));
                            }
                        }
                    }
                    if lo(w) {
                        assert(!ends_on_instance(w.points@, orig[k - 1]));
                    }
                }
                lemma_filter_both(ow, hi, keep, lo);
            }
        } else {
            proof {
                assert(b.instances@ =~= orig.subrange(0, k - 1) + orig.subrange(k - 1, n as int).filter(p));
                assert(spared(orig, idx, k - 1) =~= spared(orig, idx, k as int));
            }
        }
        k = k - 1;
    }
    proof {
        assert(b.instances@ =~= orig.filter(p));
    }
    let ghost kept = b.instances@;
    let m = b.instances.len();
    let mut i: usize = 0;
    while i < m
        invariant
            m == b.instances@.len(),
            m == kept.len(),
            b.wf(),
            i <= m,
            forall|j: int| 0 <= j < i ==> #[trigger] b.instances@[j] == (Instance { sub: renumbered(kept[j].sub, idx), ..kept[j] }),
            forall|j: int| i <= j < m ==> #[trigger] b.instances@[j] == kept[j],
            b.wires@ == ow.filter(spared(orig, idx, 0)),
            b.annotations@ == old(b).annotations@,
            b.labels@ == old(b).labels@,
            b.name@ == old(b).name@,
            b.name_en@ == old(b).name_en@,
        decreases m - i,
    {
        let sub = b.instances[i].sub;
        if sub != NO_SUB && sub > idx {
            let ghost bi = b.instances@;
            b.instances[i].sub = sub - 1;
            proof {
                assert forall|j: int| 0 <= j < b.instances@.len() implies (#[trigger] b.instances@[j]).wf() by {
                    assert(bi[j].wf());
                }
            }
        }
        i = i + 1;
    }
}

/// The drawing reference of instance `k` of `b`.
fn orig_sub(b: &Board, k: usize) -> (r: u32)
    requires
        k < b.instances@.len(),
    ensures
        r == b.instances@[k as int].sub,
{
    b.instances[k].sub
}

/// The main drawing's index once drawing `idx` is removed.
pub open spec fn main_after_removal(main: int, idx: int) -> int {
    if idx < main {
        main - 1
    } else if idx == main {
        0
    } else {
        main
    }
}

impl Session {
    /// Removes drawing `idx`: instances standing for it disappear (with their
    /// wires), references to later drawings move down, and the main index
    /// follows its drawing (or falls back to 0 when it is the one removed).
    /// False (and no change) for the last drawing or an index out of range.
    pub fn remove_board(&mut self, idx: u32) -> (r: bool)
        requires
            old(self).inv(),
        ensures
            final(self).inv(),
            r == (old(self).boards_v().len() > 1 && idx < old(self).boards_v().len()),
            !r ==> *final(self) == *old(self),
            r ==> exists|bs: Seq<Board>|
                #[trigger] Session::edited_main(
                    *old(self),
                    *final(self),
                    views(bs),
                    main_after_removal(old(self).main_spec(), idx as int),
                ) && bs.len() == old(self).boards().len() - 1 && forall|j: int|
                    0 <= j < bs.len() ==> dropped_ref(old(self).boards()[if j < idx { j } else { j + 1 }], #[trigger] bs[j], idx),
    {
        let n = self.project.boards.len();
        if n <= 1 || idx as usize >= n {
            return false;
        }
        let ghost s0 = *self;
        let before = self.snapshot();
        let mut b: usize = 0;
        while b < n
            invariant
                n == self.project.boards@.len(),
                n == s0.project.boards@.len(),
                b <= n,
                boards_ok(self.project.boards@),
                forall|j: int| 0 <= j < b ==> dropped_ref(s0.project.boards@[j], #[trigger] self.project.boards@[j], idx),
                forall|j: int| b <= j < n ==> #[trigger] self.project.boards@[j] == s0.project.boards@[j],
                Session::same_but_boards(s0, *self),
            decreases n - b,
        {
            let mut bd = self.take_board(b);
            proof {
                assert(bd.wf());
            }
            drop_refs(&mut bd, idx);
            self.put_board(b, bd);
            proof {
                assert forall|j: int| 0 <= j < self.project.boards@.len() implies (#[trigger] self.project.boards@[j]).wf() by {
                    if j != b {
                        assert(self.project.boards@[j] == s0.project.boards@[j] || j < b);
                    }
                }
            }
            b = b + 1;
        }
        let ghost bs1 = self.project.boards@;
        self.project.boards.remove(idx as usize);
        let main = self.project.main_board;
        if (idx as usize) < main {
            self.project.main_board = main - 1;
        } else if idx as usize == main {
            self.project.main_board = 0;
        }
        proof {
            assert(boards_ok(self.project.boards@)) by {
                assert forall|j: int| 0 <= j < self.project.boards@.len() implies (#[trigger] self.project.boards@[j]).wf() by {
                    assert(self.project.boards@[j] == bs1[if j < idx { j } else { j + 1 }]);
                }
            }
            assert(snaps_fit(self.undo@, self.project.main_board as int)) by {
                assert forall|i: int| 0 <= i < self.undo@.len() implies self.project.main_board < (#[trigger] self.undo@[i]).boards@.len() by {
                    assert(s0.project.main_board < self.undo@[i].boards@.len());
                }
            }
            assert(views(before.boards@).len() == before.boards@.len());
            assert forall|j: int| 0 <= j < self.project.boards@.len() implies dropped_ref(
                s0.project.boards@[if j < idx { j } else { j + 1 }],
                #[trigger] self.project.boards@[j],
                idx,
            ) by {
                assert(self.project.boards@[j] == bs1[if j < idx { j } else { j + 1 }]);
            }
        }
        let ghost bs = self.project.boards@;
        self.commit(before, Ghost(s0));
        proof {
            assert(Session::edited_main(s0, *self, views(bs), main_after_removal(s0.main_spec(), idx as int)));
        }
        true
    }
}

impl Session {
    /// Replaces the whole session with one holding `project` (history cleared;
    /// see `from_project`).
    pub fn load_project(&mut self, project: Project)
        requires
            forall|i: int| 0 <= i < project.boards@.len() ==> (#[trigger] project.boards@[i]).wf(),
            project.boards@.len() < MAX_BOARDS,
        ensures
            final(self).inv(),
            powered_on(final(self).sim()),
            final(self).history().len() == 0,
            final(self).future().len() == 0,
            final(self).main_spec() == (if project.main_board < project.boards@.len() { project.main_board as int } else { 0 }),
            final(self).cur() == final(self).main_spec(),
            final(self).name_spec() == project.name@,
            final(self).waves().len() == 0,
            final(self).path_spec().len() == 0,
            final(self).revision_spec() == 1,
            synced(
                named(
                    if project.boards@.len() == 0 { seq![blank_board_v()] } else { views(project.boards@) },
                    final(self).main_spec(),
                ),
                final(self).boards_v(),
            ),
    {
        *self = Session::from_project(project);
    }
}

impl Session {
    /// Replaces the session with `project` when the session can hold it:
    /// fewer than `MAX_BOARDS` drawings, each within the drawing limits.
    /// Otherwise false, and nothing changes.
    pub fn load_project_checked(&mut self, project: Project) -> (r: bool)
        ensures
            r == (project.boards@.len() < MAX_BOARDS && forall|i: int| 0 <= i < project.boards@.len() ==> (#[trigger] project.boards@[i]).wf()),
            !r ==> *final(self) == *old(self),
            r ==> final(self).inv() && powered_on(final(self).sim()) && final(self).history().len() == 0
                && final(self).future().len() == 0 && final(self).waves().len() == 0 && final(self).name_spec() == project.name@
                && final(self).main_spec() == (if project.main_board < project.boards@.len() { project.main_board as int } else { 0 })
                && synced(
                named(
                    if project.boards@.len() == 0 { seq![blank_board_v()] } else { views(project.boards@) },
                    final(self).main_spec(),
                ),
                final(self).boards_v(),
            ),
    {
        if project.boards.len() >= MAX_BOARDS {
            return false;
        }
        let n = project.boards.len();
        let mut i: usize = 0;
        while i < n
            invariant
                n == project.boards@.len(),
                i <= n,
                forall|j: int| 0 <= j < i ==> (#[trigger] project.boards@[j]).wf(),
            decreases n - i,
        {
            if !board_wf(&project.boards[i]) {
                return false;
            }
            i = i + 1;
        }
        self.load_project(project);
        true
    }
}

impl Default for Session {
    fn default() -> (s: Session)
        ensures
            s.inv(),
            s.boards_v().len() == 1,
            s.history().len() == 0,
            s.cur() == 0,
    {
        Session::new()
    }
}

proof fn lemma_name_before_order(bv: BoardV, i: int, j: int, k: int)
    ensures
        !name_before(bv, i, i),
        !(name_before(bv, i, j) && name_before(bv, j, i)),
        name_before(bv, i, j) && name_before(bv, j, k) ==> name_before(bv, i, k),
        i != j ==> name_before(bv, i, j) || name_before(bv, j, i),
{
    lemma_seq_lt_total(bv.2[i].5, bv.2[j].5);
    lemma_seq_lt_total(bv.2[i].5, bv.2[i].5);
    if seq_lt(bv.2[i].5, bv.2[j].5) && seq_lt(bv.2[j].5, bv.2[k].5) {
        lemma_seq_lt_trans(bv.2[i].5, bv.2[j].5, bv.2[k].5);
    }
}

/// In interface order every earlier entry comes before every later one.
proof fn lemma_order_pairwise(bv: BoardV, v: Seq<u32>, d: DefId, k: int, l: int)
    requires
        iface_order(bv, v, d),
        0 <= k < l < v.len(),
    ensures
        name_before(bv, v[k] as int, v[l] as int),
    decreases l - k,
{
    if l > k + 1 {
        lemma_order_pairwise(bv, v, d, k, l - 1);
        let m = l - 1;
        assert(name_before(bv, v[m] as int, v[m + 1] as int));
        lemma_name_before_order(bv, v[k] as int, v[m] as int, v[l] as int);
    } else {
        assert(name_before(bv, v[k] as int, v[k + 1] as int));
    }
}

/// Two lists sorted strictly by the interface order that hold the same
/// entries are the same list.
proof fn lemma_sorted_same(bv: BoardV, v1: Seq<u32>, v2: Seq<u32>)
    requires
        forall|k: int, l: int| 0 <= k < l < v1.len() ==> name_before(bv, #[trigger] v1[k] as int, #[trigger] v1[l] as int),
        forall|k: int, l: int| 0 <= k < l < v2.len() ==> name_before(bv, #[trigger] v2[k] as int, #[trigger] v2[l] as int),
        forall|x: u32| #[trigger] v1.contains(x) <==> v2.contains(x),
    ensures
        v1 == v2,
    decreases v1.len(),
{
    if v1.len() == 0 {
        if v2.len() > 0 {
            assert(v2.contains(v2[0]));
            assert(v1.contains(v2[0]));
        }
        assert(v1 =~= v2);
        return;
    }
    if v2.len() == 0 {
        assert(v1.contains(v1[0]));
        return;
    }
    let a = v1[0];
    let b = v2[0];
    assert(v1.contains(a));
    assert(v2.contains(b));
    if a != b {
        assert(v2.contains(a));
        let ka = choose|k: int| 0 <= k < v2.len() && v2[k] == a;
        assert(ka > 0);
        assert(name_before(bv, v2[0] as int, v2[ka] as int));
        assert(v1.contains(b));
        let kb = choose|k: int| 0 <= k < v1.len() && v1[k] == b;
        assert(kb > 0);
        assert(name_before(bv, v1[0] as int, v1[kb] as int));
        lemma_name_before_order(bv, a as int, b as int, a as int);
        assert(false);
    }
    let r1 = v1.drop_first();
    let r2 = v2.drop_first();
    assert forall|x: u32| #[trigger] r1.contains(x) <==> r2.contains(x) by {
        if r1.contains(x) {
            let k = choose|k: int| 0 <= k < r1.len() && r1[k] == x;
            assert(v1[k + 1] == x);
            assert(name_before(bv, v1[0] as int, v1[k + 1] as int));
            lemma_name_before_order(bv, x as int, x as int, x as int);
            assert(x != a);
            assert(v1.contains(x));
            assert(v2.contains(x));
            let j = choose|j: int| 0 <= j < v2.len() && v2[j] == x;
            assert(j != 0);
            assert(r2[j - 1] == x);
        }
        if r2.contains(x) {
            let k = choose|k: int| 0 <= k < r2.len() && r2[k] == x;
            assert(v2[k + 1] == x);
            assert(name_before(bv, v2[0] as int, v2[k + 1] as int));
            lemma_name_before_order(bv, x as int, x as int, x as int);
            assert(x != b);
            assert(v2.contains(x));
            assert(v1.contains(x));
            let j = choose|j: int| 0 <= j < v1.len() && v1[j] == x;
            assert(j != 0);
            assert(r1[j - 1] == x);
        }
    }
    assert forall|k: int, l: int| 0 <= k < l < r1.len() implies name_before(bv, #[trigger] r1[k] as int, #[trigger] r1[l] as int) by {
        assert(r1[k] == v1[k + 1] && r1[l] == v1[l + 1]);
    }
    assert forall|k: int, l: int| 0 <= k < l < r2.len() implies name_before(bv, #[trigger] r2[k] as int, #[trigger] r2[l] as int) by {
        assert(r2[k] == v2[k + 1] && r2[l] == v2[l + 1]);
    }
    lemma_sorted_same(bv, r1, r2);
    assert(v1 =~= seq![a] + r1);
    assert(v2 =~= seq![b] + r2);
}

proof fn lemma_order_unique(bv: BoardV, v1: Seq<u32>, v2: Seq<u32>, d: DefId)
    requires
        iface_order(bv, v1, d),
        iface_order(bv, v2, d),
    ensures
        v1 == v2,
{
    assert forall|k: int, l: int| 0 <= k < l < v1.len() implies name_before(bv, #[trigger] v1[k] as int, #[trigger] v1[l] as int) by {
        lemma_order_pairwise(bv, v1, d, k, l);
    }
    assert forall|k: int, l: int| 0 <= k < l < v2.len() implies name_before(bv, #[trigger] v2[k] as int, #[trigger] v2[l] as int) by {
        lemma_order_pairwise(bv, v2, d, k, l);
    }
    assert forall|x: u32| #[trigger] v1.contains(x) <==> v2.contains(x) by {
        if v1.contains(x) {
            let k = choose|k: int| 0 <= k < v1.len() && v1[k] == x;
            assert(v1[k] < bv.2.len() && bv.2[v1[k] as int].0 == d);
            assert(bv.2[x as int].0 == d);
        }
        if v2.contains(x) {
            let k = choose|k: int| 0 <= k < v2.len() && v2[k] == x;
            assert(v2[k] < bv.2.len() && bv.2[v2[k] as int].0 == d);
            assert(bv.2[x as int].0 == d);
        }
    }
    lemma_sorted_same(bv, v1, v2);
}

/// A drawing has one interface: the same drawing always yields the same
/// pins in the same order.
pub proof fn law_iface_unique(bv: BoardV, p1: Seq<PinV>, p2: Seq<PinV>)
    requires
        follows_iface(bv, p1),
        follows_iface(bv, p2),
    ensures
        p1 == p2,
{
    let (i1, o1) = choose|ins: Seq<u32>, outs: Seq<u32>|
        #[trigger] iface_order(bv, ins, DefId::InputPin) && #[trigger] iface_order(bv, outs, DefId::OutputPin)
            && p1.len() == ins.len() + outs.len()
            && forall|k: int| 0 <= k < p1.len() ==> #[trigger] p1[k] == iface_pin(bv, ins, outs, k);
    let (i2, o2) = choose|ins: Seq<u32>, outs: Seq<u32>|
        #[trigger] iface_order(bv, ins, DefId::InputPin) && #[trigger] iface_order(bv, outs, DefId::OutputPin)
            && p2.len() == ins.len() + outs.len()
            && forall|k: int| 0 <= k < p2.len() ==> #[trigger] p2[k] == iface_pin(bv, ins, outs, k);
    lemma_order_unique(bv, i1, i2, DefId::InputPin);
    lemma_order_unique(bv, o1, o2, DefId::OutputPin);
    assert forall|k: int| 0 <= k < p1.len() implies p1[k] == p2[k] by {
        assert(p1[k] == iface_pin(bv, i1, o1, k));
        assert(p2[k] == iface_pin(bv, i2, o2, k));
    }
    assert(p1 =~= p2);
}


/// Value of binary digits read most significant digit first (a `'1'`
/// counts one, any other digit zero).
pub open spec fn binary_value(s: Seq<char>) -> nat
    decreases s.len(),
{
    if s.len() == 0 {
        0
    } else {
        2 * binary_value(s.drop_last()) + if s.last() == '1' { 1nat } else { 0nat }
    }
}

/// The digits `binary(n)` written into a VCD value line, read most
/// significant first, are `n`: they are only `'0'` and `'1'`, there is at
/// least one, and a nonzero number starts with `'1'`.
pub proof fn law_binary_reads_back(n: nat)
    ensures
        binary_value(binary(n)) == n,
        binary(n).len() >= 1,
        forall|i: int| 0 <= i < binary(n).len() ==> #[trigger] binary(n)[i] == '0' || binary(n)[i] == '1',
        n > 0 ==> binary(n)[0] == '1',
    decreases n,
{
    if n < 2 {
        let s = binary(n);
        assert(s.drop_last() =~= Seq::<char>::empty());
        assert(binary_value(Seq::<char>::empty()) == 0);
        assert(binary_value(s) == 2 * binary_value(s.drop_last()) + if s.last() == '1' { 1nat } else { 0nat });
    } else {
        law_binary_reads_back(n / 2);
        let s = binary(n / 2);
        let dg = if n % 2 == 1 { '1' } else { '0' };
        let t = s + seq![dg];
        assert(binary(n) == t);
        assert(t.drop_last() =~= s);
        assert(t.last() == dg);
        assert(binary_value(t) == 2 * binary_value(s) + if dg == '1' { 1nat } else { 0nat });
        assert(n == 2 * (n / 2) + n % 2);
        assert(t[0] == s[0]);
        assert forall|i: int| 0 <= i < t.len() implies #[trigger] t[i] == '0' || t[i] == '1' by {
            if i < s.len() {
                assert(t[i] == s[i]);
            }
        }
    }
}

} // verus!
