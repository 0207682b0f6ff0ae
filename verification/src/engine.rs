//! Tick simulation engine.
//!
//! One tick:
//!   A. every dirty component is evaluated on the net values at the start of
//!      the tick; its outputs are staged;
//!   B. the staged outputs are committed to their nets at once, and the nets
//!      whose value changed are recorded;
//!   C. the tick count advances.
//! Every component output is therefore delayed by exactly one tick, wires have
//! no delay, an unconnected input reads 0, and a component is dirty when one
//! of its input nets changed in the previous tick, when it is a free-running
//! clock, when its input value was set from outside, or on the first tick.
use vstd::prelude::*;
use crate::board::{Board, NO_NET};
use crate::defs::{eval, CompState, DefId, Params, in_count_spec, out_count_spec, step_spec, is_source_spec, is_passive_spec};
use crate::elaborate::{Flat, FlatComp, flat_ok, count_in, count_inputs};
use crate::values::{NetValue, Width, width_mask, low, mask};

verus! {

/// An instance with no evaluable component (a probe, say).
pub const NO_COMP: u32 = 0xFFFF_FFFF;

/// Run-time description of an evaluable component.
#[derive(Clone, Copy, Debug)]
struct CompRt {
    def: DefId,
    params: Params,
    in_start: u32,
    in_count: u16,
    out_start: u32,
    out_count: u16,
    /// Evaluated every tick (clock sources).
    always: bool,
    /// Flattened instance it stands for.
    inst: u32,
}

/// Discrete tick simulation engine.
pub struct Engine {
    comps: Vec<CompRt>,
    states: Vec<CompState>,
    /// Flattened instance -> component (`NO_COMP` = none).
    comp_of_inst: Vec<u32>,
    /// Global pin -> net.
    pin_net: Vec<u32>,
    net_val: Vec<NetValue>,
    net_width: Vec<Width>,
    /// Nets whose value changed in the last tick.
    changed: Vec<u32>,
    /// Components whose input value was set from outside since the last tick.
    forced: Vec<bool>,
    last_eval: u32,
    total_eval: u64,
    primed: bool,
    tick: u64,
}

/// The value a net holds after committing `v` to a net of width `w`.
pub open spec fn masked(v: NetValue, w: Width) -> NetValue {
    NetValue { val: low(v.val, w), unk: low(v.unk, w) }
}

/// Two values agree on the low `w` bits.
pub open spec fn agree(a: NetValue, b: NetValue, w: Width) -> bool {
    low(a.val ^ b.val, w) == 0 && low(a.unk ^ b.unk, w) == 0
}

impl Engine {
    /// Index sanity: every pin, net and component index is in range, and each
    /// component has exactly the pins its kind evaluates.
    pub closed spec fn wf(&self) -> bool {
        &&& self.states@.len() == self.comps@.len()
        &&& self.core_ok()
        &&& self.nets_masked()
    }

    /// Everything of `wf` but the states.
    closed spec fn core_ok(&self) -> bool {
        &&& self.forced@.len() == self.comps@.len()
        &&& self.comps@.len() < NO_COMP
        &&& self.net_width@.len() == self.net_val@.len()
        &&& self.net_val@.len() <= 0xFFFF_FFFF
        &&& self.pin_net@.len() <= 0xFFFF_FFFF
        &&& forall|c: int|
            0 <= c < self.comps@.len() ==> {
                let rt = #[trigger] self.comps@[c];
                &&& rt.in_start + rt.in_count <= self.pin_net@.len()
                &&& rt.out_start + rt.out_count <= self.pin_net@.len()
                &&& rt.in_count == in_count_spec(rt.def, rt.params)
                &&& rt.out_count == out_count_spec(rt.def, rt.params)
                &&& rt.always == (rt.def == DefId::Clock)
            }
        &&& forall|p: int| 0 <= p < self.pin_net@.len() ==> (#[trigger] self.pin_net@[p] == NO_NET || self.pin_net@[p]
            < self.net_val@.len())
        &&& forall|i: int| 0 <= i < self.comp_of_inst@.len() ==> (#[trigger] self.comp_of_inst@[i] == NO_COMP
            || self.comp_of_inst@[i] < self.comps@.len())
        &&& forall|j: int| 0 <= j < self.changed@.len() ==> (#[trigger] self.changed@[j]) < self.net_val@.len()
    }

    /// Every net value is cut to the width of its net.
    closed spec fn nets_masked(&self) -> bool {
        forall|n: int| 0 <= n < self.net_val@.len() ==> #[trigger] self.net_val@[n] == masked(self.net_val@[n], self.net_width@[n])
    }

    /// Ticks simulated since the last load or reset.
    pub closed spec fn ticks(&self) -> u64 {
        self.tick
    }

    /// Value of a net (zero outside the range).
    pub closed spec fn net_spec(&self, n: u32) -> NetValue {
        if n < self.net_val@.len() {
            self.net_val@[n as int]
        } else {
            NetValue { val: 0, unk: 0 }
        }
    }

    pub closed spec fn num_nets(&self) -> nat {
        self.net_val@.len()
    }

    pub closed spec fn num_comps(&self) -> nat {
        self.comps@.len()
    }

    /// Value read on an input net (an unconnected input reads 0).
    closed spec fn read(&self, n: u32) -> NetValue {
        if n == NO_NET {
            NetValue { val: 0, unk: 0 }
        } else {
            self.net_val@[n as int]
        }
    }

    /// Inputs of component `c` as read at the start of a tick.
    pub closed spec fn inputs_of(&self, c: int) -> Seq<NetValue> {
        let rt = self.comps@[c];
        Seq::new(rt.in_count as nat, |k: int| self.read(self.pin_net@[rt.in_start + k]))
    }

    /// Component `c` reads a net that changed in the last tick.
    closed spec fn reads_changed(&self, c: int) -> bool {
        let rt = self.comps@[c];
        exists|k: int|
            0 <= k < rt.in_count && #[trigger] self.changed@.contains(self.pin_net@[rt.in_start + k])
                && self.pin_net@[rt.in_start + k] != NO_NET
    }

    /// Component `c` is evaluated by the next tick.
    pub closed spec fn dirty(&self, c: int) -> bool {
        !self.primed || self.comps@[c].always || self.forced@[c] || self.reads_changed(c)
    }

    /// Outputs and next state of component `c` when evaluated now.
    pub closed spec fn stepped(&self, c: int) -> (Seq<NetValue>, u32, u8, u32, Seq<u32>) {
        self.stepped_with(c, self.states@)
    }

    /// Outputs and next state of component `c` from state list `sts`.
    pub closed spec fn stepped_with(&self, c: int, sts: Seq<CompState>) -> (Seq<NetValue>, u32, u8, u32, Seq<u32>) {
        let rt = self.comps@[c];
        let st = sts[c];
        step_spec(
            rt.def,
            rt.params,
            self.inputs_of(c),
            st.reg,
            st.prev_clk,
            st.cnt,
            st.mem@,
            Seq::new(rt.out_count as nat, |k: int| NetValue { val: 0, unk: 0 }),
        )
    }

    /// Net of output `k` of component `c`.
    pub closed spec fn out_net(&self, c: int, k: int) -> u32 {
        self.pin_net@[self.comps@[c].out_start + k]
    }

    pub closed spec fn out_count_of(&self, c: int) -> int {
        self.comps@[c].out_count as int
    }

    pub closed spec fn width_of(&self, n: u32) -> Width {
        self.net_width@[n as int]
    }

    /// State of component `c`: latched value, clock level, counter, memory.
    pub closed spec fn state_of(&self, c: int) -> (u32, u8, u32, Seq<u32>) {
        st_view(self.states@[c])
    }

    pub fn new() -> (e: Engine)
        ensures
            e.wf(),
            e.ticks() == 0,
            e.num_nets() == 0,
            e.num_comps() == 0,
    {
        Engine {
            comps: Vec::new(),
            states: Vec::new(),
            comp_of_inst: Vec::new(),
            pin_net: Vec::new(),
            net_val: Vec::new(),
            net_width: Vec::new(),
            changed: Vec::new(),
            forced: Vec::new(),
            last_eval: 0,
            total_eval: 0,
            primed: false,
            tick: 0,
        }
    }
}

/// The two engines are wired alike: the same nets, widths, pins and
/// components (kinds, instances, first pins); parameters, states and values
/// may differ.
pub open spec fn same_wiring(a: Engine, b: Engine) -> bool {
    &&& a.num_nets() == b.num_nets()
    &&& a.num_pins() == b.num_pins()
    &&& a.num_comps() == b.num_comps()
    &&& forall|p: int| #[trigger] a.pin_net_spec(p) == b.pin_net_spec(p)
    &&& forall|n: u32| #[trigger] a.width_of(n) == b.width_of(n)
    &&& forall|c: int| 0 <= c < a.num_comps() ==> #[trigger] a.comp_def(c) == b.comp_def(c)
    &&& forall|c: int| 0 <= c < a.num_comps() ==> #[trigger] a.comp_inst(c) == b.comp_inst(c)
    &&& forall|c: int| 0 <= c < a.num_comps() ==> #[trigger] a.comp_pin_start(c) == b.comp_pin_start(c)
    &&& forall|i: int| #[trigger] a.comp_index(i) == b.comp_index(i)
}

/// The engine holds the circuit of the flattened netlist `f`: its nets with
/// their widths, its pins, and each of its components, in order, with its
/// kind, instance and pins.
pub open spec fn loaded_from(e: Engine, f: Flat) -> bool {
    &&& e.num_nets() == f.net_count
    &&& e.num_pins() == f.pin_net@.len()
    &&& forall|p: int| 0 <= p < f.pin_net@.len() ==> #[trigger] e.pin_net_spec(p) == f.pin_net@[p]
    &&& forall|n: u32|
        n < f.net_count ==> #[trigger] e.width_of(n) == net_width_from(f.pin_net@, f.pin_width@, n, f.pin_net@.len() as int)
    &&& e.num_comps() == f.comps@.len()
    &&& forall|c: int|
        0 <= c < e.num_comps() ==> {
            let fc = #[trigger] f.comps@[c];
            &&& e.comp_def(c) == fc.def
            &&& e.comp_inst(c) == fc.global_inst
            &&& e.comp_pin_start(c) == fc.pin_start
        }
    &&& forall|i: int|
        0 <= i < f.inst_count ==> {
            let ci = #[trigger] e.comp_index(i);
            &&& (ci == NO_COMP <==> forall|c: int| 0 <= c < e.num_comps() ==> e.comp_inst(c) != i)
            &&& (ci != NO_COMP ==> ci < e.num_comps() && e.comp_inst(ci as int) == i)
        }
}

/// A flattened component whose pin counts are those of its kind: the
/// engine evaluates a component through the pins its kind reads and writes.
pub open spec fn comp_fits(fc: FlatComp) -> bool {
    fc.in_count == in_count_spec(fc.def, fc.params) && fc.out_count == out_count_spec(fc.def, fc.params)
}

/// A flattened netlist the engine can run: every component has the pin
/// counts of its kind (one with fewer would be read past its pins on the
/// first tick), and the component and pin counts fit the `u32` indices.
pub open spec fn loadable(f: Flat) -> bool {
    &&& f.comps@.len() < NO_COMP
    &&& f.pin_net@.len() < 0xFFFF_FFFF
    &&& forall|c: int| 0 <= c < f.comps@.len() ==> comp_fits(#[trigger] f.comps@[c])
}

/// Whether the engine can run `flat` (see `loadable`).
pub fn can_load(flat: &Flat) -> (r: bool)
    ensures
        r == loadable(*flat),
{
    if flat.comps.len() >= NO_COMP as usize || flat.pin_net.len() >= 0xFFFF_FFFF {
        return false;
    }
    let mut c: usize = 0;
    while c < flat.comps.len()
        invariant
            c <= flat.comps@.len(),
            forall|j: int| 0 <= j < c ==> comp_fits(#[trigger] flat.comps@[j]),
        decreases flat.comps@.len() - c,
    {
        let fc = &flat.comps[c];
        if fc.in_count as usize != fc.def.in_count(&fc.params) || fc.out_count as usize != fc.def.out_count(&fc.params) {
            return false;
        }
        c = c + 1;
    }
    true
}

/// Every instance of the drawing that becomes a component has the pins of
/// its kind: inputs first, as many as the kind reads, then its outputs.
pub open spec fn kinds_fit(b: Board) -> bool {
    forall|i: int|
        0 <= i < b.instances@.len() && !is_passive_spec(#[trigger] b.instances@[i].def) ==> {
            let it = b.instances@[i];
            &&& count_in(it.pins@) == in_count_spec(it.def, it.params)
            &&& it.pins@.len() - count_in(it.pins@) == out_count_spec(it.def, it.params)
        }
}

/// Whether every component instance of the drawing has the pins of its kind.
pub fn board_kinds_fit(b: &Board) -> (r: bool)
    ensures
        r == kinds_fit(*b),
{
    let mut i: usize = 0;
    while i < b.instances.len()
        invariant
            i <= b.instances@.len(),
            forall|j: int|
                0 <= j < i && !is_passive_spec(#[trigger] b.instances@[j].def) ==> {
                    let it = b.instances@[j];
                    &&& count_in(it.pins@) == in_count_spec(it.def, it.params)
                    &&& it.pins@.len() - count_in(it.pins@) == out_count_spec(it.def, it.params)
                },
        decreases b.instances@.len() - i,
    {
        let it = &b.instances[i];
        if !it.def.is_passive() {
            let ins = count_inputs(&it.pins);
            if ins != it.def.in_count(&it.params) || it.pins.len() - ins != it.def.out_count(&it.params) {
                return false;
            }
        }
        i = i + 1;
    }
    true
}

/// Width of net `n` from the first `upto` pins: the widest of its pins, at least 1.
pub open spec fn net_width_from(pin_net: Seq<u32>, pin_width: Seq<Width>, n: u32, upto: int) -> Width
    decreases upto,
{
    if upto <= 0 {
        1
    } else {
        let w = net_width_from(pin_net, pin_width, n, upto - 1);
        if pin_net[upto - 1] == n && pin_width[upto - 1] > w {
            pin_width[upto - 1]
        } else {
            w
        }
    }
}

spec fn rt_of(fc: FlatComp) -> CompRt {
    CompRt {
        def: fc.def,
        params: fc.params,
        in_start: fc.pin_start,
        in_count: fc.in_count,
        out_start: (fc.pin_start + fc.in_count) as u32,
        out_count: fc.out_count,
        always: fc.def == DefId::Clock,
        inst: fc.global_inst,
    }
}

impl Engine {
    /// Kind of component `c`.
    pub closed spec fn comp_def(&self, c: int) -> DefId {
        self.comps@[c].def
    }

    /// Parameters of component `c`.
    pub closed spec fn comp_params(&self, c: int) -> Params {
        self.comps@[c].params
    }

    /// Flattened instance that component `c` stands for.
    pub closed spec fn comp_inst(&self, c: int) -> u32 {
        self.comps@[c].inst
    }

    /// First global pin of component `c` (its inputs, then its outputs).
    pub closed spec fn comp_pin_start(&self, c: int) -> u32 {
        self.comps@[c].in_start
    }

    /// Component of flattened instance `i`, or `NO_COMP`.
    pub closed spec fn comp_index(&self, i: int) -> u32 {
        if 0 <= i < self.comp_of_inst@.len() {
            self.comp_of_inst@[i]
        } else {
            NO_COMP
        }
    }

    /// Net of global pin `p` (`NO_NET` when unconnected or out of range).
    pub closed spec fn pin_net_spec(&self, p: int) -> u32 {
        if 0 <= p < self.pin_net@.len() {
            self.pin_net@[p]
        } else {
            NO_NET
        }
    }

    pub closed spec fn num_pins(&self) -> nat {
        self.pin_net@.len()
    }

    /// Rebuilds the run-time structure from a flattened netlist, taking over
    /// its states (the netlist is left without them).
    pub fn load_flat(&mut self, flat: &mut Flat)
        requires
            flat_ok(old(flat)),
            loadable(*old(flat)),
        ensures
            final(self).wf(),
            final(self).ticks() == 0,
            final(self).num_nets() == old(flat).net_count,
            final(self).num_pins() == old(flat).pin_net@.len(),
            forall|p: int| 0 <= p < old(flat).pin_net@.len() ==> #[trigger] final(self).pin_net_spec(p) == old(flat).pin_net@[p],
            forall|n: u32|
                n < old(flat).net_count ==> #[trigger] final(self).width_of(n) == net_width_from(
                    old(flat).pin_net@,
                    old(flat).pin_width@,
                    n,
                    old(flat).pin_net@.len() as int,
                ),
            final(self).num_comps() == old(flat).comps@.len(),
            forall|c: int|
                0 <= c < final(self).num_comps() ==> {
                    let fc = #[trigger] old(flat).comps@[c];
                    &&& final(self).comp_def(c) == fc.def
                    &&& final(self).comp_params(c) == fc.params
                    &&& final(self).comp_inst(c) == fc.global_inst
                    &&& final(self).comp_pin_start(c) == fc.pin_start
                    &&& final(self).state_of(c) == st_view(old(flat).states@[c])
                },
            forall|i: int|
                0 <= i < old(flat).inst_count ==> {
                    let ci = #[trigger] final(self).comp_index(i);
                    &&& (ci == NO_COMP <==> forall|c: int| 0 <= c < final(self).num_comps() ==> final(self).comp_inst(c) != i)
                    &&& (ci != NO_COMP ==> ci < final(self).num_comps() && final(self).comp_inst(ci as int) == i)
                },
            forall|n: u32| n < old(flat).net_count ==> #[trigger] final(self).net_spec(n) == (NetValue { val: 0, unk: 0 }),
            forall|c: int| 0 <= c < final(self).num_comps() ==> #[trigger] final(self).dirty(c),
            final(flat).states@.len() == 0,
            final(flat).comps@ == old(flat).comps@,
            final(flat).pin_net@ == old(flat).pin_net@,
            final(flat).pin_width@ == old(flat).pin_width@,
            final(flat).net_count == old(flat).net_count,
            final(flat).net_map@ == old(flat).net_map@,
            final(flat).inst_map@ == old(flat).inst_map@,
            final(flat).pin_start@ == old(flat).pin_start@,
            final(flat).inst_count == old(flat).inst_count,
            final(flat).truncated == old(flat).truncated,
            loaded_from(*final(self), *old(flat)),
    {
        let ghost fcs = flat.comps@;
        let ghost sts0 = flat.states@;
        let mut taken: Vec<CompState> = Vec::new();
        std::mem::swap(&mut taken, &mut flat.states);
        let np = flat.pin_net.len();
        let nets = flat.net_count as usize;
        let ninst = flat.inst_count as usize;
        let mut comps: Vec<CompRt> = Vec::new();
        let mut states: Vec<CompState> = Vec::new();
        let mut comp_of_inst: Vec<u32> = Vec::new();
        let mut i: usize = 0;
        while i < ninst
            invariant
                i <= ninst,
                comp_of_inst@.len() == i,
                forall|j: int| 0 <= j < i ==> #[trigger] comp_of_inst@[j] == NO_COMP,
            decreases ninst - i,
        {
            comp_of_inst.push(NO_COMP);
            i = i + 1;
        }
        let nfc = flat.comps.len();
        let mut c: usize = 0;
        while c < nfc
            invariant
                forall|j: int|
                    0 <= j < nfc ==> (#[trigger] fcs[j]).pin_start + fcs[j].in_count + fcs[j].out_count <= np
                        && fcs[j].global_inst < ninst,
                fcs == flat.comps@,
                nfc == fcs.len(),
                nfc < NO_COMP,
                c <= nfc,
                np == flat.pin_net@.len(),
                np < 0xFFFF_FFFF,
                ninst == flat.inst_count,
                taken@.len() == nfc,
                sts0.len() == nfc,
                forall|j: int| c <= j < nfc ==> #[trigger] taken@[j] == sts0[j],
                comp_of_inst@.len() == ninst,
                states@.len() == comps@.len(),
                comps@.len() == c,
                forall|k: int| 0 <= k < comps@.len() ==> #[trigger] comps@[k] == rt_of(fcs[k]),
                forall|k: int| 0 <= k < comps@.len() ==> #[trigger] st_view(states@[k]) == st_view(sts0[k]),
                forall|j: int| 0 <= j < ninst ==> {
                    let ci = #[trigger] comp_of_inst@[j];
                    &&& (ci == NO_COMP <==> forall|k: int| 0 <= k < comps@.len() ==> comps@[k].inst != j)
                    &&& (ci != NO_COMP ==> ci < comps@.len() && comps@[ci as int].inst == j)
                },
            decreases nfc - c,
        {
            let fc = &flat.comps[c];
            let mut st = CompState::default();
            std::mem::swap(&mut st, &mut taken[c]);
            let k = comps.len();
            let g = fc.global_inst;
            comps.push(CompRt {
                def: fc.def,
                params: fc.params,
                in_start: fc.pin_start,
                in_count: fc.in_count,
                out_start: fc.pin_start + fc.in_count as u32,
                out_count: fc.out_count,
                always: fc.def == DefId::Clock,
                inst: g,
            });
            states.push(st);
            let ghost cm0 = comp_of_inst@;
            comp_of_inst.set(g as usize, k as u32);
            proof {
                assert(comps@[k as int] == rt_of(fcs[c as int]));
                assert forall|j: int| 0 <= j < ninst implies {
                    let ci = #[trigger] comp_of_inst@[j];
                    &&& (ci == NO_COMP <==> forall|k2: int| 0 <= k2 < comps@.len() ==> comps@[k2].inst != j)
                    &&& (ci != NO_COMP ==> ci < comps@.len() && comps@[ci as int].inst == j)
                } by {
                    if j != g {
                        assert(comp_of_inst@[j] == cm0[j]);
                        if cm0[j] == NO_COMP {
                            assert forall|k2: int| 0 <= k2 < comps@.len() implies comps@[k2].inst != j by {
                                if k2 < k {
                                    assert(comps@[k2].inst != j);
                                }
                            }
                        } else {
                            assert(comps@[cm0[j] as int].inst == j);
                        }
                    } else {
                        assert(comps@[k as int].inst == j);
                    }
                }
            }
            c = c + 1;
        }
        let mut net_val: Vec<NetValue> = Vec::new();
        let mut net_width: Vec<Width> = Vec::new();
        let mut n: usize = 0;
        while n < nets
            invariant
                n <= nets,
                net_val@.len() == n,
                net_width@.len() == n,
                forall|j: int| 0 <= j < n ==> #[trigger] net_val@[j] == (NetValue { val: 0, unk: 0 }),
                forall|j: int| 0 <= j < n ==> #[trigger] net_width@[j] == 1,
            decreases nets - n,
        {
            net_val.push(NetValue::zero());
            net_width.push(1);
            n = n + 1;
        }
        let mut p: usize = 0;
        while p < np
            invariant
                forall|q: int| 0 <= q < np ==> (#[trigger] flat.pin_net@[q] == NO_NET || flat.pin_net@[q] < nets),
                flat.pin_width@.len() == np,
                np == flat.pin_net@.len(),
                p <= np,
                net_width@.len() == nets,
                net_val@.len() == nets,
                nets == flat.net_count,
                forall|j: int| 0 <= j < nets ==> #[trigger] net_val@[j] == (NetValue { val: 0, unk: 0 }),
                forall|m: int| 0 <= m < nets ==> #[trigger] net_width@[m] == net_width_from(flat.pin_net@, flat.pin_width@, m as u32, p as int),
            decreases np - p,
        {
            let m = flat.pin_net[p];
            let ghost nw0 = net_width@;
            if m != NO_NET && flat.pin_width[p] > net_width[m as usize] {
                net_width.set(m as usize, flat.pin_width[p]);
            }
            proof {
                assert forall|m2: int| 0 <= m2 < nets implies #[trigger] net_width@[m2] == net_width_from(flat.pin_net@, flat.pin_width@, m2 as u32, p as int + 1) by {
                    assert(net_width_from(flat.pin_net@, flat.pin_width@, m2 as u32, p as int + 1) == {
                        let w = net_width_from(flat.pin_net@, flat.pin_width@, m2 as u32, p as int);
                        if flat.pin_net@[p as int] == m2 as u32 && flat.pin_width@[p as int] > w { flat.pin_width@[p as int] } else { w }
                    });
                    assert(nw0[m2] == net_width_from(flat.pin_net@, flat.pin_width@, m2 as u32, p as int));
                }
            }
            p = p + 1;
        }
        let pin_net = flat.pin_net.clone();
        proof {
            assert forall|j: int| 0 <= j < net_val@.len() implies #[trigger] net_val@[j] == masked(net_val@[j], net_width@[j]) by {
                lemma_zero_masked(net_width@[j]);
            }
        }
        let mut forced: Vec<bool> = Vec::new();
        let mut k: usize = 0;
        while k < comps.len()
            invariant
                k <= comps@.len(),
                forced@.len() == k,
            decreases comps@.len() - k,
        {
            forced.push(false);
            k = k + 1;
        }
        self.comps = comps;
        self.states = states;
        self.comp_of_inst = comp_of_inst;
        self.pin_net = pin_net;
        self.net_val = net_val;
        self.net_width = net_width;
        self.changed = Vec::new();
        self.forced = forced;
        self.last_eval = 0;
        self.primed = false;
        self.tick = 0;
        proof {
            assert forall|c2: int| 0 <= c2 < self.comps@.len() implies {
                let rt = #[trigger] self.comps@[c2];
                &&& rt.in_start + rt.in_count <= self.pin_net@.len()
                &&& rt.out_start + rt.out_count <= self.pin_net@.len()
                &&& rt.in_count == in_count_spec(rt.def, rt.params)
                &&& rt.out_count == out_count_spec(rt.def, rt.params)
                &&& rt.always == (rt.def == DefId::Clock)
            } by {
                assert(comp_fits(fcs[c2]));
            }
            assert forall|i2: int| 0 <= i2 < ninst implies {
                let ci = #[trigger] self.comp_index(i2);
                &&& (ci == NO_COMP <==> forall|c3: int| 0 <= c3 < self.num_comps() ==> self.comp_inst(c3) != i2)
                &&& (ci != NO_COMP ==> ci < self.num_comps() && self.comp_inst(ci as int) == i2)
            } by {
                let ci = self.comp_of_inst@[i2];
                if ci == NO_COMP {
                    assert forall|c3: int| 0 <= c3 < self.num_comps() implies self.comp_inst(c3) != i2 by {
                        assert(self.comps@[c3].inst != i2);
                    }
                } else {
                    if forall|c3: int| 0 <= c3 < self.num_comps() ==> self.comp_inst(c3) != i2 {
                        assert(self.comp_inst(ci as int) != i2);
                    }
                }
            }
        }
    }
}

/// Output `k` of component `c` is the only evaluated output driving its net.
pub open spec fn sole_driver(e: &Engine, c: int, k: int) -> bool {
    forall|c2: int, k2: int|
        0 <= c2 < e.num_comps() && 0 <= k2 < e.out_count_of(c2) && e.dirty(c2) && #[trigger] e.out_net(c2, k2) == e.out_net(c, k)
            ==> c2 == c && k2 == k
}

proof fn lemma_zero_masked(w: Width)
    ensures
        masked(NetValue { val: 0, unk: 0 }, w) == (NetValue { val: 0, unk: 0 }),
{
    crate::values::lemma_and_mask(0, w);
    let m = mask(w);
    assert(0u32 & m == 0) by (bit_vector);
}

proof fn lemma_masked_idem(v: NetValue, w: Width)
    ensures
        masked(masked(v, w), w) == masked(v, w),
{
    crate::values::lemma_and_mask(v.val, w);
    crate::values::lemma_and_mask(v.unk, w);
    crate::values::lemma_and_mask(v.val & mask(w), w);
    crate::values::lemma_and_mask(v.unk & mask(w), w);
    let m = mask(w);
    let (a, b) = (v.val, v.unk);
    assert((a & m) & m == a & m) by (bit_vector);
    assert((b & m) & m == b & m) by (bit_vector);
}

proof fn lemma_agree_sym(a: NetValue, b: NetValue, w: Width)
    requires
        agree(a, b, w),
    ensures
        agree(b, a, w),
{
    let (x, y) = (a.val, b.val);
    assert(x ^ y == y ^ x) by (bit_vector);
    let (x, y) = (a.unk, b.unk);
    assert(x ^ y == y ^ x) by (bit_vector);
}

proof fn lemma_agree_masked_eq(a: NetValue, b: NetValue, w: Width)
    requires
        agree(a, b, w),
        a == masked(a, w),
        b == masked(b, w),
    ensures
        a == b,
{
    let m = mask(w);
    crate::values::lemma_and_mask(a.val, w);
    crate::values::lemma_and_mask(b.val, w);
    crate::values::lemma_and_mask(a.unk, w);
    crate::values::lemma_and_mask(b.unk, w);
    crate::values::lemma_and_mask(a.val ^ b.val, w);
    crate::values::lemma_and_mask(a.unk ^ b.unk, w);
    let (x, y) = (a.val, b.val);
    assert(x & m == x && y & m == y && (x ^ y) & m == 0 ==> x == y) by (bit_vector);
    let (x, y) = (a.unk, b.unk);
    assert(x & m == x && y & m == y && (x ^ y) & m == 0 ==> x == y) by (bit_vector);
}

proof fn lemma_masked_agrees(v: NetValue, w: Width)
    ensures
        agree(masked(v, w), v, w),
{
    crate::values::lemma_and_mask(v.val, w);
    crate::values::lemma_and_mask(v.unk, w);
    let m = mask(w);
    let a = v.val;
    let b = v.unk;
    assert(((a & m) ^ a) & m == 0) by (bit_vector);
    assert(((b & m) ^ b) & m == 0) by (bit_vector);
    crate::values::lemma_and_mask((a & m) ^ a, w);
    crate::values::lemma_and_mask((b & m) ^ b, w);
}

proof fn lemma_agree_trans(a: NetValue, b: NetValue, c: NetValue, w: Width)
    requires
        agree(a, b, w),
        agree(b, c, w),
    ensures
        agree(a, c, w),
{
    let m = mask(w);
    crate::values::lemma_and_mask(a.val ^ b.val, w);
    crate::values::lemma_and_mask(b.val ^ c.val, w);
    crate::values::lemma_and_mask(a.val ^ c.val, w);
    crate::values::lemma_and_mask(a.unk ^ b.unk, w);
    crate::values::lemma_and_mask(b.unk ^ c.unk, w);
    crate::values::lemma_and_mask(a.unk ^ c.unk, w);
    let (x, y, z) = (a.val, b.val, c.val);
    assert((x ^ y) & m == 0 && (y ^ z) & m == 0 ==> (x ^ z) & m == 0) by (bit_vector);
    let (x, y, z) = (a.unk, b.unk, c.unk);
    assert((x ^ y) & m == 0 && (y ^ z) & m == 0 ==> (x ^ z) & m == 0) by (bit_vector);
}

impl Engine {
    /// Flags of the nets that changed in the last tick.
    fn changed_flags(&self) -> (f: Vec<bool>)
        requires
            self.core_ok(),
        ensures
            f@.len() == self.net_val@.len(),
            forall|n: int| 0 <= n < f@.len() ==> (#[trigger] f@[n] <==> self.changed@.contains(n as u32)),
    {
        let nets = self.net_val.len();
        let mut f: Vec<bool> = Vec::new();
        let mut i: usize = 0;
        while i < nets
            invariant
                i <= nets,
                f@.len() == i,
                forall|n: int| 0 <= n < i ==> !#[trigger] f@[n],
            decreases nets - i,
        {
            f.push(false);
            i = i + 1;
        }
        let mut j: usize = 0;
        while j < self.changed.len()
            invariant
                self.core_ok(),
                nets == self.net_val@.len(),
                j <= self.changed@.len(),
                f@.len() == nets,
                forall|n: int| 0 <= n < nets ==> (#[trigger] f@[n] <==> exists|j2: int| 0 <= j2 < j && self.changed@[j2] == n),
            decreases self.changed@.len() - j,
        {
            let n = self.changed[j] as usize;
            f.set(n, true);
            proof {
                assert forall|m: int| 0 <= m < nets implies (#[trigger] f@[m] <==> exists|j2: int| 0 <= j2 < j + 1 && self.changed@[j2] == m) by {
                    if m == n {
                        assert(self.changed@[j as int] == m);
                    }
                }
            }
            j = j + 1;
        }
        proof {
            assert forall|n: int| 0 <= n < f@.len() implies (#[trigger] f@[n] <==> self.changed@.contains(n as u32)) by {
                if self.changed@.contains(n as u32) {
                    let j2 = choose|j2: int| 0 <= j2 < self.changed@.len() && self.changed@[j2] == n as u32;
                }
            }
        }
        f
    }

    /// Whether component `c` is evaluated by the next tick.
    fn is_dirty(&self, c: usize, flags: &Vec<bool>) -> (r: bool)
        requires
            self.core_ok(),
            c < self.comps@.len(),
            flags@.len() == self.net_val@.len(),
            forall|n: int| 0 <= n < flags@.len() ==> (#[trigger] flags@[n] <==> self.changed@.contains(n as u32)),
        ensures
            r == self.dirty(c as int),
    {
        if !self.primed || self.comps[c].always || self.forced[c] {
            return true;
        }
        let rt = &self.comps[c];
        let np = self.pin_net.len();
        assert(rt.in_start + rt.in_count <= self.pin_net@.len());
        let mut k: usize = 0;
        while k < rt.in_count as usize
            invariant
                self.core_ok(),
                c < self.comps@.len(),
                *rt == self.comps@[c as int],
                rt.in_start + rt.in_count <= self.pin_net@.len(),
                np == self.pin_net@.len(),
                flags@.len() == self.net_val@.len(),
                forall|n: int| 0 <= n < flags@.len() ==> (#[trigger] flags@[n] <==> self.changed@.contains(n as u32)),
                k <= rt.in_count,
                forall|k2: int|
                    0 <= k2 < k ==> !(#[trigger] self.changed@.contains(self.pin_net@[rt.in_start + k2])
                        && self.pin_net@[rt.in_start + k2] != NO_NET),
            decreases rt.in_count - k,
        {
            let n = self.pin_net[rt.in_start as usize + k];
            if n != NO_NET && flags[n as usize] {
                return true;
            }
            k = k + 1;
        }
        false
    }

    /// Input values of component `c` as read now.
    fn gather(&self, c: usize) -> (ins: Vec<NetValue>)
        requires
            self.core_ok(),
            c < self.comps@.len(),
        ensures
            ins@ == self.inputs_of(c as int),
    {
        let rt = &self.comps[c];
        let np = self.pin_net.len();
        let mut ins: Vec<NetValue> = Vec::new();
        let mut k: usize = 0;
        while k < rt.in_count as usize
            invariant
                self.core_ok(),
                c < self.comps@.len(),
                *rt == self.comps@[c as int],
                rt.in_start + rt.in_count <= self.pin_net@.len(),
                np == self.pin_net@.len(),
                k <= rt.in_count,
                ins@ == self.inputs_of(c as int).subrange(0, k as int),
            decreases rt.in_count - k,
        {
            let n = self.pin_net[rt.in_start as usize + k];
            let v = if n == NO_NET { NetValue::zero() } else { self.net_val[n as usize] };
            ins.push(v);
            assert(ins@ =~= self.inputs_of(c as int).subrange(0, k as int + 1));
            k = k + 1;
        }
        assert(ins@ =~= self.inputs_of(c as int));
        ins
    }
}

pub open spec fn st_view(s: CompState) -> (u32, u8, u32, Seq<u32>) {
    (s.reg, s.prev_clk, s.cnt, s.mem@)
}

/// `sts` holds, for each component, the state that one tick from `pre` leaves.
spec fn states_stepped(pre: &Engine, sts: Seq<CompState>) -> bool {
    forall|c: int| 0 <= c < pre.comps@.len() ==> #[trigger] st_view(sts[c]) == (if pre.dirty(c) {
        let r = pre.stepped(c);
        (r.1, r.2, r.3, r.4)
    } else {
        st_view(pre.states@[c])
    })
}

/// Number of components below `c` evaluated by the next tick.
pub open spec fn count_dirty(e: &Engine, c: int) -> nat
    decreases c,
{
    if c <= 0 {
        0
    } else {
        count_dirty(e, c - 1) + if e.dirty(c - 1) { 1nat } else { 0nat }
    }
}

/// Staged outputs of one tick: entry `j` is output `src[j].1` of component
/// `src[j].0`, on its net.
pub open spec fn staged_ok_with(pre: &Engine, sts: Seq<CompState>, staged: Seq<(u32, NetValue)>, src: Seq<(int, int)>, upto: int) -> bool {
    &&& src.len() == staged.len()
    &&& forall|j: int|
        0 <= j < src.len() ==> {
            let (ci, ki) = #[trigger] src[j];
            &&& 0 <= ci < upto
            &&& 0 <= ki < pre.out_count_of(ci)
            &&& pre.dirty(ci)
            &&& staged[j].0 == pre.out_net(ci, ki)
            &&& staged[j].0 != NO_NET
            &&& staged[j].0 < pre.num_nets()
            &&& staged[j].1 == pre.stepped_with(ci, sts).0[ki]
        }
    &&& forall|j1: int, j2: int| 0 <= j1 < src.len() && 0 <= j2 < src.len() && j1 != j2 ==> #[trigger] src[j1] != #[trigger] src[j2]
    &&& forall|ci: int, ki: int|
        0 <= ci < upto && 0 <= ki < pre.out_count_of(ci) && pre.dirty(ci) && #[trigger] pre.out_net(ci, ki) != NO_NET
            ==> exists|j: int| 0 <= j < src.len() && src[j] == (ci, ki)
}

impl Engine {
    /// Phase A: evaluates the dirty components on the current net values,
    /// updating their states, and stages their outputs.
    #[verifier::rlimit(60)]
    #[verifier::spinoff_prover]
    fn evaluate(&self, states: &mut Vec<CompState>, flags: &Vec<bool>) -> (r: (Vec<(u32, NetValue)>, u32, Ghost<Seq<(int, int)>>))
        requires
            self.core_ok(),
            old(states)@.len() == self.comps@.len(),
            flags@.len() == self.net_val@.len(),
            forall|n: int| 0 <= n < flags@.len() ==> (#[trigger] flags@[n] <==> self.changed@.contains(n as u32)),
        ensures
            final(states)@.len() == old(states)@.len(),
            forall|i: int| 0 <= i < self.comps@.len() ==> #[trigger] st_view(final(states)@[i]) == (if self.dirty(i) {
                let r = self.stepped_with(i, old(states)@);
                (r.1, r.2, r.3, r.4)
            } else {
                st_view(old(states)@[i])
            }),
            r.1 == count_dirty(self, self.comps@.len() as int),
            staged_ok_with(self, old(states)@, r.0@, r.2@, self.comps@.len() as int),
    {
        let nc = self.comps.len();
        let mut staged: Vec<(u32, NetValue)> = Vec::new();
        let ghost mut src: Seq<(int, int)> = Seq::empty();
        let ghost st0 = states@;
        let mut evals: u32 = 0;
        let mut c: usize = 0;
        while c < nc
            invariant
                c <= nc,
                nc == self.comps@.len(),
                nc < NO_COMP,
                self.core_ok(),
                states@.len() == nc,
                st0.len() == nc,
                flags@.len() == self.net_val@.len(),
                forall|n: int| 0 <= n < flags@.len() ==> (#[trigger] flags@[n] <==> self.changed@.contains(n as u32)),
                evals == count_dirty(self, c as int),
                evals <= c,
                forall|i: int| 0 <= i < c ==> #[trigger] st_view(states@[i]) == (if self.dirty(i) {
                    let r = self.stepped_with(i, st0);
                    (r.1, r.2, r.3, r.4)
                } else {
                    st_view(st0[i])
                }),
                forall|i: int| c <= i < nc ==> #[trigger] st_view(states@[i]) == st_view(st0[i]),
                staged_ok_with(self, st0, staged@, src, c as int),
            decreases nc - c,
        {
            proof {
                assert(count_dirty(self, c as int + 1) == count_dirty(self, c as int) + if self.dirty(c as int) { 1nat } else { 0nat });
            }
            if self.is_dirty(c, flags) {
                let ins = self.gather(c);
                let rt = &self.comps[c];
                let no = rt.out_count as usize;
                let mut outs: Vec<NetValue> = Vec::new();
                let mut k: usize = 0;
                while k < no
                    invariant
                        k <= no,
                        outs@.len() == k,
                        forall|j: int| 0 <= j < k ==> #[trigger] outs@[j] == (NetValue { val: 0, unk: 0 }),
                    decreases no - k,
                {
                    outs.push(NetValue::zero());
                    k = k + 1;
                }
                proof {
                    assert(outs@ =~= Seq::new(rt.out_count as nat, |k: int| NetValue { val: 0, unk: 0 }));
                    assert(st_view(states@[c as int]) == st_view(st0[c as int]));
                }
                eval(rt.def, &rt.params, ins.as_slice(), &mut states[c], &mut outs);
                let ghost src0 = src;
                let ghost staged0 = staged@;
                let mut k2: usize = 0;
                while k2 < no
                    invariant
                        k2 <= no,
                        c < nc,
                        nc == self.comps@.len(),
                        self.core_ok(),
                        *rt == self.comps@[c as int],
                        no == rt.out_count,
                        rt.out_start + rt.out_count <= self.pin_net@.len(),
                        self.dirty(c as int),
                        outs@ == self.stepped_with(c as int, st0).0,
                        outs@.len() == no,
                        src.len() == staged@.len(),
                        src0.len() <= src.len(),
                        staged_ok_with(self, st0, staged0, src0, c as int),
                        forall|j: int| 0 <= j < src0.len() ==> #[trigger] src[j] == src0[j],
                        forall|j: int| 0 <= j < src0.len() ==> #[trigger] staged@[j] == staged0[j],
                        forall|j: int|
                            src0.len() <= j < src.len() ==> {
                                let (ci, ki) = #[trigger] src[j];
                                &&& ci == c
                                &&& 0 <= ki < k2
                                &&& staged@[j].0 == self.out_net(ci, ki)
                                &&& staged@[j].0 != NO_NET
                                &&& staged@[j].0 < self.net_val@.len()
                                &&& staged@[j].1 == self.stepped_with(ci, st0).0[ki]
                            },
                        forall|j1: int, j2: int| src0.len() <= j1 < j2 < src.len() ==> (#[trigger] src[j1]).1 < (#[trigger] src[j2]).1,
                        forall|ki: int|
                            0 <= ki < k2 && #[trigger] self.out_net(c as int, ki) != NO_NET ==> exists|j: int|
                                src0.len() <= j < src.len() && src[j] == (c as int, ki),
                    decreases no - k2,
                {
                    let np = self.pin_net.len();
                    assert(rt.out_start + k2 < np);
                    let n = self.pin_net[rt.out_start as usize + k2];
                    let ghost src1 = src;
                    let ghost staged1 = staged@;
                    if n != NO_NET {
                        staged.push((n, outs[k2]));
                        proof {
                            src = src.push((c as int, k2 as int));
                            assert(src[src.len() - 1] == (c as int, k2 as int));
                            assert(n == self.out_net(c as int, k2 as int));
                            assert(n < self.net_val@.len());
                            assert forall|j: int|
                                src0.len() <= j < src.len() implies {
                                    let (ci, ki) = #[trigger] src[j];
                                    &&& ci == c
                                    &&& 0 <= ki < k2 + 1
                                    &&& staged@[j].0 == self.out_net(ci, ki)
                                    &&& staged@[j].0 != NO_NET
                                    &&& staged@[j].0 < self.net_val@.len()
                                    &&& staged@[j].1 == self.stepped_with(ci, st0).0[ki]
                                } by {
                                if j < src.len() - 1 {
                                    assert(src[j] == src1[j]);
                                    assert(staged@[j] == staged1[j]);
                                } else {
                                    assert(staged@[j] == (n, outs@[k2 as int]));
                                }
                            }
                        }
                    }
                    proof {
                        assert forall|ki: int|
                            0 <= ki < k2 + 1 && #[trigger] self.out_net(c as int, ki) != NO_NET implies exists|j: int|
                                src0.len() <= j < src.len() && src[j] == (c as int, ki) by {
                            if ki < k2 {
                                let j = choose|j: int| src0.len() <= j < src1.len() && src1[j] == (c as int, ki);
                                assert(src[j] == (c as int, ki));
                            } else {
                                assert(self.out_net(c as int, ki) == n);
                                assert(src[src.len() - 1] == (c as int, ki));
                            }
                        }
                    }
                    k2 = k2 + 1;
                }
                evals = evals + 1;
                proof {
                    assert forall|j1: int, j2: int|
                        0 <= j1 < src.len() && 0 <= j2 < src.len() && j1 != j2 implies #[trigger] src[j1] != #[trigger] src[j2] by {
                        if j1 < src0.len() && j2 >= src0.len() {
                            assert(src[j1].0 < c);
                        } else if j2 < src0.len() && j1 >= src0.len() {
                            assert(src[j2].0 < c);
                        } else if j1 >= src0.len() && j2 >= src0.len() {
                            if j1 < j2 {
                                assert(src[j1].1 < src[j2].1);
                            } else {
                                assert(src[j2].1 < src[j1].1);
                            }
                        }
                    }
                    assert forall|ci: int, ki: int|
                        0 <= ci < c + 1 && 0 <= ki < self.out_count_of(ci) && self.dirty(ci) && #[trigger] self.out_net(ci, ki) != NO_NET
                            implies exists|j: int| 0 <= j < src.len() && src[j] == (ci, ki) by {
                        if ci < c {
                            let j = choose|j: int| 0 <= j < src0.len() && src0[j] == (ci, ki);
                            assert(src[j] == (ci, ki));
                        }
                    }
                }
            }
            c = c + 1;
        }
        (staged, evals, Ghost(src))
    }
}

/// Everything the specifications of one tick read, but the states, is equal.
spec fn same_but_states(a: &Engine, b: &Engine) -> bool {
    &&& a.comps@ == b.comps@
    &&& a.comp_of_inst@ == b.comp_of_inst@
    &&& a.pin_net@ == b.pin_net@
    &&& a.net_val@ == b.net_val@
    &&& a.net_width@ == b.net_width@
    &&& a.changed@ == b.changed@
    &&& a.forced@ == b.forced@
    &&& a.primed == b.primed
}

proof fn lemma_count_frame(a: &Engine, b: &Engine, c: int)
    requires
        forall|i: int| 0 <= i < c ==> #[trigger] a.dirty(i) == b.dirty(i),
    ensures
        count_dirty(a, c) == count_dirty(b, c),
    decreases c,
{
    if c > 0 {
        lemma_count_frame(a, b, c - 1);
    }
}

/// Two engines that differ in their states alone step alike.
proof fn lemma_frame(a: &Engine, b: &Engine)
    requires
        same_but_states(a, b),
    ensures
        a.core_ok() == b.core_ok(),
        forall|c: int| #[trigger] a.dirty(c) == b.dirty(c),
        forall|c: int, sts: Seq<CompState>| #[trigger] a.stepped_with(c, sts) == b.stepped_with(c, sts),
        forall|c: int, k: int| #[trigger] a.out_net(c, k) == b.out_net(c, k),
        forall|c: int| #[trigger] a.out_count_of(c) == b.out_count_of(c),
        a.num_comps() == b.num_comps(),
        a.num_nets() == b.num_nets(),
        count_dirty(a, a.comps@.len() as int) == count_dirty(b, b.comps@.len() as int),
{
    assert forall|c: int| #[trigger] a.inputs_of(c) == b.inputs_of(c) by {
        assert(a.inputs_of(c) =~= b.inputs_of(c));
    }
    assert forall|c: int| #[trigger] a.dirty(c) == b.dirty(c) by {
        assert(a.reads_changed(c) == b.reads_changed(c));
    }
    assert forall|c: int, sts: Seq<CompState>| #[trigger] a.stepped_with(c, sts) == b.stepped_with(c, sts) by {
        assert(a.inputs_of(c) == b.inputs_of(c));
    }
    lemma_count_frame(a, b, a.comps@.len() as int);
}

proof fn lemma_staged_frame(a: &Engine, b: &Engine, staged: Seq<(u32, NetValue)>, src: Seq<(int, int)>)
    requires
        same_but_states(a, b),
        staged_ok_with(a, b.states@, staged, src, a.comps@.len() as int),
    ensures
        staged_ok_with(b, b.states@, staged, src, b.comps@.len() as int),
{
    lemma_frame(a, b);
    assert forall|ci: int, ki: int|
        0 <= ci < b.comps@.len() && 0 <= ki < b.out_count_of(ci) && b.dirty(ci) && #[trigger] b.out_net(ci, ki) != NO_NET
            implies exists|j: int| 0 <= j < src.len() && src[j] == (ci, ki) by {
        assert(a.out_net(ci, ki) != NO_NET);
        assert(a.dirty(ci));
        assert(a.out_count_of(ci) == b.out_count_of(ci));
    }
    assert forall|j: int| 0 <= j < src.len() implies {
        let (ci, ki) = #[trigger] src[j];
        &&& 0 <= ci < b.comps@.len()
        &&& 0 <= ki < b.out_count_of(ci)
        &&& b.dirty(ci)
        &&& staged[j].0 == b.out_net(ci, ki)
        &&& staged[j].0 != NO_NET
        &&& staged[j].0 < b.num_nets()
        &&& staged[j].1 == b.stepped_with(ci, b.states@).0[ki]
    } by {
        let (ci, ki) = src[j];
        assert(a.dirty(ci) == b.dirty(ci));
        assert(a.out_net(ci, ki) == b.out_net(ci, ki));
        assert(a.out_count_of(ci) == b.out_count_of(ci));
        assert(a.stepped_with(ci, b.states@) == b.stepped_with(ci, b.states@));
    }
}

/// What a commit of the staged outputs of one tick does to the nets.
proof fn lemma_tick_nets(pre: &Engine, nv: Seq<NetValue>, staged: Seq<(u32, NetValue)>, src: Seq<(int, int)>)
    requires
        pre.core_ok(),
        staged_ok_with(pre, pre.states@, staged, src, pre.comps@.len() as int),
        nv.len() == pre.net_val@.len(),
        forall|n: int|
            0 <= n < pre.net_val@.len() ==> #[trigger] nv[n] == pre.net_val@[n] || exists|i: int|
                0 <= i < staged.len() && staged[i].0 == n && nv[n] == masked(staged[i].1, pre.net_width@[n]),
        forall|i: int|
            0 <= i < staged.len() && (forall|i2: int| i < i2 < staged.len() ==> (#[trigger] staged[i2]).0 != staged[i].0) ==> agree(
                nv[(#[trigger] staged[i]).0 as int],
                staged[i].1,
                pre.net_width@[staged[i].0 as int],
            ),
        forall|n: int| 0 <= n < nv.len() ==> #[trigger] nv[n] == masked(nv[n], pre.net_width@[n]),
    ensures
        forall|n: u32|
            n < pre.num_nets() ==> #[trigger] nv[n as int] == pre.net_spec(n) || exists|c: int, k: int|
                0 <= c < pre.num_comps() && 0 <= k < pre.out_count_of(c) && pre.dirty(c)
                    && #[trigger] pre.out_net(c, k) == n && nv[n as int] == masked(pre.stepped(c).0[k], pre.width_of(n)),
        forall|c: int, k: int|
            0 <= c < pre.num_comps() && 0 <= k < pre.out_count_of(c) && pre.dirty(c)
                && #[trigger] pre.out_net(c, k) != NO_NET && sole_driver(pre, c, k) ==> nv[pre.out_net(c, k) as int] == masked(
                pre.stepped(c).0[k],
                pre.width_of(pre.out_net(c, k)),
            ),
{
    assert forall|c2: int, k2: int|
        0 <= c2 < pre.num_comps() && 0 <= k2 < pre.out_count_of(c2) && pre.dirty(c2)
            && #[trigger] pre.out_net(c2, k2) != NO_NET && sole_driver(pre, c2, k2) implies nv[pre.out_net(c2, k2) as int] == masked(
        pre.stepped(c2).0[k2],
        pre.width_of(pre.out_net(c2, k2)),
    ) by {
        assert(exists|j: int| 0 <= j < src.len() && src[j] == (c2, k2));
        let i = choose|i: int| 0 <= i < src.len() && src[i] == (c2, k2);
        assert forall|i2: int| i < i2 < staged.len() implies (#[trigger] staged[i2]).0 != staged[i].0 by {
            let (c3, k3) = src[i2];
            if staged[i2].0 == staged[i].0 {
                assert(pre.out_net(c3, k3) == pre.out_net(c2, k2));
                assert(src[i2] != src[i]);
            }
        }
        assert(staged[i].1 == pre.stepped(c2).0[k2]);
        let n = pre.out_net(c2, k2);
        let w = pre.net_width@[n as int];
        lemma_masked_agrees(staged[i].1, w);
        lemma_agree_sym(masked(staged[i].1, w), staged[i].1, w);
        lemma_agree_trans(nv[n as int], staged[i].1, masked(staged[i].1, w), w);
        lemma_masked_idem(staged[i].1, w);
        lemma_agree_masked_eq(nv[n as int], masked(staged[i].1, w), w);
    }
    assert forall|n: u32|
        n < pre.num_nets() implies #[trigger] nv[n as int] == pre.net_spec(n) || exists|c2: int, k2: int|
        0 <= c2 < pre.num_comps() && 0 <= k2 < pre.out_count_of(c2) && pre.dirty(c2)
            && #[trigger] pre.out_net(c2, k2) == n && nv[n as int] == masked(pre.stepped(c2).0[k2], pre.width_of(n)) by {
        if nv[n as int] != pre.net_spec(n) {
            assert(nv[n as int] != pre.net_val@[n as int]);
            let i = choose|i: int| 0 <= i < staged.len() && staged[i].0 == n && nv[n as int] == masked(staged[i].1, pre.net_width@[n as int]);
            let (c2, k2) = src[i];
            assert(pre.out_net(c2, k2) == n);
            assert(staged[i].1 == pre.stepped(c2).0[k2]);
        }
    }
}

impl Engine {
    /// Phase B: commits the staged outputs; returns the nets that changed.
    fn commit(&mut self, staged: &Vec<(u32, NetValue)>) -> (changed: Vec<u32>)
        requires
            old(self).core_ok(),
            old(self).nets_masked(),
            forall|i: int| 0 <= i < staged@.len() ==> (#[trigger] staged@[i]).0 < old(self).net_val@.len(),
        ensures
            final(self).core_ok(),
            final(self).nets_masked(),
            final(self).comps@ == old(self).comps@,
            final(self).pin_net@ == old(self).pin_net@,
            final(self).net_width@ == old(self).net_width@,
            final(self).forced@ == old(self).forced@,
            final(self).comp_of_inst@ == old(self).comp_of_inst@,
            final(self).changed@ == old(self).changed@,
            final(self).states@ == old(self).states@,
            final(self).primed == old(self).primed,
            final(self).tick == old(self).tick,
            final(self).last_eval == old(self).last_eval,
            final(self).total_eval == old(self).total_eval,
            final(self).net_val@.len() == old(self).net_val@.len(),
            forall|i: int| 0 <= i < changed@.len() ==> (#[trigger] changed@[i]) < old(self).net_val@.len(),
            forall|n: int|
                0 <= n < old(self).net_val@.len() ==> #[trigger] final(self).net_val@[n] == old(self).net_val@[n] || exists|i: int|
                    0 <= i < staged@.len() && staged@[i].0 == n && final(self).net_val@[n] == masked(staged@[i].1, old(self).net_width@[n]),
            forall|i: int|
                0 <= i < staged@.len() && (forall|i2: int| i < i2 < staged@.len() ==> (#[trigger] staged@[i2]).0 != staged@[i].0) ==> agree(
                    final(self).net_val@[(#[trigger] staged@[i]).0 as int],
                    staged@[i].1,
                    old(self).net_width@[staged@[i].0 as int],
                ),
            forall|n: int|
                0 <= n < old(self).net_val@.len() && #[trigger] final(self).net_val@[n] != old(self).net_val@[n] ==> changed@.contains(
                    n as u32,
                ),
            forall|q: int|
                0 <= q < changed@.len() ==> final(self).net_val@[(#[trigger] changed@[q]) as int] != old(self).net_val@[changed@[q] as int]
                    || written_twice(staged@, changed@[q], staged@.len() as int),
    {
        let ghost nv0 = self.net_val@;
        let mut changed: Vec<u32> = Vec::new();
        let mut j: usize = 0;
        while j < staged.len()
            invariant
                j <= staged@.len(),
                self.core_ok(),
                self.nets_masked(),
                self.comps@ == old(self).comps@,
                self.pin_net@ == old(self).pin_net@,
                self.net_width@ == old(self).net_width@,
                self.forced@ == old(self).forced@,
                self.comp_of_inst@ == old(self).comp_of_inst@,
                self.changed@ == old(self).changed@,
                self.states@ == old(self).states@,
                self.primed == old(self).primed,
                self.tick == old(self).tick,
                self.last_eval == old(self).last_eval,
                self.total_eval == old(self).total_eval,
                nv0 == old(self).net_val@,
                self.net_val@.len() == nv0.len(),
                forall|i: int| 0 <= i < staged@.len() ==> (#[trigger] staged@[i]).0 < nv0.len(),
                forall|i: int| 0 <= i < changed@.len() ==> (#[trigger] changed@[i]) < nv0.len(),
                forall|n: int| 0 <= n < nv0.len() && #[trigger] self.net_val@[n] != nv0[n] ==> changed@.contains(n as u32),
                forall|n: int|
                    0 <= n < nv0.len() ==> #[trigger] self.net_val@[n] == nv0[n] || exists|i: int|
                        0 <= i < j && staged@[i].0 == n && self.net_val@[n] == masked(staged@[i].1, self.net_width@[n]),
                forall|q: int| 0 <= q < changed@.len() ==> written(staged@, #[trigger] changed@[q], j as int),
                forall|q: int|
                    0 <= q < changed@.len() ==> self.net_val@[(#[trigger] changed@[q]) as int] != nv0[changed@[q] as int]
                        || written_twice(staged@, changed@[q], j as int),
                forall|i: int|
                    0 <= i < j && (forall|i2: int| i < i2 < j ==> (#[trigger] staged@[i2]).0 != staged@[i].0) ==> agree(
                        self.net_val@[(#[trigger] staged@[i]).0 as int],
                        staged@[i].1,
                        self.net_width@[staged@[i].0 as int],
                    ),
            decreases staged@.len() - j,
        {
            let (n, v) = staged[j];
            let w = self.net_width[n as usize];
            let mv = v.with_width(w);
            let ghost nv1 = self.net_val@;
            let ghost ch1 = changed@;
            proof {
                lemma_masked_agrees(v, w);
            }
            if self.net_val[n as usize].differs(mv, w) {
                proof {
                    lemma_masked_idem(v, w);
                    let a = nv1[n as int];
                    if a == mv {
                        let x = a.val;
                        let y = a.unk;
                        assert(x ^ x == 0) by (bit_vector);
                        assert(y ^ y == 0) by (bit_vector);
                        crate::values::lemma_span_bounds(w);
                        assert(low(0, w) == 0);
                        assert(low(a.val ^ mv.val, w) == 0);
                        assert(low(a.unk ^ mv.unk, w) == 0);
                    }
                    assert(a != mv);
                }
                self.net_val.set(n as usize, mv);
                changed.push(n);
                proof {
                    assert forall|q: int| 0 <= q < changed@.len() implies written(staged@, #[trigger] changed@[q], j as int + 1) by {
                        if q < ch1.len() {
                            assert(changed@[q] == ch1[q]);
                            assert(written(staged@, ch1[q], j as int));
                            let i = choose|i: int| 0 <= i < j && staged@[i].0 == ch1[q];
                            assert(0 <= i < j + 1 && staged@[i].0 == ch1[q]);
                        } else {
                            assert(staged@[j as int].0 == n);
                        }
                    }
                    assert forall|q: int|
                        0 <= q < changed@.len() implies self.net_val@[(#[trigger] changed@[q]) as int] != nv0[changed@[q] as int]
                        || written_twice(staged@, changed@[q], j as int + 1) by {
                        let x = changed@[q];
                        if q < ch1.len() {
                            assert(x == ch1[q]);
                            assert(written(staged@, x, j as int));
                            if x == n {
                                let i = choose|i: int| 0 <= i < j && staged@[i].0 == x;
                                assert(staged@[i].0 == x && staged@[j as int].0 == x);
                                assert(written_twice(staged@, x, j as int + 1));
                            } else {
                                assert(self.net_val@[x as int] == nv1[x as int]);
                                if written_twice(staged@, x, j as int) {
                                    let (i1, i2) = choose|i1: int, i2: int| 0 <= i1 < i2 < j && #[trigger] staged@[i1].0 == x && #[trigger] staged@[i2].0 == x;
                                    assert(written_twice(staged@, x, j as int + 1));
                                }
                            }
                        } else {
                            assert(x == n);
                            if nv1[n as int] != nv0[n as int] {
                                let i = choose|i: int| 0 <= i < j && staged@[i].0 == n && nv1[n as int] == masked(staged@[i].1, self.net_width@[n as int]);
                                assert(staged@[i].0 == x && staged@[j as int].0 == x);
                                assert(written_twice(staged@, x, j as int + 1));
                            }
                        }
                    }
                    assert(changed@[changed@.len() - 1] == n);
                    assert forall|m: int| 0 <= m < nv0.len() && #[trigger] self.net_val@[m] != nv0[m] implies changed@.contains(m as u32) by {
                        if m != n as int {
                            assert(ch1.contains(m as u32));
                            let q = choose|q: int| 0 <= q < ch1.len() && ch1[q] == m as u32;
                            assert(changed@[q] == m as u32);
                        }
                    }
                }
            } else {
                proof {
                    lemma_agree_trans(self.net_val@[n as int], mv, v, w);
                    assert forall|q: int| 0 <= q < changed@.len() implies written(staged@, #[trigger] changed@[q], j as int + 1) by {
                        assert(written(staged@, changed@[q], j as int));
                        let i = choose|i: int| 0 <= i < j && staged@[i].0 == changed@[q];
                        assert(0 <= i < j + 1);
                    }
                    assert forall|q: int|
                        0 <= q < changed@.len() implies self.net_val@[(#[trigger] changed@[q]) as int] != nv0[changed@[q] as int]
                        || written_twice(staged@, changed@[q], j as int + 1) by {
                        let x = changed@[q];
                        assert(written(staged@, x, j as int));
                        if x == n {
                            let i = choose|i: int| 0 <= i < j && staged@[i].0 == x;
                            assert(staged@[i].0 == x && staged@[j as int].0 == x);
                            assert(written_twice(staged@, x, j as int + 1));
                        } else if written_twice(staged@, x, j as int) {
                            let (i1, i2) = choose|i1: int, i2: int| 0 <= i1 < i2 < j && #[trigger] staged@[i1].0 == x && #[trigger] staged@[i2].0 == x;
                            assert(written_twice(staged@, x, j as int + 1));
                        }
                    }
                }
            }
            proof {
                assert forall|m: int|
                    0 <= m < nv0.len() implies #[trigger] self.net_val@[m] == nv0[m] || exists|i: int|
                    0 <= i < j + 1 && staged@[i].0 == m && self.net_val@[m] == masked(staged@[i].1, self.net_width@[m]) by {
                    if m != n && self.net_val@[m] != nv0[m] {
                        let i = choose|i: int| 0 <= i < j && staged@[i].0 == m && nv1[m] == masked(staged@[i].1, self.net_width@[m]);
                    }
                }
                assert forall|i: int|
                    0 <= i < j + 1 && (forall|i2: int| i < i2 < j + 1 ==> (#[trigger] staged@[i2]).0 != staged@[i].0) implies agree(
                    self.net_val@[(#[trigger] staged@[i]).0 as int],
                    staged@[i].1,
                    self.net_width@[staged@[i].0 as int],
                ) by {
                    if i < j {
                        assert(staged@[j as int].0 != staged@[i].0);
                    }
                }
            }
            j = j + 1;
        }
        changed
    }
}

/// Two different outputs of components due this tick drive net `n`.
pub open spec fn multi_driven(e: &Engine, n: u32) -> bool {
    exists|c1: int, k1: int, c2: int, k2: int|
        0 <= c1 < e.num_comps() && 0 <= k1 < e.out_count_of(c1) && e.dirty(c1) && 0 <= c2 < e.num_comps() && 0 <= k2
            < e.out_count_of(c2) && e.dirty(c2) && (c1, k1) != (c2, k2) && #[trigger] e.out_net(c1, k1) == n
            && #[trigger] e.out_net(c2, k2) == n
}

/// A net listed as changed by a tick changed value, or two different due
/// outputs drive it.
proof fn lemma_changed_written(pre: &Engine, post: &Engine, staged: Seq<(u32, NetValue)>, src: Seq<(int, int)>)
    requires
        staged_ok_with(pre, pre.states@, staged, src, pre.comps@.len() as int),
        post.net_val@.len() == pre.net_val@.len(),
        forall|q: int| 0 <= q < post.changed@.len() ==> (#[trigger] post.changed@[q]) < pre.net_val@.len(),
        forall|q: int|
            0 <= q < post.changed@.len() ==> post.net_val@[(#[trigger] post.changed@[q]) as int] != pre.net_val@[post.changed@[q] as int]
                || written_twice(staged, post.changed@[q], staged.len() as int),
    ensures
        forall|n: u32|
            #[trigger] post.changed_spec().contains(n) ==> n < pre.num_nets() && (post.net_spec(n) != pre.net_spec(n) || multi_driven(
                pre,
                n,
            )),
{
    assert forall|n: u32| #[trigger] post.changed_spec().contains(n) implies n < pre.num_nets() && (post.net_spec(n) != pre.net_spec(n)
        || multi_driven(pre, n)) by {
        let q = choose|q: int| 0 <= q < post.changed@.len() && post.changed@[q] == n;
        assert(post.changed@[q] == n);
        if post.net_spec(n) == pre.net_spec(n) {
            assert(written_twice(staged, n, staged.len() as int));
            let (i1, i2) = choose|i1: int, i2: int| 0 <= i1 < i2 < staged.len() && #[trigger] staged[i1].0 == n && #[trigger] staged[i2].0 == n;
            let (c1, k1) = src[i1];
            let (c2, k2) = src[i2];
            assert(src[i1] != src[i2]);
            assert(pre.out_net(c1, k1) == n && pre.out_net(c2, k2) == n);
            assert(multi_driven(pre, n));
        }
    }
}

/// Net `n` is the target of some staged write below `upto`.
pub open spec fn written(staged: Seq<(u32, NetValue)>, n: u32, upto: int) -> bool {
    exists|i: int| 0 <= i < upto && staged[i].0 == n
}

/// Net `n` is the target of two staged writes below `upto`.
pub open spec fn written_twice(staged: Seq<(u32, NetValue)>, n: u32, upto: int) -> bool {
    exists|i1: int, i2: int| 0 <= i1 < i2 < upto && #[trigger] staged[i1].0 == n && #[trigger] staged[i2].0 == n
}

impl Engine {
    /// What one tick leaves: a component's state steps exactly when it was
    /// dirty, a net changes only to the output of a dirty driver, and the
    /// number of components evaluated is the number that were dirty.
    pub open spec fn tick_result(e0: Engine, e1: Engine) -> bool {
        &&& e1.num_comps() == e0.num_comps()
        &&& e1.num_nets() == e0.num_nets()
        &&& forall|c: int|
            0 <= c < e0.num_comps() ==> #[trigger] e1.state_of(c) == (if e0.dirty(c) {
                let r = e0.stepped(c);
                (r.1, r.2, r.3, r.4)
            } else {
                e0.state_of(c)
            })
        &&& forall|n: u32|
            n < e0.num_nets() ==> #[trigger] e1.net_spec(n) == e0.net_spec(n) || exists|c: int, k: int|
                0 <= c < e0.num_comps() && 0 <= k < e0.out_count_of(c) && e0.dirty(c) && #[trigger] e0.out_net(c, k) == n
                    && e1.net_spec(n) == masked(e0.stepped(c).0[k], e0.width_of(n))
        &&& e0.num_comps() > 0 ==> e1.last_eval_spec() == count_dirty(&e0, e0.num_comps() as int)
    }

    /// Advances the simulation by one tick (see the module documentation).
    #[verifier::rlimit(40)]
    pub fn tick(&mut self)
        requires
            old(self).wf(),
        ensures
            final(self).wf(),
            final(self).ticks() == if old(self).ticks() < u64::MAX { old(self).ticks() + 1 } else { u64::MAX as int },
            final(self).same_circuit(old(self)),
            final(self).num_comps() == old(self).num_comps(),
            final(self).num_nets() == old(self).num_nets(),
            forall|n: u32| n < old(self).num_nets() ==> #[trigger] final(self).width_of(n) == old(self).width_of(n),
            forall|c: int|
                0 <= c < old(self).num_comps() ==> #[trigger] final(self).state_of(c) == (if old(self).dirty(c) {
                    let r = old(self).stepped(c);
                    (r.1, r.2, r.3, r.4)
                } else {
                    old(self).state_of(c)
                }),
            forall|n: u32|
                n < old(self).num_nets() ==> #[trigger] final(self).net_spec(n) == old(self).net_spec(n) || exists|c: int, k: int|
                    0 <= c < old(self).num_comps() && 0 <= k < old(self).out_count_of(c) && old(self).dirty(c)
                        && #[trigger] old(self).out_net(c, k) == n && final(self).net_spec(n) == masked(
                        old(self).stepped(c).0[k],
                        old(self).width_of(n),
                    ),
            forall|c: int, k: int|
                0 <= c < old(self).num_comps() && 0 <= k < old(self).out_count_of(c) && old(self).dirty(c)
                    && #[trigger] old(self).out_net(c, k) != NO_NET && sole_driver(old(self), c, k) ==> final(self).net_spec(
                    old(self).out_net(c, k),
                ) == masked(old(self).stepped(c).0[k], old(self).width_of(old(self).out_net(c, k))),
            old(self).num_comps() > 0 ==> final(self).last_eval_spec() == count_dirty(old(self), old(self).num_comps() as int),
            old(self).num_comps() > 0 ==> forall|c: int| 0 <= c < final(self).num_comps() ==> !#[trigger] final(self).forced_spec(c),
            old(self).num_comps() > 0 ==> final(self).primed_spec(),
            old(self).num_comps() > 0 ==> forall|n: u32|
                #[trigger] final(self).changed_spec().contains(n) ==> n < old(self).num_nets() && (final(self).net_spec(n)
                    != old(self).net_spec(n) || multi_driven(old(self), n)),
            forall|n: u32|
                n < old(self).num_nets() && #[trigger] final(self).net_spec(n) != old(self).net_spec(n)
                    ==> final(self).changed_spec().contains(n),
            Engine::tick_result(*old(self), *final(self)),
    {
        if self.comps.len() == 0 {
            if self.tick < u64::MAX {
                self.tick = self.tick + 1;
            }
            return;
        }
        let ghost pre = *self;
        let flags = self.changed_flags();
        let mut states: Vec<CompState> = Vec::new();
        std::mem::swap(&mut states, &mut self.states);
        let ghost mid = *self;
        proof {
            lemma_frame(self, &pre);
        }
        let (staged, evals, Ghost(src)) = self.evaluate(&mut states, &flags);
        std::mem::swap(&mut states, &mut self.states);
        proof {
            assert(states_stepped(&pre, self.states@)) by {
                assert forall|c: int| 0 <= c < pre.comps@.len() implies #[trigger] st_view(self.states@[c]) == (if pre.dirty(c) {
                    let r = pre.stepped(c);
                    (r.1, r.2, r.3, r.4)
                } else {
                    st_view(pre.states@[c])
                }) by {
                    assert(mid.dirty(c) == pre.dirty(c));
                    assert(mid.stepped_with(c, pre.states@) == pre.stepped_with(c, pre.states@));
                }
            }
            lemma_staged_frame(&mid, &pre, staged@, src);
            assert forall|i: int| 0 <= i < staged@.len() implies (#[trigger] staged@[i]).0 < self.net_val@.len() by {
                let _ = src[i];
            }
        }
        let ghost sts_after = self.states@;
        let ghost nv_before = self.net_val@;
        let ghost mut post1 = *self;
        let changed = self.commit(&staged);
        proof {
            lemma_tick_nets(&pre, self.net_val@, staged@, src);
        }
        self.changed = changed;
        self.primed = true;
        proof {
            assert(nv_before == pre.net_val@);
            assert forall|n: u32|
                n < pre.num_nets() && #[trigger] self.net_spec(n) != pre.net_spec(n) implies self.changed_spec().contains(n) by {
                assert(self.net_val@[n as int] != nv_before[n as int]);
            }
            lemma_changed_written(&pre, self, staged@, src);
            post1 = *self;
        }
        let nc = self.comps.len();
        let mut forced: Vec<bool> = Vec::new();
        let mut k: usize = 0;
        while k < nc
            invariant
                k <= nc,
                forced@.len() == k,
                forall|i: int| 0 <= i < k ==> !#[trigger] forced@[i],
            decreases nc - k,
        {
            forced.push(false);
            k = k + 1;
        }
        self.forced = forced;
        self.last_eval = evals;
        self.total_eval = self.total_eval.saturating_add(evals as u64);
        if self.tick < u64::MAX {
            self.tick = self.tick + 1;
        }
        assert(self.states@ == sts_after);
        proof {
            assert(self.changed@ == post1.changed@ && self.net_val@ == post1.net_val@);
            assert forall|n: u32| #[trigger] self.changed_spec().contains(n) implies n < pre.num_nets() && (self.net_spec(n)
                != pre.net_spec(n) || multi_driven(&pre, n)) by {
                assert(post1.changed_spec().contains(n));
                assert(post1.net_spec(n) == self.net_spec(n));
            }
        }
    }

    pub closed spec fn last_eval_spec(&self) -> nat {
        self.last_eval as nat
    }

    pub closed spec fn forced_spec(&self, c: int) -> bool {
        self.forced@[c]
    }

    /// Whether the engine has ticked since it was loaded or reset.
    pub closed spec fn primed_spec(&self) -> bool {
        self.primed
    }

    /// Component `c` is a free-running source, evaluated every tick.
    pub closed spec fn free_running(&self, c: int) -> bool {
        self.comps@[c].always
    }

    /// Number of inputs of component `c`.
    pub closed spec fn in_count_of(&self, c: int) -> int {
        self.comps@[c].in_count as int
    }

    /// Net of input `k` of component `c` (`NO_NET` when unconnected).
    pub closed spec fn input_net(&self, c: int, k: int) -> u32 {
        self.pin_net@[self.comps@[c].in_start + k]
    }

    /// What makes a component due on the next tick: nothing has run yet, it
    /// runs freely, its input was set from outside, or one of its inputs
    /// reads a net that changed in the last tick.
    pub proof fn lemma_dirty(&self, c: int)
        ensures
            self.dirty(c) == (!self.primed_spec() || self.free_running(c) || self.forced_spec(c) || exists|k: int|
                0 <= k < self.in_count_of(c) && #[trigger] self.changed_spec().contains(self.input_net(c, k)) && self.input_net(c, k)
                    != NO_NET),
    {
        let rt = self.comps@[c];
        if self.reads_changed(c) {
            let k = choose|k: int|
                0 <= k < rt.in_count && #[trigger] self.changed@.contains(self.pin_net@[rt.in_start + k])
                    && self.pin_net@[rt.in_start + k] != NO_NET;
            assert(self.changed_spec().contains(self.input_net(c, k)));
        }
        if exists|k: int|
            0 <= k < self.in_count_of(c) && #[trigger] self.changed_spec().contains(self.input_net(c, k)) && self.input_net(c, k) != NO_NET {
            let k = choose|k: int|
                0 <= k < self.in_count_of(c) && #[trigger] self.changed_spec().contains(self.input_net(c, k)) && self.input_net(c, k)
                    != NO_NET;
            assert(self.changed@.contains(self.pin_net@[rt.in_start + k]));
        }
    }

    /// A component whose input was set from outside is evaluated by the next tick.
    pub proof fn lemma_forced_dirty(&self, c: int)
        requires
            self.forced_spec(c),
        ensures
            self.dirty(c),
    {
    }
}

impl Engine {
    /// The two engines hold the same circuit: components, pins, nets and
    /// instance map.
    pub closed spec fn same_circuit(&self, o: &Engine) -> bool {
        &&& self.comps@ == o.comps@
        &&& self.pin_net@ == o.pin_net@
        &&& self.comp_of_inst@ == o.comp_of_inst@
        &&& self.net_width@ == o.net_width@
        &&& self.net_val@.len() == o.net_val@.len()
    }

    /// Engines that hold the same circuit agree on everything that describes it.
    pub proof fn lemma_same_circuit(a: &Engine, b: &Engine)
        requires
            a.same_circuit(b),
        ensures
            a.num_comps() == b.num_comps(),
            a.num_nets() == b.num_nets(),
            a.num_pins() == b.num_pins(),
            forall|c: int| #[trigger] a.comp_def(c) == b.comp_def(c),
            forall|c: int| #[trigger] a.comp_params(c) == b.comp_params(c),
            forall|c: int| #[trigger] a.comp_inst(c) == b.comp_inst(c),
            forall|c: int| #[trigger] a.comp_pin_start(c) == b.comp_pin_start(c),
            forall|c: int| #[trigger] a.out_count_of(c) == b.out_count_of(c),
            forall|c: int, k: int| #[trigger] a.out_net(c, k) == b.out_net(c, k),
            forall|p: int| #[trigger] a.pin_net_spec(p) == b.pin_net_spec(p),
            forall|i: int| #[trigger] a.comp_index(i) == b.comp_index(i),
            forall|n: u32| #[trigger] a.width_of(n) == b.width_of(n),
            same_wiring(*a, *b),
    {
    }

    /// An engine wired as one loaded from `f` holds the circuit of `f` too.
    pub proof fn lemma_loaded_kept(a: &Engine, b: &Engine, f: Flat)
        requires
            same_wiring(*a, *b),
            loaded_from(*b, f),
        ensures
            loaded_from(*a, f),
    {
        assert forall|p: int| 0 <= p < f.pin_net@.len() implies #[trigger] a.pin_net_spec(p) == f.pin_net@[p] by {
            assert(b.pin_net_spec(p) == f.pin_net@[p]);
        }
        assert forall|n: u32| n < f.net_count implies #[trigger] a.width_of(n) == net_width_from(f.pin_net@, f.pin_width@, n, f.pin_net@.len() as int) by {
            assert(b.width_of(n) == a.width_of(n));
        }
        assert forall|c: int| 0 <= c < a.num_comps() implies {
            let fc = #[trigger] f.comps@[c];
            &&& a.comp_def(c) == fc.def
            &&& a.comp_inst(c) == fc.global_inst
            &&& a.comp_pin_start(c) == fc.pin_start
        } by {
            assert(a.comp_def(c) == b.comp_def(c));
            assert(a.comp_inst(c) == b.comp_inst(c));
            assert(a.comp_pin_start(c) == b.comp_pin_start(c));
        }
        assert forall|i: int| 0 <= i < f.inst_count implies {
            let ci = #[trigger] a.comp_index(i);
            &&& (ci == NO_COMP <==> forall|c: int| 0 <= c < a.num_comps() ==> a.comp_inst(c) != i)
            &&& (ci != NO_COMP ==> ci < a.num_comps() && a.comp_inst(ci as int) == i)
        } by {
            assert(a.comp_index(i) == b.comp_index(i));
            assert forall|c: int| 0 <= c < a.num_comps() implies a.comp_inst(c) == b.comp_inst(c) by {}
        }
    }

    /// A net beyond the engine's nets reads zero.
    pub proof fn lemma_net_outside(&self, n: u32)
        requires
            n >= self.num_nets(),
        ensures
            self.net_spec(n) == (NetValue { val: 0, unk: 0 }),
    {
    }

    /// A loaded engine numbers its nets with `u32`.
    pub proof fn lemma_nets_fit(&self)
        requires
            self.wf(),
        ensures
            self.num_nets() <= 0xFFFF_FFFF,
    {
    }

    /// Runs `n` ticks.
    pub fn run_for(&mut self, n: u64)
        requires
            old(self).wf(),
        ensures
            final(self).wf(),
            final(self).same_circuit(old(self)),
            final(self).ticks() == if old(self).ticks() + n <= u64::MAX { old(self).ticks() + n } else { u64::MAX as int },
    {
        let mut i: u64 = 0;
        while i < n
            invariant
                i <= n,
                self.wf(),
                self.same_circuit(old(self)),
                self.ticks() == if old(self).ticks() + i <= u64::MAX { old(self).ticks() + i } else { u64::MAX as int },
            decreases n - i,
        {
            self.tick();
            i = i + 1;
        }
    }

    /// Component index of instance `inst`, or `NO_COMP`.
    fn comp_of(&self, inst: u32) -> (r: u32)
        requires
            self.core_ok(),
        ensures
            r == self.comp_index(inst as int),
            r != NO_COMP ==> r < self.comps@.len(),
    {
        if (inst as usize) < self.comp_of_inst.len() {
            self.comp_of_inst[inst as usize]
        } else {
            NO_COMP
        }
    }

    /// Changes the value of a source (switch, button, constant, clock, input
    /// pin); it is evaluated with the new value on the next tick. Does nothing
    /// for an instance that is not an evaluated source.
    pub fn set_input(&mut self, inst: u32, value: u32)
        requires
            old(self).wf(),
        ensures
            final(self).wf(),
            final(self).num_comps() == old(self).num_comps(),
            final(self).num_nets() == old(self).num_nets(),
            forall|n: u32| #[trigger] final(self).width_of(n) == old(self).width_of(n),
            final(self).ticks() == old(self).ticks(),
            ({
                let ci = old(self).comp_index(inst as int);
                if ci != NO_COMP && is_source_spec(old(self).comp_def(ci as int)) {
                    let p = old(self).comp_params(ci as int);
                    let v = low(value, p.width);
                    &&& final(self).comp_params(ci as int) == (Params { value: v, ..p })
                    &&& final(self).forced_spec(ci as int) == (old(self).forced_spec(ci as int) || p.value != v)
                    &&& forall|c: int|
                        0 <= c < old(self).num_comps() && c != ci ==> #[trigger] final(self).comp_params(c) == old(self).comp_params(c)
                            && final(self).forced_spec(c) == old(self).forced_spec(c)
                    &&& forall|c: int| 0 <= c < old(self).num_comps() ==> #[trigger] final(self).comp_def(c) == old(self).comp_def(c)
                } else {
                    *final(self) == *old(self)
                }
            }),
            ({
                let ci = old(self).comp_index(inst as int);
                let d = old(self).comp_def(ci as int);
                let p = old(self).comp_params(ci as int);
                ci != NO_COMP && in_count_spec(d, p) == 0 && out_count_spec(d, p) > 0 ==> final(self).comp_params(ci as int) == (Params {
                    value: low(value, p.width),
                    ..p
                })
            }),
            forall|c: int| 0 <= c < old(self).num_comps() ==> #[trigger] final(self).state_of(c) == old(self).state_of(c),
            forall|n: u32| #[trigger] final(self).net_spec(n) == old(self).net_spec(n),
            forall|c: int| 0 <= c < old(self).num_comps() && old(self).dirty(c) ==> #[trigger] final(self).dirty(c),
            forall|c: int, sts: Seq<CompState>| 0 <= c < old(self).num_comps() && c != old(self).comp_index(inst as int)
                ==> #[trigger] final(self).stepped_with(c, sts) == old(self).stepped_with(c, sts),
            same_wiring(*final(self), *old(self)),
    {
        proof {
            let ci0 = self.comp_index(inst as int);
            crate::defs::law_sources_drive_without_inputs(self.comp_def(ci0 as int), self.comp_params(ci0 as int));
        }
        let ci = self.comp_of(inst);
        if ci == NO_COMP {
            return;
        }
        let c = ci as usize;
        if !self.comps[c].def.is_source() {
            return;
        }
        let w = self.comps[c].params.width;
        let v = value & width_mask(w);
        proof {
            crate::values::lemma_and_mask(value, w);
        }
        if self.comps[c].params.value != v {
            let mut rt = self.comps[c];
            rt.params.value = v;
            self.comps.set(c, rt);
            self.forced.set(c, true);
        }
        proof {
            assert forall|c2: int| 0 <= c2 < self.comps@.len() && c2 != c implies #[trigger] self.inputs_of(c2) == old(self).inputs_of(c2) by {
                assert(self.inputs_of(c2) =~= old(self).inputs_of(c2));
            }
            assert forall|c2: int| 0 <= c2 < self.comps@.len() && old(self).dirty(c2) implies #[trigger] self.dirty(c2) by {
                if c2 != c && old(self).reads_changed(c2) {
                    let rt = old(self).comps@[c2];
                    let k = choose|k: int|
                        0 <= k < rt.in_count && #[trigger] old(self).changed@.contains(old(self).pin_net@[rt.in_start + k])
                            && old(self).pin_net@[rt.in_start + k] != NO_NET;
                    assert(self.comps@[c2] == rt);
                    assert(self.changed@.contains(self.pin_net@[rt.in_start + k]));
                }
            }
        }
    }

    /// Back to the power-on state: every net 0, every state cleared (memory
    /// kept at its size, filled with 0), tick 0; the circuit stays loaded.
    pub fn reset(&mut self)
        requires
            old(self).wf(),
        ensures
            final(self).wf(),
            final(self).same_circuit(old(self)),
            final(self).ticks() == 0,
            final(self).last_eval_spec() == 0,
            final(self).total_eval_spec() == 0,
            final(self).changed_spec() == Seq::<u32>::empty(),
            forall|n: u32| #[trigger] final(self).net_spec(n) == (NetValue { val: 0, unk: 0 }),
            forall|c: int|
                0 <= c < old(self).num_comps() ==> #[trigger] final(self).state_of(c) == (
                    0u32,
                    0u8,
                    0u32,
                    Seq::new(old(self).state_of(c).3.len(), |i: int| 0u32),
                ),
            forall|c: int| 0 <= c < old(self).num_comps() ==> #[trigger] final(self).dirty(c),
            forall|c: int| 0 <= c < old(self).num_comps() ==> !#[trigger] final(self).forced_spec(c),
    {
        let nc = self.states.len();
        let ghost sts0 = self.states@;
        let mut c: usize = 0;
        while c < nc
            invariant
                c <= nc,
                nc == self.states@.len(),
                sts0.len() == nc,
                self.comps@ == old(self).comps@,
                self.pin_net@ == old(self).pin_net@,
                self.comp_of_inst@ == old(self).comp_of_inst@,
                self.net_width@ == old(self).net_width@,
                self.net_val@ == old(self).net_val@,
                self.forced@ == old(self).forced@,
                self.changed@ == old(self).changed@,
                sts0 == old(self).states@,
                forall|i: int| c <= i < nc ==> #[trigger] self.states@[i] == sts0[i],
                forall|i: int|
                    0 <= i < c ==> #[trigger] st_view(self.states@[i]) == (0u32, 0u8, 0u32, Seq::new(sts0[i].mem@.len(), |j: int| 0u32)),
            decreases nc - c,
        {
            let mut st = CompState::default();
            std::mem::swap(&mut st, &mut self.states[c]);
            st.reg = 0;
            st.prev_clk = 0;
            st.cnt = 0;
            let m = st.mem.len();
            let mut j: usize = 0;
            while j < m
                invariant
                    j <= m,
                    st.mem@.len() == m,
                    st.reg == 0,
                    st.prev_clk == 0,
                    st.cnt == 0,
                    forall|k: int| 0 <= k < j ==> #[trigger] st.mem@[k] == 0,
                decreases m - j,
            {
                st.mem.set(j, 0);
                j = j + 1;
            }
            proof {
                assert(st.mem@ =~= Seq::new(sts0[c as int].mem@.len(), |k: int| 0u32));
                assert(st_view(st) == (0u32, 0u8, 0u32, Seq::new(sts0[c as int].mem@.len(), |k: int| 0u32)));
            }
            std::mem::swap(&mut st, &mut self.states[c]);
            proof {
                assert(st_view(self.states@[c as int]) == (0u32, 0u8, 0u32, Seq::new(sts0[c as int].mem@.len(), |k: int| 0u32)));
            }
            c = c + 1;
        }
        let nets = self.net_val.len();
        let mut n: usize = 0;
        while n < nets
            invariant
                n <= nets,
                nets == self.net_val@.len(),
                nets == old(self).net_val@.len(),
                self.comps@ == old(self).comps@,
                self.pin_net@ == old(self).pin_net@,
                self.comp_of_inst@ == old(self).comp_of_inst@,
                self.states@.len() == old(self).states@.len(),
                forall|i: int|
                    0 <= i < self.states@.len() ==> #[trigger] st_view(self.states@[i]) == (0u32, 0u8, 0u32, Seq::new(old(self).states@[i].mem@.len(), |j: int| 0u32)),
                self.changed@ == old(self).changed@,
                self.net_width@ == old(self).net_width@,
                self.net_width@.len() == nets,
                forall|k: int| 0 <= k < n ==> #[trigger] self.net_val@[k] == (NetValue { val: 0, unk: 0 }),
                forall|k: int| n <= k < nets ==> #[trigger] self.net_val@[k] == old(self).net_val@[k],
            decreases nets - n,
        {
            self.net_val.set(n, NetValue::zero());
            n = n + 1;
        }
        proof {
            assert forall|k: int| 0 <= k < self.net_val@.len() implies #[trigger] self.net_val@[k] == masked(self.net_val@[k], self.net_width@[k]) by {
                lemma_zero_masked(self.net_width@[k]);
            }
        }
        let mut forced: Vec<bool> = Vec::new();
        let mut k: usize = 0;
        while k < nc
            invariant
                k <= nc,
                forced@.len() == k,
                forall|i: int| 0 <= i < k ==> !#[trigger] forced@[i],
            decreases nc - k,
        {
            forced.push(false);
            k = k + 1;
        }
        self.forced = forced;
        self.changed = Vec::new();
        self.primed = false;
        self.tick = 0;
        self.last_eval = 0;
        self.total_eval = 0;
    }

    /// Rebuilds the engine from a single drawing (its own netlist, no
    /// sub-circuit expansion).
    #[verifier::rlimit(40)]
    pub fn load_board(&mut self, board: &Board)
        requires
            board.wf(),
            kinds_fit(*board),
        ensures
            final(self).wf(),
            final(self).ticks() == 0,
            forall|c: int| 0 <= c < final(self).num_comps() ==> #[trigger] final(self).dirty(c),
            forall|n: u32| #[trigger] final(self).net_spec(n) == (NetValue { val: 0, unk: 0 }),
            final(self).num_comps() <= board.instances@.len(),
            forall|c: int|
                0 <= c < final(self).num_comps() ==> {
                    let it = board.instances@[#[trigger] final(self).comp_inst(c) as int];
                    &&& final(self).comp_inst(c) < board.instances@.len()
                    &&& final(self).comp_def(c) == it.def
                    &&& final(self).comp_params(c) == it.params
                    &&& !is_passive_spec(it.def)
                },
    {
        let nl = board.compile();
        let mut flat = Flat::single(board, &nl);
        proof {
            assert forall|i: int| 0 <= i < board.instances@.len() implies (#[trigger] board.instances@[i]).pins@.len() <= crate::board::MAX_PINS by {
                assert(board.instances@[i].wf());
            }
            crate::board::lemma_pin_count_bound(board.instances@);
            assert(board.instances@.len() * crate::board::MAX_PINS <= 0x8000 * 0xFFFF) by (nonlinear_arith)
                requires
                    board.instances@.len() <= 0x8000,
                    crate::board::MAX_PINS == 0xFFFF,
            ;
            assert forall|c: int| 0 <= c < flat.comps@.len() implies comp_fits(#[trigger] flat.comps@[c]) by {
                let fc = flat.comps@[c];
                assert(!is_passive_spec(board.instances@[fc.inst as int].def));
            }
        }
        let ghost f0 = flat;
        self.load_flat(&mut flat);
        proof {
            assert forall|c: int| 0 <= c < self.num_comps() implies {
                let it = board.instances@[#[trigger] self.comp_inst(c) as int];
                &&& self.comp_inst(c) < board.instances@.len()
                &&& self.comp_def(c) == it.def
                &&& self.comp_params(c) == it.params
                &&& !is_passive_spec(it.def)
            } by {
                let fc = f0.comps@[c];
                assert(f0.comps@[c] == flat.comps@[c]);
                assert(fc.global_inst == fc.inst);
                assert(!is_passive_spec(board.instances@[fc.inst as int].def));
            }
        }
    }

    // -------------------------------------------------------------------
    // Reading
    // -------------------------------------------------------------------

    /// Value of a net (0 outside the range).
    pub fn net_value(&self, net: u32) -> (r: NetValue)
        requires
            self.wf(),
        ensures
            r == self.net_spec(net),
    {
        if (net as usize) < self.net_val.len() {
            self.net_val[net as usize]
        } else {
            NetValue::zero()
        }
    }

    /// Width of a net (1 outside the range).
    pub fn net_width(&self, net: u32) -> (r: Width)
        requires
            self.wf(),
        ensures
            r == (if net < self.num_nets() { self.width_of(net) } else { 1 }),
    {
        if (net as usize) < self.net_width.len() {
            self.net_width[net as usize]
        } else {
            1
        }
    }

    /// Value on a global pin (an unconnected pin reads 0).
    pub fn pin_value(&self, pin: u32) -> (r: NetValue)
        requires
            self.wf(),
        ensures
            r == self.pin_value_spec(pin as int),
    {
        let n = self.net_of_pin(pin);
        if n == NO_NET {
            NetValue::zero()
        } else {
            self.net_value(n)
        }
    }

    pub open spec fn pin_value_spec(&self, pin: int) -> NetValue {
        let n = self.pin_net_spec(pin);
        if n == NO_NET {
            NetValue { val: 0, unk: 0 }
        } else {
            self.net_spec(n)
        }
    }

    /// Net of a global pin (`NO_NET` when unconnected or out of range).
    pub fn net_of_pin(&self, pin: u32) -> (r: u32)
        ensures
            r == self.pin_net_spec(pin as int),
    {
        if (pin as usize) < self.pin_net.len() {
            self.pin_net[pin as usize]
        } else {
            NO_NET
        }
    }

    pub closed spec fn changed_spec(&self) -> Seq<u32> {
        self.changed@
    }

    /// Nets whose value changed in the last tick.
    pub fn changed_nets(&self) -> (r: &[u32])
        ensures
            r@ == self.changed_spec(),
    {
        self.changed.as_slice()
    }

    pub fn tick_count(&self) -> (r: u64)
        ensures
            r == self.ticks(),
    {
        self.tick
    }

    pub fn component_count(&self) -> (r: usize)
        ensures
            r == self.num_comps(),
    {
        self.comps.len()
    }

    pub fn net_count(&self) -> (r: usize)
        ensures
            r == self.num_nets(),
    {
        self.net_val.len()
    }

    pub fn pin_count(&self) -> (r: usize)
        ensures
            r == self.num_pins(),
    {
        self.pin_net.len()
    }

    /// Flattened instance of component `ci`.
    pub fn inst_of_comp(&self, ci: usize) -> (r: Option<u32>)
        ensures
            r == (if ci < self.num_comps() { Some(self.comp_inst(ci as int)) } else { None }),
    {
        if ci < self.comps.len() {
            Some(self.comps[ci].inst)
        } else {
            None
        }
    }

    pub closed spec fn total_eval_spec(&self) -> nat {
        self.total_eval as nat
    }

    /// Components evaluated by the last tick.
    pub fn last_eval_count(&self) -> (r: u32)
        ensures
            r == self.last_eval_spec(),
    {
        self.last_eval
    }

    /// Components evaluated since the last load or reset (saturating).
    pub fn total_eval_count(&self) -> (r: u64)
        ensures
            r == self.total_eval_spec(),
    {
        self.total_eval
    }

    /// Memory contents of an instance (RAM, ROM, display); empty for an
    /// instance without a component.
    pub fn instance_mem(&self, inst: u32) -> (r: &[u32])
        requires
            self.wf(),
        ensures
            r@ == (if self.comp_index(inst as int) == NO_COMP {
                Seq::<u32>::empty()
            } else {
                self.state_of(self.comp_index(inst as int) as int).3
            }),
    {
        let ci = self.comp_of(inst);
        if ci == NO_COMP {
            return &[];
        }
        self.states[ci as usize].mem.as_slice()
    }

    /// Current value of output `slot` of an instance (0 when there is no such
    /// output).
    pub fn instance_output(&self, inst: u32, slot: usize) -> (r: NetValue)
        requires
            self.wf(),
        ensures
            r == self.output_spec(inst as int, slot as int),
    {
        let ci = self.comp_of(inst);
        if ci == NO_COMP {
            return NetValue::zero();
        }
        let c = &self.comps[ci as usize];
        if slot >= c.out_count as usize {
            return NetValue::zero();
        }
        self.pin_value(c.out_start + slot as u32)
    }

    /// Output `slot` of instance `inst` as read now.
    pub closed spec fn output_spec(&self, inst: int, slot: int) -> NetValue {
        let ci = self.comp_index(inst);
        if ci == NO_COMP || slot < 0 || slot >= self.comps@[ci as int].out_count {
            NetValue { val: 0, unk: 0 }
        } else {
            self.pin_value_spec(self.comps@[ci as int].out_start + slot)
        }
    }
}

proof fn lemma_count_dirty_none(e: &Engine, c: int)
    requires
        0 <= c <= e.num_comps(),
        forall|j: int| 0 <= j < e.num_comps() ==> !#[trigger] e.dirty(j),
    ensures
        count_dirty(e, c) == 0,
    decreases c,
{
    if c > 0 {
        lemma_count_dirty_none(e, c - 1);
    }
}

/// A tick of an idle circuit (no component dirty) evaluates nothing and
/// changes no net and no component state.
pub proof fn law_idle_tick(e0: Engine, e1: Engine)
    requires
        e0.wf(),
        Engine::tick_result(e0, e1),
        forall|c: int| 0 <= c < e0.num_comps() ==> !#[trigger] e0.dirty(c),
    ensures
        forall|n: u32| n < e0.num_nets() ==> #[trigger] e1.net_spec(n) == e0.net_spec(n),
        forall|c: int| 0 <= c < e0.num_comps() ==> #[trigger] e1.state_of(c) == e0.state_of(c),
        e0.num_comps() > 0 ==> e1.last_eval_spec() == 0,
{
    lemma_count_dirty_none(&e0, e0.num_comps() as int);
    assert forall|n: u32| n < e0.num_nets() implies #[trigger] e1.net_spec(n) == e0.net_spec(n) by {
        if e1.net_spec(n) != e0.net_spec(n) {
            let (c, k) = choose|c: int, k: int|
                0 <= c < e0.num_comps() && 0 <= k < e0.out_count_of(c) && e0.dirty(c) && #[trigger] e0.out_net(c, k) == n
                    && e1.net_spec(n) == masked(e0.stepped(c).0[k], e0.width_of(n));
            assert(!e0.dirty(c));
        }
    }
}

/// An idle circuit evaluates nothing: once the engine has ticked, a tick
/// after one that changed no net, with no input set from outside and no
/// free-running source, evaluates no component and changes nothing.
pub proof fn law_quiet_circuit_stays_idle(e0: Engine, e1: Engine)
    requires
        e0.wf(),
        Engine::tick_result(e0, e1),
        e0.primed_spec(),
        e0.changed_spec().len() == 0,
        forall|c: int| 0 <= c < e0.num_comps() ==> !#[trigger] e0.forced_spec(c),
        forall|c: int| 0 <= c < e0.num_comps() ==> !#[trigger] e0.free_running(c),
    ensures
        e0.num_comps() > 0 ==> e1.last_eval_spec() == 0,
        forall|n: u32| n < e0.num_nets() ==> #[trigger] e1.net_spec(n) == e0.net_spec(n),
        forall|c: int| 0 <= c < e0.num_comps() ==> #[trigger] e1.state_of(c) == e0.state_of(c),
{
    assert forall|c: int| 0 <= c < e0.num_comps() implies !#[trigger] e0.dirty(c) by {
        e0.lemma_dirty(c);
        assert(!e0.forced_spec(c));
        assert(!e0.free_running(c));
        assert(!e0.changed_spec().contains(e0.input_net(c, 0)));
    }
    law_idle_tick(e0, e1);
}

} // verus!
