//! Shell-independent presentation data: what a canvas draws, as plain values.
//!
//! Used in two steps so that frames allocate nothing:
//!   build_view      after an edit (geometry and net membership);
//!   refresh_values  every frame (values only).
use vstd::prelude::*;
use vstd::string::StrSliceExecFns;
use crate::board::{Board, Point, NO_NET, copy_points, COORD_LIMIT, PIN_SPAN};
use crate::netlist::{Netlist, netlist_ok, tables_ok, npins};
use crate::defs::{DefId, Dir, label_spec};
use crate::engine::Engine;
use crate::values::{NetValue, Width};
use crate::drc::drivers;

verus! {

/// Connection state of a net.
#[derive(Clone, Copy, PartialEq, Eq, Debug, Structural)]
pub enum NetStatus {
    /// Exactly one driver.
    Normal,
    /// No driver.
    Undriven,
    /// Several drivers.
    Conflict,
}

impl NetStatus {
    /// Compact code handed to a shell.
    pub fn code(self) -> (r: i64)
        ensures
            r == match self {
                NetStatus::Normal => 0int,
                NetStatus::Undriven => 1int,
                NetStatus::Conflict => 2int,
            },
    {
        match self {
            NetStatus::Normal => 0,
            NetStatus::Undriven => 1,
            NetStatus::Conflict => 2,
        }
    }
}

/// Pin direction code.
pub fn dir_code(d: Dir) -> (r: i64)
    ensures
        r == match d {
            Dir::In => 0int,
            Dir::Out => 1int,
        },
{
    match d {
        Dir::In => 0,
        Dir::Out => 1,
    }
}

/// A component.
#[derive(Clone, Debug)]
pub struct ComponentView {
    pub inst: u32,
    pub def: DefId,
    /// Kind name drawn on the component.
    pub label: &'static str,
    /// Instance name.
    pub name: String,
    pub x: i32,
    pub y: i32,
    pub w: i32,
    pub h: i32,
    pub rot: u16,
}

/// A pin.
#[derive(Clone, Copy, Debug)]
pub struct PinView {
    pub inst: u32,
    pub slot: u16,
    pub x: i32,
    pub y: i32,
    pub dir: Dir,
    pub width: Width,
    /// Net in the simulation (`NO_NET` when unconnected).
    pub net: u32,
    pub value: NetValue,
}

/// A wire.
#[derive(Clone, Debug)]
pub struct WireView {
    pub index: u32,
    /// Net in the simulation (`NO_NET` when the wire reaches no pin).
    pub net: u32,
    pub points: Vec<Point>,
    pub width: Width,
    pub status: NetStatus,
    pub value: NetValue,
}

/// A text note.
#[derive(Clone, Debug)]
pub struct AnnotationView {
    pub index: u32,
    pub x: i32,
    pub y: i32,
    pub text: String,
}

/// Everything a canvas draws.
#[derive(Debug)]
pub struct CircuitView {
    pub components: Vec<ComponentView>,
    pub pins: Vec<PinView>,
    pub wires: Vec<WireView>,
    pub annotations: Vec<AnnotationView>,
    /// Number of nets (a shell sizes its per-net value table by it).
    pub net_count: u32,
}

/// Local nets of a drawing -> nets of the simulation. `None` maps a net to
/// itself (the simulation runs this drawing alone).
pub struct NetMap<'a> {
    pub map: Option<&'a [u32]>,
}

pub open spec fn map_net(m: Option<Seq<u32>>, local: u32) -> u32 {
    if local == NO_NET {
        NO_NET
    } else {
        match m {
            None => local,
            Some(s) => if (local as int) < s.len() { s[local as int] } else { NO_NET },
        }
    }
}

impl<'a> NetMap<'a> {
    pub open spec fn view_map(&self) -> Option<Seq<u32>> {
        match self.map {
            None => None,
            Some(s) => Some(s@),
        }
    }

    /// Simulation net of a local net.
    pub fn global(&self, local: u32) -> (r: u32)
        ensures
            r == map_net(self.view_map(), local),
    {
        if local == NO_NET {
            return NO_NET;
        }
        match self.map {
            None => local,
            Some(s) => {
                if (local as usize) < s.len() {
                    s[local as usize]
                } else {
                    NO_NET
                }
            },
        }
    }
}

impl CircuitView {
    /// A view with nothing in it.
    pub fn empty() -> (r: CircuitView)
        ensures
            r.components@.len() == 0,
            r.pins@.len() == 0,
            r.wires@.len() == 0,
            r.annotations@.len() == 0,
            r.net_count == 0,
    {
        CircuitView { components: Vec::new(), pins: Vec::new(), wires: Vec::new(), annotations: Vec::new(), net_count: 0 }
    }

    pub fn is_empty(&self) -> (r: bool)
        ensures
            r == (self.components@.len() == 0 && self.wires@.len() == 0),
    {
        self.components.len() == 0 && self.wires.len() == 0
    }
}

/// Status of a local net from its number of drivers.
pub open spec fn status_spec(nl: Netlist, net: u32) -> NetStatus {
    if net == NO_NET {
        NetStatus::Undriven
    } else {
        let d = drivers(nl, net, nl.pin_net@.len() as int);
        if d == 0 {
            NetStatus::Undriven
        } else if d == 1 {
            NetStatus::Normal
        } else {
            NetStatus::Conflict
        }
    }
}

/// Value the simulation shows on a simulation net.
pub open spec fn value_on(e: &Engine, net: u32) -> NetValue {
    if net == NO_NET { NetValue { val: 0, unk: 0 } } else { e.net_spec(net) }
}

/// Width the simulation gives a simulation net.
pub open spec fn width_on(e: &Engine, net: u32) -> Width {
    if net == NO_NET || net >= e.num_nets() { 1 } else { e.width_of(net) }
}

/// Component `i` of `v` shows instance `i` of `b`.
pub open spec fn comp_shows(c: ComponentView, b: Board, i: int) -> bool {
    let it = b.instances@[i];
    &&& c.inst == i
    &&& c.def == it.def
    &&& c.label@ == label_spec(it.def)
    &&& c.name@ == it.display_name@
    &&& c.x == it.x
    &&& c.y == it.y
    &&& c.w == crate::board::max_dx(it.pins@) + 1
    &&& c.h == crate::board::max_dy(it.pins@) + 1
    &&& c.rot == it.rot
}

/// Pin view `p` shows pin `s` of instance `i`.
pub open spec fn pin_shows(p: PinView, b: Board, nl: Netlist, m: Option<Seq<u32>>, e: &Engine, i: int, s: int) -> bool {
    let it = b.instances@[i];
    let pd = it.pins@[s];
    let net = map_net(m, nl.pin_net@[nl.pin_start@[i] + s]);
    &&& p.inst == i
    &&& p.slot == s
    &&& p.x == it.x + pd.dx
    &&& p.y == it.y + pd.dy
    &&& p.dir == pd.dir
    &&& p.width == pd.width
    &&& p.net == net
    &&& p.value == value_on(e, net)
}

/// Wire view `w` shows wire `wi`.
pub open spec fn wire_shows(w: WireView, b: Board, nl: Netlist, m: Option<Seq<u32>>, e: &Engine, wi: int) -> bool {
    let local = nl.wire_net@[wi];
    let net = map_net(m, local);
    &&& w.index == wi
    &&& w.net == net
    &&& w.points@ == b.wires@[wi].points@
    &&& w.width == width_on(e, net)
    &&& w.status == status_spec(nl, local)
    &&& w.value == value_on(e, net)
}

/// `v` shows drawing `b` with netlist `nl`, nets mapped by `m` into the
/// simulation `e`.
pub open spec fn shows(v: CircuitView, b: Board, nl: Netlist, m: Option<Seq<u32>>, e: &Engine) -> bool {
    &&& v.components@.len() == b.instances@.len()
    &&& forall|i: int| 0 <= i < b.instances@.len() ==> #[trigger] comp_shows(v.components@[i], b, i)
    &&& v.pins@.len() == nl.pin_net@.len()
    &&& forall|i: int, s: int|
        0 <= i < b.instances@.len() && 0 <= s < b.instances@[i].pins@.len() ==> #[trigger] pin_shows(
            v.pins@[nl.pin_start@[i] + s],
            b,
            nl,
            m,
            e,
            i,
            s,
        )
    &&& v.wires@.len() == b.wires@.len()
    &&& forall|wi: int| 0 <= wi < b.wires@.len() ==> #[trigger] wire_shows(v.wires@[wi], b, nl, m, e, wi)
    &&& v.annotations@.len() == b.annotations@.len()
    &&& forall|k: int|
        0 <= k < b.annotations@.len() ==> {
            let a = #[trigger] v.annotations@[k];
            &&& a.index == k
            &&& a.x == b.annotations@[k].x
            &&& a.y == b.annotations@[k].y
            &&& a.text@ == b.annotations@[k].text@
        }
    &&& v.net_count == (if m is None { nl.net_count as int } else { e.num_nets() as int })
}

fn status_of(cnt: &Vec<u16>, net: u32, Ghost(nl): Ghost<Netlist>) -> (r: NetStatus)
    requires
        cnt@.len() == nl.net_count,
        forall|m: int|
            0 <= m < cnt@.len() ==> #[trigger] cnt@[m] as nat == (if drivers(nl, m as u32, nl.pin_net@.len() as int) < 0xFFFF {
                drivers(nl, m as u32, nl.pin_net@.len() as int)
            } else {
                0xFFFF
            }),
        net == NO_NET || net < nl.net_count,
    ensures
        r == status_spec(nl, net),
{
    if net == NO_NET {
        return NetStatus::Undriven;
    }
    let c = cnt[net as usize];
    if c == 0 {
        NetStatus::Undriven
    } else if c == 1 {
        NetStatus::Normal
    } else {
        NetStatus::Conflict
    }
}

fn value_from(engine: &Engine, net: u32) -> (r: NetValue)
    requires
        engine.wf(),
    ensures
        r == value_on(engine, net),
{
    if net == NO_NET {
        NetValue::zero()
    } else {
        engine.net_value(net)
    }
}

fn width_from(engine: &Engine, net: u32) -> (r: Width)
    requires
        engine.wf(),
    ensures
        r == width_on(engine, net),
{
    if net == NO_NET {
        1
    } else {
        engine.net_width(net)
    }
}

/// Rebuilds the view of a drawing from its netlist, its nets mapped into
/// the simulation by `nm`.
#[verifier::rlimit(40)]
pub fn build_view_with(board: &Board, nl: &Netlist, nm: &NetMap, engine: &Engine) -> (v: CircuitView)
    requires
        board.wf(),
        netlist_ok(*board, nl),
        engine.wf(),
    ensures
        shows(v, *board, *nl, nm.view_map(), engine),
{
    let ghost m = nm.view_map();
    proof {
        assert(tables_ok(*board, nl));
    }
    let nets = nl.net_count as usize;
    let np = nl.pin_net.len();
    // drivers per local net, counted up to 65535
    let mut cnt: Vec<u16> = Vec::new();
    let mut n: usize = 0;
    while n < nets
        invariant
            n <= nets,
            cnt@.len() == n,
            forall|j: int| 0 <= j < n ==> #[trigger] cnt@[j] == 0,
        decreases nets - n,
    {
        cnt.push(0);
        n = n + 1;
    }
    let mut g: usize = 0;
    while g < np
        invariant
            netlist_ok(*board, nl),
            tables_ok(*board, nl),
            np == nl.pin_net@.len(),
            nets == nl.net_count,
            g <= np,
            cnt@.len() == nets,
            forall|m2: int|
                0 <= m2 < nets ==> #[trigger] cnt@[m2] as nat == (if drivers(*nl, m2 as u32, g as int) < 0xFFFF {
                    drivers(*nl, m2 as u32, g as int)
                } else {
                    0xFFFF
                }),
        decreases np - g,
    {
        let net = nl.pin_net[g];
        let ghost c0 = cnt@;
        proof {
            assert(net == NO_NET || net < nl.net_count);
        }
        if net != NO_NET && nl.pin_is_out[g] {
            let c = cnt[net as usize];
            if c < 0xFFFF {
                cnt.set(net as usize, c + 1);
            }
        }
        proof {
            assert forall|m2: int|
                0 <= m2 < nets implies #[trigger] cnt@[m2] as nat == (if drivers(*nl, m2 as u32, g as int + 1) < 0xFFFF {
                    drivers(*nl, m2 as u32, g as int + 1)
                } else {
                    0xFFFF
                }) by {
                assert(m2 as u32 as int == m2);
                assert(drivers(*nl, m2 as u32, g as int + 1) == drivers(*nl, m2 as u32, g as int) + if nl.pin_net@[g as int] == m2 as u32
                    && nl.pin_is_out@[g as int] {
                    1nat
                } else {
                    0nat
                });
                if m2 != net as int {
                    assert(cnt@[m2] == c0[m2]);
                }
            }
        }
        g = g + 1;
    }
    // components and pins, instance by instance
    let ni = board.instances.len();
    let mut components: Vec<ComponentView> = Vec::new();
    let mut pins: Vec<PinView> = Vec::new();
    proof {
        crate::elaborate::lemma_pin_base_zero(*board);
    }
    let mut ii: usize = 0;
    while ii < ni
        invariant
            board.wf(),
            netlist_ok(*board, nl),
            tables_ok(*board, nl),
            engine.wf(),
            m == nm.view_map(),
            ni == board.instances@.len(),
            ii <= ni,
            components@.len() == ii,
            forall|i: int| 0 <= i < ii ==> #[trigger] comp_shows(components@[i], *board, i),
            pins@.len() == crate::netlist::pin_base(*board, ii as int),
            forall|i: int, s: int|
                0 <= i < ii && 0 <= s < board.instances@[i].pins@.len() ==> #[trigger] pin_shows(
                    pins@[nl.pin_start@[i] + s],
                    *board,
                    *nl,
                    m,
                    engine,
                    i,
                    s,
                ),
        decreases ni - ii,
    {
        let inst = &board.instances[ii];
        proof {
            assert(inst.wf());
            crate::elaborate::lemma_pin_base_step(*board, ii as int);
        }
        let (w, h) = inst.size();
        components.push(ComponentView {
            inst: ii as u32,
            def: inst.def,
            label: inst.def.label(),
            name: crate::text::copy_str(inst.display_name.as_str()),
            x: inst.x,
            y: inst.y,
            w,
            h,
            rot: inst.rot,
        });
        let base = nl.pin_start[ii] as usize;
        let ghost pins0 = pins@;
        let mp = inst.pins.len();
        let mut sl: usize = 0;
        while sl < mp
            invariant
                board.wf(),
                netlist_ok(*board, nl),
                tables_ok(*board, nl),
                engine.wf(),
                m == nm.view_map(),
                ii < ni,
                ni == board.instances@.len(),
                *inst == board.instances@[ii as int],
                inst.wf(),
                mp == inst.pins@.len(),
                base == nl.pin_start@[ii as int],
                base == pins0.len(),
                base + mp <= nl.pin_net@.len(),
                sl <= mp,
                pins@.len() == base + sl,
                forall|j: int| 0 <= j < base ==> #[trigger] pins@[j] == pins0[j],
                forall|s: int| 0 <= s < sl ==> #[trigger] pin_shows(pins@[base + s], *board, *nl, m, engine, ii as int, s),
            decreases mp - sl,
        {
            let pd = &inst.pins[sl];
            let pn_len = nl.pin_net.len();
            assert(base + sl < pn_len);
            let local = nl.pin_net[base + sl];
            let net = nm.global(local);
            proof {
                assert(crate::board::pin_offset_ok(*pd));
            }
            pins.push(PinView {
                inst: ii as u32,
                slot: sl as u16,
                x: inst.x + pd.dx,
                y: inst.y + pd.dy,
                dir: pd.dir,
                width: pd.width,
                net,
                value: value_from(engine, net),
            });
            proof {
                assert(pins@[base + sl as int] == pins@.last());
            }
            sl = sl + 1;
        }
        proof {
            assert forall|i: int, s: int|
                0 <= i < ii + 1 && 0 <= s < board.instances@[i].pins@.len() implies #[trigger] pin_shows(
                pins@[nl.pin_start@[i] + s],
                *board,
                *nl,
                m,
                engine,
                i,
                s,
            ) by {
                if i < ii {
                    assert(nl.pin_start@[i] + s < base) by {
                        assert(nl.pin_start@[i] == crate::netlist::pin_base(*board, i));
                        lemma_pin_base_mono(*board, i + 1, ii as int);
                        crate::elaborate::lemma_pin_base_step(*board, i);
                    }
                    assert(pins@[nl.pin_start@[i] + s] == pins0[nl.pin_start@[i] + s]);
                }
            }
            assert(comp_shows(components@[ii as int], *board, ii as int));
        }
        ii = ii + 1;
    }
    // wires
    let nw = board.wires.len();
    let mut wires: Vec<WireView> = Vec::new();
    let mut wi: usize = 0;
    while wi < nw
        invariant
            board.wf(),
            netlist_ok(*board, nl),
            tables_ok(*board, nl),
            engine.wf(),
            m == nm.view_map(),
            cnt@.len() == nl.net_count,
            forall|m2: int|
                0 <= m2 < cnt@.len() ==> #[trigger] cnt@[m2] as nat == (if drivers(*nl, m2 as u32, nl.pin_net@.len() as int) < 0xFFFF {
                    drivers(*nl, m2 as u32, nl.pin_net@.len() as int)
                } else {
                    0xFFFF
                }),
            nw == board.wires@.len(),
            wi <= nw,
            wires@.len() == wi,
            forall|j: int| 0 <= j < wi ==> #[trigger] wire_shows(wires@[j], *board, *nl, m, engine, j),
        decreases nw - wi,
    {
        let local = nl.wire_net[wi];
        proof {
            assert(local == NO_NET || local < nl.net_count);
        }
        let net = nm.global(local);
        wires.push(WireView {
            index: wi as u32,
            net,
            points: copy_points(&board.wires[wi].points),
            width: width_from(engine, net),
            status: status_of(&cnt, local, Ghost(*nl)),
            value: value_from(engine, net),
        });
        wi = wi + 1;
    }
    // notes
    let na = board.annotations.len();
    let mut annotations: Vec<AnnotationView> = Vec::new();
    let mut k: usize = 0;
    while k < na
        invariant
            na == board.annotations@.len(),
            na <= crate::board::MAX_WIRES,
            k <= na,
            annotations@.len() == k,
            forall|j: int|
                0 <= j < k ==> {
                    let a = #[trigger] annotations@[j];
                    &&& a.index == j
                    &&& a.x == board.annotations@[j].x
                    &&& a.y == board.annotations@[j].y
                    &&& a.text@ == board.annotations@[j].text@
                },
        decreases na - k,
    {
        let a = &board.annotations[k];
        annotations.push(AnnotationView { index: k as u32, x: a.x, y: a.y, text: crate::text::copy_str(a.text.as_str()) });
        k = k + 1;
    }
    let net_count = match nm.map {
        None => nl.net_count,
        Some(_) => {
            proof {
                engine.lemma_nets_fit();
            }
            engine.net_count() as u32
        },
    };
    proof {
        crate::elaborate::lemma_pin_base_total(*board);
        assert(engine.num_nets() <= 0xFFFF_FFFF) by {
            engine.lemma_nets_fit();
        }
    }
    let v = CircuitView { components, pins, wires, annotations, net_count };
    proof {
        assert(v.pins@.len() == nl.pin_net@.len());
        assert(v.net_count == (if m is None { nl.net_count as int } else { engine.num_nets() as int }));
    }
    v
}

proof fn lemma_pin_base_mono(b: Board, i: int, j: int)
    requires
        0 <= i <= j <= b.instances@.len(),
    ensures
        crate::netlist::pin_base(b, i) <= crate::netlist::pin_base(b, j),
    decreases j - i,
{
    if i < j {
        lemma_pin_base_mono(b, i, j - 1);
        crate::elaborate::lemma_pin_base_step(b, j - 1);
    }
}

/// Rebuilds the view of a drawing the simulation runs alone.
pub fn build_view(board: &Board, engine: &Engine) -> (v: CircuitView)
    requires
        board.wf(),
        engine.wf(),
    ensures
        exists|nl: Netlist| netlist_ok(*board, &nl) && #[trigger] shows(v, *board, nl, None, engine),
{
    let nl = board.compile();
    let nm = NetMap { map: None };
    let v = build_view_with(board, &nl, &nm, engine);
    v
}

/// Brings every pin and wire value up to date with the simulation.
pub fn refresh_values(view: &mut CircuitView, engine: &Engine)
    requires
        engine.wf(),
    ensures
        final(view).components@ == old(view).components@,
        final(view).annotations@ == old(view).annotations@,
        final(view).net_count == old(view).net_count,
        final(view).pins@.len() == old(view).pins@.len(),
        forall|i: int|
            0 <= i < old(view).pins@.len() ==> #[trigger] final(view).pins@[i] == (PinView {
                value: value_on(engine, old(view).pins@[i].net),
                ..old(view).pins@[i]
            }),
        final(view).wires@.len() == old(view).wires@.len(),
        forall|i: int|
            0 <= i < old(view).wires@.len() ==> {
                let w = #[trigger] final(view).wires@[i];
                let o = old(view).wires@[i];
                &&& w.index == o.index
                &&& w.net == o.net
                &&& w.points@ == o.points@
                &&& w.width == o.width
                &&& w.status == o.status
                &&& w.value == value_on(engine, o.net)
            },
{
    let np = view.pins.len();
    let mut i: usize = 0;
    while i < np
        invariant
            engine.wf(),
            np == old(view).pins@.len(),
            view.pins@.len() == np,
            view.components@ == old(view).components@,
            view.annotations@ == old(view).annotations@,
            view.wires@ == old(view).wires@,
            view.net_count == old(view).net_count,
            i <= np,
            forall|j: int|
                0 <= j < i ==> #[trigger] view.pins@[j] == (PinView { value: value_on(engine, old(view).pins@[j].net), ..old(view).pins@[j] }),
            forall|j: int| i <= j < np ==> #[trigger] view.pins@[j] == old(view).pins@[j],
        decreases np - i,
    {
        let mut p = view.pins[i];
        p.value = value_from(engine, p.net);
        view.pins.set(i, p);
        i = i + 1;
    }
    let nw = view.wires.len();
    let mut k: usize = 0;
    while k < nw
        invariant
            engine.wf(),
            nw == old(view).wires@.len(),
            view.wires@.len() == nw,
            view.components@ == old(view).components@,
            view.annotations@ == old(view).annotations@,
            view.net_count == old(view).net_count,
            view.pins@.len() == np,
            np == old(view).pins@.len(),
            forall|j: int|
                0 <= j < np ==> #[trigger] view.pins@[j] == (PinView { value: value_on(engine, old(view).pins@[j].net), ..old(view).pins@[j] }),
            k <= nw,
            forall|j: int|
                0 <= j < k ==> {
                    let w = #[trigger] view.wires@[j];
                    let o = old(view).wires@[j];
                    &&& w.index == o.index
                    &&& w.net == o.net
                    &&& w.points@ == o.points@
                    &&& w.width == o.width
                    &&& w.status == o.status
                    &&& w.value == value_on(engine, o.net)
                },
            forall|j: int| k <= j < nw ==> #[trigger] view.wires@[j] == old(view).wires@[j],
        decreases nw - k,
    {
        let mut w = WireView {
            index: 0,
            net: NO_NET,
            points: Vec::new(),
            width: 1,
            status: NetStatus::Undriven,
            value: NetValue::zero(),
        };
        std::mem::swap(&mut w, &mut view.wires[k]);
        w.value = value_from(engine, w.net);
        std::mem::swap(&mut w, &mut view.wires[k]);
        k = k + 1;
    }
}

/// Running box: least x, least y, greatest x, greatest y, anything seen.
pub type BoxAcc = (int, int, int, int, bool);

pub open spec fn grow(a: BoxAcc, x0: int, y0: int, x1: int, y1: int) -> BoxAcc {
    (
        if x0 < a.0 { x0 } else { a.0 },
        if y0 < a.1 { y0 } else { a.1 },
        if x1 > a.2 { x1 } else { a.2 },
        if y1 > a.3 { y1 } else { a.3 },
        true,
    )
}

pub open spec fn comps_box(cs: Seq<ComponentView>, k: int, a: BoxAcc) -> BoxAcc
    decreases k,
{
    if k <= 0 {
        a
    } else {
        let c = cs[k - 1];
        grow(comps_box(cs, k - 1, a), c.x as int, c.y as int, c.x + c.w, c.y + c.h)
    }
}

pub open spec fn points_box(ps: Seq<Point>, k: int, a: BoxAcc) -> BoxAcc
    decreases k,
{
    if k <= 0 {
        a
    } else {
        let p = ps[k - 1];
        grow(points_box(ps, k - 1, a), p.x as int, p.y as int, p.x as int, p.y as int)
    }
}

pub open spec fn wires_box(ws: Seq<WireView>, k: int, a: BoxAcc) -> BoxAcc
    decreases k,
{
    if k <= 0 {
        a
    } else {
        let ps = ws[k - 1].points@;
        points_box(ps, ps.len() as int, wires_box(ws, k - 1, a))
    }
}

/// Width a note takes: its character count, at least 1.
pub open spec fn note_width(t: Seq<char>) -> int {
    if t.len() >= 1 { t.len() as int } else { 1 }
}

pub open spec fn notes_box(ns: Seq<AnnotationView>, k: int, a: BoxAcc) -> BoxAcc
    decreases k,
{
    if k <= 0 {
        a
    } else {
        let n = ns[k - 1];
        grow(notes_box(ns, k - 1, a), n.x as int, n.y as int, n.x + note_width(n.text@), n.y + 1)
    }
}

/// The box around everything drawn (components, wire points, notes).
pub open spec fn bounds_spec(v: CircuitView) -> Option<(Point, Point)> {
    let a0: BoxAcc = (i32::MAX as int, i32::MAX as int, i32::MIN as int, i32::MIN as int, false);
    let a1 = comps_box(v.components@, v.components@.len() as int, a0);
    let a2 = wires_box(v.wires@, v.wires@.len() as int, a1);
    let a3 = notes_box(v.annotations@, v.annotations@.len() as int, a2);
    if a3.4 {
        Some((Point { x: a3.0 as i32, y: a3.1 as i32 }, Point { x: a3.2 as i32, y: a3.3 as i32 }))
    } else {
        None
    }
}

/// Every far corner of the view fits an `i32`.
pub open spec fn corners_fit(v: CircuitView) -> bool {
    &&& forall|i: int| 0 <= i < v.components@.len() ==> {
        let c = #[trigger] v.components@[i];
        c.x + c.w <= i32::MAX && c.y + c.h <= i32::MAX && c.x + c.w >= i32::MIN && c.y + c.h >= i32::MIN
    }
    &&& forall|i: int| 0 <= i < v.annotations@.len() ==> {
        let n = #[trigger] v.annotations@[i];
        n.text@.len() <= i32::MAX && n.x + note_width(n.text@) <= i32::MAX && n.y + 1 <= i32::MAX
    }
}

/// Running box in machine integers.
spec fn acc_is(x0: i32, y0: i32, x1: i32, y1: i32, any: bool, a: BoxAcc) -> bool {
    a == (x0 as int, y0 as int, x1 as int, y1 as int, any)
}

impl CircuitView {
    /// Bounding box of the content in grid coordinates (for centring), or
    /// `None` when nothing is drawn.
    pub fn bounds(&self) -> (r: Option<(Point, Point)>)
        requires
            corners_fit(*self),
        ensures
            r == bounds_spec(*self),
    {
        let mut x0: i32 = i32::MAX;
        let mut y0: i32 = i32::MAX;
        let mut x1: i32 = i32::MIN;
        let mut y1: i32 = i32::MIN;
        let mut any = false;
        let ghost a0: BoxAcc = (i32::MAX as int, i32::MAX as int, i32::MIN as int, i32::MIN as int, false);
        let nc = self.components.len();
        let mut i: usize = 0;
        while i < nc
            invariant
                corners_fit(*self),
                nc == self.components@.len(),
                i <= nc,
                acc_is(x0, y0, x1, y1, any, comps_box(self.components@, i as int, a0)),
            decreases nc - i,
        {
            let c = &self.components[i];
            let ex = c.x + c.w;
            let ey = c.y + c.h;
            if c.x < x0 {
                x0 = c.x;
            }
            if c.y < y0 {
                y0 = c.y;
            }
            if ex > x1 {
                x1 = ex;
            }
            if ey > y1 {
                y1 = ey;
            }
            any = true;
            i = i + 1;
        }
        let ghost a1 = comps_box(self.components@, nc as int, a0);
        let nw = self.wires.len();
        let mut k: usize = 0;
        while k < nw
            invariant
                corners_fit(*self),
                nw == self.wires@.len(),
                k <= nw,
                acc_is(x0, y0, x1, y1, any, wires_box(self.wires@, k as int, a1)),
            decreases nw - k,
        {
            let ps = &self.wires[k].points;
            let ghost a_k = wires_box(self.wires@, k as int, a1);
            let np = ps.len();
            let mut j: usize = 0;
            while j < np
                invariant
                    np == ps@.len(),
                    *ps == self.wires@[k as int].points,
                    j <= np,
                    acc_is(x0, y0, x1, y1, any, points_box(ps@, j as int, a_k)),
                decreases np - j,
            {
                let p = ps[j];
                if p.x < x0 {
                    x0 = p.x;
                }
                if p.y < y0 {
                    y0 = p.y;
                }
                if p.x > x1 {
                    x1 = p.x;
                }
                if p.y > y1 {
                    y1 = p.y;
                }
                any = true;
                j = j + 1;
            }
            k = k + 1;
        }
        let ghost a2 = wires_box(self.wires@, nw as int, a1);
        let na = self.annotations.len();
        let mut q: usize = 0;
        while q < na
            invariant
                corners_fit(*self),
                na == self.annotations@.len(),
                q <= na,
                acc_is(x0, y0, x1, y1, any, notes_box(self.annotations@, q as int, a2)),
            decreases na - q,
        {
            let a = &self.annotations[q];
            proof {
                assert(a.text@.len() <= i32::MAX);
            }
            let len = a.text.as_str().unicode_len();
            let w: i32 = if len >= 1 { len as i32 } else { 1 };
            let ex = a.x + w;
            let ey = a.y + 1;
            if a.x < x0 {
                x0 = a.x;
            }
            if a.y < y0 {
                y0 = a.y;
            }
            if ex > x1 {
                x1 = ex;
            }
            if ey > y1 {
                y1 = ey;
            }
            any = true;
            q = q + 1;
        }
        if any {
            Some((Point::new(x0, y0), Point::new(x1, y1)))
        } else {
            None
        }
    }
}


/// A wire of a view is shown as a conflict exactly when its net has more
/// than one driver, as normal when it has exactly one, and as undriven when
/// it has none or the wire lies on no net.
pub proof fn law_wire_status_counts_drivers(v: CircuitView, b: Board, nl: Netlist, m: Option<Seq<u32>>, e: &Engine, wi: int)
    requires
        shows(v, b, nl, m, e),
        0 <= wi < b.wires@.len(),
    ensures
        ({
            let local = nl.wire_net@[wi];
            let d = drivers(nl, local, nl.pin_net@.len() as int);
            let st = v.wires@[wi].status;
            &&& (st == NetStatus::Conflict) <==> (local != NO_NET && d > 1)
            &&& (st == NetStatus::Normal) <==> (local != NO_NET && d == 1)
            &&& (st == NetStatus::Undriven) <==> (local == NO_NET || d == 0)
        }),
{
    assert(wire_shows(v.wires@[wi], b, nl, m, e, wi));
}

} // verus!
