//! Design rule checks.
//!
//!   - several outputs on one net (error);
//!   - a receiver whose width differs from the net's driver (error; widths
//!     change only through splitters and mergers);
//!   - an input that nothing drives (warning; it reads 0);
//!   - a feedback loop made of combinational components only (error: on
//!     hardware it oscillates; the simulation, with its one-tick delay, does
//!     not hang on it);
//!   - a sub-circuit that contains, directly or further down, the drawing it
//!     stands in (error).
use vstd::prelude::*;
use crate::board::{Board, NO_NET, NO_SUB};
use crate::netlist::{Netlist, netlist_ok, npins, tables_ok};
use crate::defs::{is_sink_spec, is_sequential_spec};
use crate::values::{decimal, push_decimal};
use crate::graph::{adj_view, adj_ok, step, reach, mutual, reversed, is_path, edge_at, reachable_from, lemma_reverse};

verus! {

/// How serious an issue is.
#[derive(Clone, Copy, PartialEq, Eq, Debug, Structural)]
pub enum Severity {
    /// The circuit still simulates.
    Warning,
    /// A design error.
    Error,
}

impl Severity {
    pub fn code(self) -> (r: i64)
        ensures
            r == match self {
                Severity::Warning => 0int,
                Severity::Error => 1int,
            },
    {
        match self {
            Severity::Warning => 0,
            Severity::Error => 1,
        }
    }

    pub fn label(self) -> (r: &'static str)
        ensures
            r@ == match self {
                Severity::Warning => "警告"@,
                Severity::Error => "错误"@,
            },
    {
        match self {
            Severity::Warning => "警告",
            Severity::Error => "错误",
        }
    }
}

/// Kind of issue.
#[derive(Clone, Copy, PartialEq, Eq, Debug, Structural)]
pub enum IssueKind {
    MultiDriver,
    WidthMismatch,
    DanglingInput,
    CombinationalLoop,
    CircularReference,
}

impl IssueKind {
    pub fn code(self) -> (r: i64)
        ensures
            r == match self {
                IssueKind::MultiDriver => 0int,
                IssueKind::WidthMismatch => 1int,
                IssueKind::DanglingInput => 2int,
                IssueKind::CombinationalLoop => 3int,
                IssueKind::CircularReference => 4int,
            },
    {
        match self {
            IssueKind::MultiDriver => 0,
            IssueKind::WidthMismatch => 1,
            IssueKind::DanglingInput => 2,
            IssueKind::CombinationalLoop => 3,
            IssueKind::CircularReference => 4,
        }
    }

    pub fn label(self) -> (r: &'static str)
        ensures
            r@ == match self {
                IssueKind::MultiDriver => "多驱动"@,
                IssueKind::WidthMismatch => "位宽不匹配"@,
                IssueKind::DanglingInput => "悬空输入"@,
                IssueKind::CombinationalLoop => "组合环"@,
                IssueKind::CircularReference => "循环引用"@,
            },
    {
        match self {
            IssueKind::MultiDriver => "多驱动",
            IssueKind::WidthMismatch => "位宽不匹配",
            IssueKind::DanglingInput => "悬空输入",
            IssueKind::CombinationalLoop => "组合环",
            IssueKind::CircularReference => "循环引用",
        }
    }
}

/// No instance involved.
pub const NO_INST: u32 = 0xFFFF_FFFF;

/// One finding.
#[derive(Clone, Debug)]
pub struct Issue {
    pub kind: IssueKind,
    pub severity: Severity,
    /// Net involved (`NO_NET` when none).
    pub net: u32,
    /// Instance involved (`NO_INST` when none).
    pub inst: u32,
    pub detail: String,
}

/// An issue as plain values.
pub type IssueV = (IssueKind, Severity, u32, u32, Seq<char>);

pub open spec fn iv(i: Issue) -> IssueV {
    (i.kind, i.severity, i.net, i.inst, i.detail@)
}

pub open spec fn ivs(v: Seq<Issue>) -> Seq<IssueV> {
    Seq::new(v.len(), |i: int| iv(v[i]))
}

pub open spec fn dangling_detail(name: Seq<char>) -> Seq<char> {
    "输入 "@ + name + " 未连接（读作 0）"@
}

pub open spec fn multi_detail(count: nat) -> Seq<char> {
    decimal(count) + " 个输出同时驱动同一网络"@
}

pub open spec fn width_detail(dw: u8, w: u8) -> Seq<char> {
    "驱动 "@ + decimal(dw as nat) + " 位，接收 "@ + decimal(w as nat) + " 位（须经 Splitter / Merger）"@
}

pub open spec fn undriven_detail() -> Seq<char> {
    "该网络没有任何驱动（读作 0）"@
}

pub open spec fn loop_detail(count: nat) -> Seq<char> {
    decimal(count) + " 个组合组件构成反馈环（反馈必须经过时序元件）"@
}

pub open spec fn circular_detail() -> Seq<char> {
    "子电路里又包含了它所在的图纸"@
}

fn push_issue(out: &mut Vec<Issue>, kind: IssueKind, severity: Severity, net: u32, inst: u32, detail: String)
    ensures
        ivs(final(out)@) == ivs(old(out)@).push((kind, severity, net, inst, detail@)),
{
    let ghost o = out@;
    out.push(Issue { kind, severity, net, inst, detail });
    assert(ivs(out@) =~= ivs(o).push((kind, severity, net, inst, detail@)));
}

// ---------------------------------------------------------------------------
// Net checks, over the global pins of a netlist
// ---------------------------------------------------------------------------

/// Name of global pin `g` (empty when the tables do not place it).
pub open spec fn pin_name(b: Board, nl: Netlist, g: int) -> Seq<char> {
    let o = nl.pin_owner@[g] as int;
    let s = nl.pin_slot@[g] as int;
    if o < b.instances@.len() && s < b.instances@[o].pins@.len() {
        b.instances@[o].pins@[s].name@
    } else {
        Seq::empty()
    }
}

/// Inputs that lie on no net, among the first `upto` pins.
pub open spec fn unconnected(b: Board, nl: Netlist, upto: int) -> Seq<IssueV>
    decreases upto,
{
    if upto <= 0 {
        Seq::empty()
    } else {
        let g = upto - 1;
        unconnected(b, nl, g) + if nl.pin_net@[g] == NO_NET && !nl.pin_is_out@[g] {
            seq![(IssueKind::DanglingInput, Severity::Warning, NO_NET, nl.pin_owner@[g], dangling_detail(pin_name(b, nl, g)))]
        } else {
            Seq::empty()
        }
    }
}

/// Outputs on net `n` among the first `upto` pins.
pub open spec fn drivers(nl: Netlist, n: u32, upto: int) -> nat
    decreases upto,
{
    if upto <= 0 {
        0
    } else {
        drivers(nl, n, upto - 1) + if nl.pin_net@[upto - 1] == n && nl.pin_is_out@[upto - 1] { 1nat } else { 0nat }
    }
}

/// Width of the first output on net `n` among the first `upto` pins.
pub open spec fn first_width(nl: Netlist, n: u32, upto: int) -> u8
    decreases upto,
{
    if upto <= 0 {
        0
    } else if drivers(nl, n, upto - 1) > 0 {
        first_width(nl, n, upto - 1)
    } else if nl.pin_net@[upto - 1] == n && nl.pin_is_out@[upto - 1] {
        nl.pin_width@[upto - 1]
    } else {
        0
    }
}

/// Inputs on net `n` among the first `upto` pins, in pin order.
pub open spec fn receivers(nl: Netlist, n: u32, upto: int) -> Seq<u32>
    decreases upto,
{
    if upto <= 0 {
        Seq::empty()
    } else {
        receivers(nl, n, upto - 1) + if nl.pin_net@[upto - 1] == n && !nl.pin_is_out@[upto - 1] {
            seq![(upto - 1) as u32]
        } else {
            Seq::empty()
        }
    }
}

/// Issues of the first `k` receivers `rs` of net `n`.
pub open spec fn receiver_issues(nl: Netlist, n: u32, rs: Seq<u32>, k: int) -> Seq<IssueV>
    decreases k,
{
    let np = nl.pin_net@.len() as int;
    if k <= 0 {
        Seq::empty()
    } else {
        let g = rs[k - 1] as int;
        receiver_issues(nl, n, rs, k - 1) + if drivers(nl, n, np) > 0 {
            let dw = first_width(nl, n, np);
            if nl.pin_width@[g] != dw {
                seq![(IssueKind::WidthMismatch, Severity::Error, n, nl.pin_owner@[g], width_detail(dw, nl.pin_width@[g]))]
            } else {
                Seq::empty()
            }
        } else {
            seq![(IssueKind::DanglingInput, Severity::Warning, n, nl.pin_owner@[g], undriven_detail())]
        }
    }
}

/// Issues of net `n`.
pub open spec fn net_issues(nl: Netlist, n: u32) -> Seq<IssueV> {
    let np = nl.pin_net@.len() as int;
    let d = drivers(nl, n, np);
    let rs = receivers(nl, n, np);
    (if d > 1 {
        seq![(IssueKind::MultiDriver, Severity::Error, n, NO_INST, multi_detail(if d < 0xFFFF { d } else { 0xFFFF }))]
    } else {
        Seq::empty()
    }) + receiver_issues(nl, n, rs, rs.len() as int)
}

/// Issues of nets `0..upto`.
pub open spec fn nets_issues(nl: Netlist, upto: int) -> Seq<IssueV>
    decreases upto,
{
    if upto <= 0 {
        Seq::empty()
    } else {
        nets_issues(nl, upto - 1) + net_issues(nl, (upto - 1) as u32)
    }
}

/// What the net checks report: unconnected inputs in pin order, then net by
/// net the multi-driver error and the receivers' width or drive issues.
pub open spec fn net_checks(b: Board, nl: Netlist) -> Seq<IssueV> {
    unconnected(b, nl, nl.pin_net@.len() as int) + nets_issues(nl, nl.net_count as int)
}

/// The per-pin tables have one length and every net is below the count.
pub open spec fn tables_sane(nl: Netlist) -> bool {
    let np = nl.pin_net@.len();
    &&& nl.pin_owner@.len() == np
    &&& nl.pin_slot@.len() == np
    &&& nl.pin_width@.len() == np
    &&& nl.pin_is_out@.len() == np
    &&& np < 0xFFFF_FFFF
    &&& forall|g: int| 0 <= g < np ==> (#[trigger] nl.pin_net@[g] == NO_NET || nl.pin_net@[g] < nl.net_count)
}

/// `c`, `f` and `r` tally net `m` over the first `upto` pins: the driver
/// count (capped at 65535), the first driver's width, the receivers.
spec fn tally_ok(nl: Netlist, m: int, upto: int, c: u16, f: u8, r: Seq<u32>) -> bool {
    let d = drivers(nl, m as u32, upto);
    &&& c as nat == (if d < 0xFFFF { d } else { 0xFFFF })
    &&& f == first_width(nl, m as u32, upto)
    &&& r == receivers(nl, m as u32, upto)
}

proof fn lemma_first_width_zero(nl: Netlist, n: u32, upto: int)
    ensures
        drivers(nl, n, upto) == 0 ==> first_width(nl, n, upto) == 0,
    decreases upto,
{
    if upto > 0 {
        lemma_first_width_zero(nl, n, upto - 1);
    }
}

proof fn lemma_receivers_range(nl: Netlist, n: u32, upto: int)
    requires
        0 <= upto <= nl.pin_net@.len(),
    ensures
        forall|j: int| 0 <= j < receivers(nl, n, upto).len() ==> (#[trigger] receivers(nl, n, upto)[j]) < upto,
    decreases upto,
{
    if upto > 0 {
        lemma_receivers_range(nl, n, upto - 1);
        let r0 = receivers(nl, n, upto - 1);
        let r = receivers(nl, n, upto);
        assert forall|j: int| 0 <= j < r.len() implies (#[trigger] r[j]) < upto by {
            if j < r0.len() {
                assert(r[j] == r0[j]);
            }
        }
    }
}

fn detail_dangling(name: &String) -> (r: String)
    ensures
        r@ == dangling_detail(name@),
{
    let mut s = String::new();
    s.append("输入 ");
    s.append(name.as_str());
    s.append(" 未连接（读作 0）");
    s
}

fn detail_multi(count: u16) -> (r: String)
    ensures
        r@ == multi_detail(count as nat),
{
    let mut s = String::new();
    push_decimal(&mut s, count as u64);
    s.append(" 个输出同时驱动同一网络");
    s
}

fn detail_width(dw: u8, w: u8) -> (r: String)
    ensures
        r@ == width_detail(dw, w),
{
    let mut s = String::new();
    s.append("驱动 ");
    push_decimal(&mut s, dw as u64);
    s.append(" 位，接收 ");
    push_decimal(&mut s, w as u64);
    s.append(" 位（须经 Splitter / Merger）");
    s
}

fn detail_undriven() -> (r: String)
    ensures
        r@ == undriven_detail(),
{
    let mut s = String::new();
    s.append("该网络没有任何驱动（读作 0）");
    s
}

/// Net-level checks: unconnected inputs, multiple drivers, width mismatches,
/// undriven receivers.
pub fn check_nets(board: &Board, nl: &Netlist, out: &mut Vec<Issue>)
    requires
        tables_sane(*nl),
    ensures
        ivs(final(out)@) == ivs(old(out)@) + net_checks(*board, *nl),
{
    let np = nl.pin_net.len();
    let nets = nl.net_count as usize;
    let ghost o0 = ivs(out@);
    // unconnected inputs
    let mut g: usize = 0;
    while g < np
        invariant
            tables_sane(*nl),
            np == nl.pin_net@.len(),
            g <= np,
            ivs(out@) == o0 + unconnected(*board, *nl, g as int),
        decreases np - g,
    {
        if nl.pin_net[g] == NO_NET && !nl.pin_is_out[g] {
            let o = nl.pin_owner[g] as usize;
            let sl = nl.pin_slot[g] as usize;
            let name = if o < board.instances.len() && sl < board.instances[o].pins.len() {
                board.instances[o].pins[sl].name.clone()
            } else {
                String::new()
            };
            proof {
                assert(name@ == pin_name(*board, *nl, g as int));
            }
            push_issue(out, IssueKind::DanglingInput, Severity::Warning, NO_NET, nl.pin_owner[g], detail_dangling(&name));
        }
        proof {
            assert(unconnected(*board, *nl, g as int + 1) == unconnected(*board, *nl, g as int) + if nl.pin_net@[g as int] == NO_NET
                && !nl.pin_is_out@[g as int] {
                seq![(IssueKind::DanglingInput, Severity::Warning, NO_NET, nl.pin_owner@[g as int], dangling_detail(pin_name(*board, *nl, g as int)))]
            } else {
                Seq::empty()
            });
            assert(ivs(out@) =~= o0 + unconnected(*board, *nl, g as int + 1));
        }
        g = g + 1;
    }
    let ghost o1 = ivs(out@);
    // per net: drivers (saturating count), first driver width, receivers
    let mut cnt: Vec<u16> = Vec::new();
    let mut fw: Vec<u8> = Vec::new();
    let mut recv: Vec<Vec<u32>> = Vec::new();
    let mut n: usize = 0;
    while n < nets
        invariant
            n <= nets,
            cnt@.len() == n,
            fw@.len() == n,
            recv@.len() == n,
            forall|m: int| 0 <= m < n ==> #[trigger] tally_ok(*nl, m, 0, cnt@[m], fw@[m], recv@[m]@),
        decreases nets - n,
    {
        cnt.push(0);
        fw.push(0);
        recv.push(Vec::new());
        proof {
            assert(tally_ok(*nl, n as int, 0, cnt@[n as int], fw@[n as int], recv@[n as int]@));
        }
        n = n + 1;
    }
    let mut g2: usize = 0;
    while g2 < np
        invariant
            tables_sane(*nl),
            np == nl.pin_net@.len(),
            nets == nl.net_count,
            g2 <= np,
            cnt@.len() == nets,
            fw@.len() == nets,
            recv@.len() == nets,
            forall|m: int| 0 <= m < nets ==> #[trigger] tally_ok(*nl, m, g2 as int, cnt@[m], fw@[m], recv@[m]@),
        decreases np - g2,
    {
        let m = nl.pin_net[g2];
        let ghost cnt0 = cnt@;
        let ghost fw0 = fw@;
        let ghost recv0 = recv@;
        if m != NO_NET {
            let mi = m as usize;
            if nl.pin_is_out[g2] {
                if cnt[mi] == 0 {
                    fw.set(mi, nl.pin_width[g2]);
                }
                if cnt[mi] < 0xFFFF {
                    let c = cnt[mi] + 1;
                    cnt.set(mi, c);
                }
            } else {
                let mut v: Vec<u32> = Vec::new();
                std::mem::swap(&mut v, &mut recv[mi]);
                v.push(g2 as u32);
                std::mem::swap(&mut v, &mut recv[mi]);
            }
        }
        proof {
            assert forall|m2: int| 0 <= m2 < nets implies #[trigger] tally_ok(*nl, m2, g2 as int + 1, cnt@[m2], fw@[m2], recv@[m2]@) by {
                assert(tally_ok(*nl, m2, g2 as int, cnt0[m2], fw0[m2], recv0[m2]@));
                assert(drivers(*nl, m2 as u32, g2 as int) > 0 <==> cnt0[m2] > 0);
                assert(m2 as u32 as int == m2);
                let hit = nl.pin_net@[g2 as int] == m2 as u32;
                assert(drivers(*nl, m2 as u32, g2 as int + 1) == drivers(*nl, m2 as u32, g2 as int) + if hit && nl.pin_is_out@[g2 as int] {
                    1nat
                } else {
                    0nat
                });
                assert(first_width(*nl, m2 as u32, g2 as int + 1) == if drivers(*nl, m2 as u32, g2 as int) > 0 {
                    first_width(*nl, m2 as u32, g2 as int)
                } else if hit && nl.pin_is_out@[g2 as int] {
                    nl.pin_width@[g2 as int]
                } else {
                    0
                });
                assert(drivers(*nl, m2 as u32, g2 as int) == 0 ==> first_width(*nl, m2 as u32, g2 as int) == 0) by {
                    lemma_first_width_zero(*nl, m2 as u32, g2 as int);
                }
                assert(receivers(*nl, m2 as u32, g2 as int + 1) == receivers(*nl, m2 as u32, g2 as int) + if hit && !nl.pin_is_out@[g2 as int] {
                    seq![g2 as u32]
                } else {
                    Seq::empty()
                });
                if m2 != m as int {
                    assert(!hit);
                    assert(cnt@[m2] == cnt0[m2]);
                    assert(fw@[m2] == fw0[m2]);
                    assert(recv@[m2] == recv0[m2]);
                    assert(receivers(*nl, m2 as u32, g2 as int + 1) =~= receivers(*nl, m2 as u32, g2 as int));
                } else {
                    assert(hit);
                    if !nl.pin_is_out@[g2 as int] {
                        assert(recv@[m2]@ =~= recv0[m2]@.push(g2 as u32));
                    } else {
                        assert(receivers(*nl, m2 as u32, g2 as int + 1) =~= receivers(*nl, m2 as u32, g2 as int));
                    }
                }
                let d1 = drivers(*nl, m2 as u32, g2 as int + 1);
                assert(cnt@[m2] as nat == (if d1 < 0xFFFF { d1 } else { 0xFFFF }));
                assert(fw@[m2] == first_width(*nl, m2 as u32, g2 as int + 1));
                assert(recv@[m2]@ == receivers(*nl, m2 as u32, g2 as int + 1));
            }
        }
        g2 = g2 + 1;
    }
    // issues, net by net
    let mut n2: usize = 0;
    while n2 < nets
        invariant
            tables_sane(*nl),
            np == nl.pin_net@.len(),
            nets == nl.net_count,
            n2 <= nets,
            cnt@.len() == nets,
            fw@.len() == nets,
            recv@.len() == nets,
            forall|m: int| 0 <= m < nets ==> #[trigger] tally_ok(*nl, m, np as int, cnt@[m], fw@[m], recv@[m]@),
            ivs(out@) == o1 + nets_issues(*nl, n2 as int),
            o1 == o0 + unconnected(*board, *nl, np as int),
        decreases nets - n2,
    {
        let ghost before = ivs(out@);
        let c = cnt[n2];
        proof {
            assert(tally_ok(*nl, n2 as int, np as int, cnt@[n2 as int], fw@[n2 as int], recv@[n2 as int]@));
            lemma_receivers_range(*nl, n2 as u32, np as int);
        }
        if c > 1 {
            push_issue(out, IssueKind::MultiDriver, Severity::Error, n2 as u32, NO_INST, detail_multi(c));
        }
        let ghost after_multi = ivs(out@);
        let rs = &recv[n2];
        let nr = rs.len();
        let mut k: usize = 0;
        while k < nr
            invariant
                tables_sane(*nl),
                np == nl.pin_net@.len(),
                n2 < nets,
                nets == nl.net_count,
                rs@ == receivers(*nl, n2 as u32, np as int),
                nr == rs@.len(),
                c as nat == (if drivers(*nl, n2 as u32, np as int) < 0xFFFF { drivers(*nl, n2 as u32, np as int) } else { 0xFFFF }),
                fw@.len() == nets,
                fw@[n2 as int] == first_width(*nl, n2 as u32, np as int),
                k <= nr,
                forall|j: int| 0 <= j < rs@.len() ==> (#[trigger] rs@[j]) < np,
                ivs(out@) == after_multi + receiver_issues(*nl, n2 as u32, rs@, k as int),
            decreases nr - k,
        {
            let gg = rs[k] as usize;
            if c > 0 {
                let dw = fw[n2];
                let w = nl.pin_width[gg];
                if w != dw {
                    push_issue(out, IssueKind::WidthMismatch, Severity::Error, n2 as u32, nl.pin_owner[gg], detail_width(dw, w));
                }
            } else {
                push_issue(out, IssueKind::DanglingInput, Severity::Warning, n2 as u32, nl.pin_owner[gg], detail_undriven());
            }
            proof {
                assert(ivs(out@) =~= after_multi + receiver_issues(*nl, n2 as u32, rs@, k as int + 1));
            }
            k = k + 1;
        }
        proof {
            assert(ivs(out@) =~= o1 + nets_issues(*nl, n2 as int + 1));
        }
        n2 = n2 + 1;
    }
    proof {
        assert(ivs(out@) =~= o0 + net_checks(*board, *nl));
    }
}

// ---------------------------------------------------------------------------
// Combinational loops
// ---------------------------------------------------------------------------

/// Pin `g2` is an input of instance `v`, not a sink, on net `m`.
pub open spec fn reads(b: Board, nl: Netlist, g2: int, m: u32, v: int) -> bool {
    &&& !nl.pin_is_out@[g2]
    &&& nl.pin_net@[g2] == m
    &&& nl.pin_owner@[g2] == v
    &&& 0 <= v < b.instances@.len()
    &&& !is_sink_spec(b.instances@[v].def)
}

/// Some pin below `upto` is an input of `v` on net `m`.
pub open spec fn rx_has(b: Board, nl: Netlist, m: u32, v: int, upto: int) -> bool {
    exists|g2: int| 0 <= g2 < upto && #[trigger] reads(b, nl, g2, m, v)
}

/// Output pin `g` of instance `u` lies on a net that an input of `v` reads.
pub open spec fn drives_into(b: Board, nl: Netlist, g: int, u: int, v: int) -> bool {
    &&& nl.pin_is_out@[g]
    &&& nl.pin_owner@[g] == u
    &&& nl.pin_net@[g] != NO_NET
    &&& rx_has(b, nl, nl.pin_net@[g], v, nl.pin_net@.len() as int)
}

/// Instance `u` (not a sink) feeds instance `v` (not a sink; possibly `u`
/// itself) through one of its outputs, among the first `upto` pins.
pub open spec fn feeds_upto(b: Board, nl: Netlist, u: int, v: int, upto: int) -> bool {
    &&& 0 <= u < b.instances@.len()
    &&& 0 <= v < b.instances@.len()
    &&& !is_sink_spec(b.instances@[u].def)
    &&& exists|g: int| 0 <= g < upto && #[trigger] drives_into(b, nl, g, u, v)
}

/// Instance `u` feeds instance `v`: an edge of the component graph.
pub open spec fn comb_edge(b: Board, nl: Netlist, u: int, v: int) -> bool {
    feeds_upto(b, nl, u, v, nl.pin_net@.len() as int)
}

pub open spec fn comb_step_at(b: Board, nl: Netlist, p: Seq<int>, i: int) -> bool {
    comb_edge(b, nl, p[i], p[i + 1])
}

/// A path of the component graph.
pub open spec fn comb_path(b: Board, nl: Netlist, p: Seq<int>) -> bool {
    p.len() >= 1 && forall|i: int| 0 <= i < p.len() - 1 ==> #[trigger] comb_step_at(b, nl, p, i)
}

/// Instance `v` can be reached from `u` along the component graph.
pub open spec fn comb_reach(b: Board, nl: Netlist, u: int, v: int) -> bool {
    exists|p: Seq<int>| #[trigger] comb_path(b, nl, p) && p[0] == u && p.last() == v
}

/// `u` and `v` lie on one feedback loop (or are the same instance).
pub open spec fn in_loop_with(b: Board, nl: Netlist, u: int, v: int) -> bool {
    comb_reach(b, nl, u, v) && comb_reach(b, nl, v, u)
}

/// Instances below `upto` on a loop with `u` (`u` itself included).
pub open spec fn loop_count(b: Board, nl: Netlist, u: int, upto: int) -> nat
    decreases upto,
{
    if upto <= 0 {
        0
    } else {
        loop_count(b, nl, u, upto - 1) + if in_loop_with(b, nl, u, upto - 1) { 1nat } else { 0nat }
    }
}

/// `u` is the first instance of a loop group, none of it sequential: a group
/// of at least two instances, or a single one that feeds itself.
pub open spec fn loop_root(b: Board, nl: Netlist, u: int) -> bool {
    let n = b.instances@.len() as int;
    &&& forall|v: int| 0 <= v < u ==> !#[trigger] in_loop_with(b, nl, v, u)
    &&& (loop_count(b, nl, u, n) >= 2 || comb_edge(b, nl, u, u))
    &&& forall|v: int| 0 <= v < n && #[trigger] in_loop_with(b, nl, u, v) ==> !is_sequential_spec(b.instances@[v].def)
}

/// One error per purely combinational loop group, in order of its first
/// instance, naming that instance and the group's size.
pub open spec fn loop_issues(b: Board, nl: Netlist, upto: int) -> Seq<IssueV>
    decreases upto,
{
    if upto <= 0 {
        Seq::empty()
    } else {
        let u = upto - 1;
        loop_issues(b, nl, u) + if loop_root(b, nl, u) {
            seq![(IssueKind::CombinationalLoop, Severity::Error, NO_NET, u as u32, loop_detail(loop_count(b, nl, u, b.instances@.len() as int)))]
        } else {
            Seq::empty()
        }
    }
}

/// A graph whose edges are those of the component graph reaches as it does.
proof fn lemma_comb_graph(b: Board, nl: Netlist, g: Seq<Seq<u32>>, u: int, v: int)
    requires
        forall|a: int, c: int| #[trigger] step(g, a, c) == comb_edge(b, nl, a, c),
    ensures
        reach(g, u, v) == comb_reach(b, nl, u, v),
{
    if reach(g, u, v) {
        let p = choose|p: Seq<int>| #[trigger] is_path(g, p) && p[0] == u && p.last() == v;
        assert forall|i: int| 0 <= i < p.len() - 1 implies #[trigger] comb_step_at(b, nl, p, i) by {
            assert(edge_at(g, p, i));
        }
        assert(comb_path(b, nl, p));
    }
    if comb_reach(b, nl, u, v) {
        let p = choose|p: Seq<int>| #[trigger] comb_path(b, nl, p) && p[0] == u && p.last() == v;
        assert forall|i: int| 0 <= i < p.len() - 1 implies #[trigger] edge_at(g, p, i) by {
            assert(comb_step_at(b, nl, p, i));
        }
        assert(is_path(g, p));
    }
}

fn detail_loop(count: u32) -> (r: String)
    ensures
        r@ == loop_detail(count as nat),
{
    let mut s = String::new();
    push_decimal(&mut s, count as u64);
    s.append(" 个组合组件构成反馈环（反馈必须经过时序元件）");
    s
}

/// Lists of the non-sink instances reading each net.
fn net_readers(board: &Board, nl: &Netlist) -> (rx: Vec<Vec<u32>>)
    requires
        tables_sane(*nl),
        board.instances@.len() <= 0xFFFF_FFFF,
    ensures
        rx@.len() == nl.net_count,
        forall|m: int, k: int| 0 <= m < rx@.len() && 0 <= k < rx@[m]@.len() ==> (#[trigger] rx@[m]@[k]) < board.instances@.len(),
        forall|m: int, v: int|
            0 <= m < rx@.len() && 0 <= v < board.instances@.len() ==> (#[trigger] rx@[m]@.contains(v as u32) <==> rx_has(
                *board,
                *nl,
                m as u32,
                v,
                nl.pin_net@.len() as int,
            )),
{
    let nets = nl.net_count as usize;
    let np = nl.pin_net.len();
    let ni = board.instances.len();
    let mut rx: Vec<Vec<u32>> = Vec::new();
    let mut m: usize = 0;
    while m < nets
        invariant
            m <= nets,
            rx@.len() == m,
            forall|j: int| 0 <= j < m ==> (#[trigger] rx@[j])@.len() == 0,
        decreases nets - m,
    {
        rx.push(Vec::new());
        m = m + 1;
    }
    let mut g: usize = 0;
    while g < np
        invariant
            tables_sane(*nl),
            np == nl.pin_net@.len(),
            nets == nl.net_count,
            ni == board.instances@.len(),
            ni <= 0xFFFF_FFFF,
            g <= np,
            rx@.len() == nets,
            forall|m2: int, k: int| 0 <= m2 < rx@.len() && 0 <= k < rx@[m2]@.len() ==> (#[trigger] rx@[m2]@[k]) < ni,
            forall|m2: int, v: int|
                0 <= m2 < rx@.len() && 0 <= v < ni ==> (#[trigger] rx@[m2]@.contains(v as u32) <==> rx_has(*board, *nl, m2 as u32, v, g as int)),
        decreases np - g,
    {
        let net = nl.pin_net[g];
        let o = nl.pin_owner[g];
        let ghost rx0 = rx@;
        if !nl.pin_is_out[g] && net != NO_NET && (o as usize) < ni {
            if !board.instances[o as usize].def.is_sink() {
                let mut v: Vec<u32> = Vec::new();
                std::mem::swap(&mut v, &mut rx[net as usize]);
                v.push(o);
                std::mem::swap(&mut v, &mut rx[net as usize]);
            }
        }
        proof {
            let pushed = !nl.pin_is_out@[g as int] && net != NO_NET && (o as int) < ni && !is_sink_spec(board.instances@[o as int].def);
            if pushed {
                assert(rx@ == rx0.update(net as int, rx@[net as int]));
                assert(rx@[net as int]@ == rx0[net as int]@.push(o));
            } else {
                assert(rx@ == rx0);
            }
            assert forall|m2: int, v: int|
                0 <= m2 < rx@.len() && 0 <= v < ni implies (#[trigger] rx@[m2]@.contains(v as u32) <==> rx_has(*board, *nl, m2 as u32, v, g as int + 1)) by {
                assert(rx0[m2]@.contains(v as u32) <==> rx_has(*board, *nl, m2 as u32, v, g as int));
                assert(reads(*board, *nl, g as int, m2 as u32, v) <==> (pushed && net == m2 as u32 && o as int == v));
                assert(rx_has(*board, *nl, m2 as u32, v, g as int + 1) <==> (rx_has(*board, *nl, m2 as u32, v, g as int) || reads(*board, *nl, g as int, m2 as u32, v))) by {
                    if rx_has(*board, *nl, m2 as u32, v, g as int + 1) && !reads(*board, *nl, g as int, m2 as u32, v) {
                        let g2 = choose|g2: int| 0 <= g2 < g + 1 && #[trigger] reads(*board, *nl, g2, m2 as u32, v);
                        assert(g2 < g);
                    }
                    if rx_has(*board, *nl, m2 as u32, v, g as int) {
                        let g2 = choose|g2: int| 0 <= g2 < g && #[trigger] reads(*board, *nl, g2, m2 as u32, v);
                        assert(0 <= g2 < g + 1);
                    }
                    if reads(*board, *nl, g as int, m2 as u32, v) {
                        assert(0 <= g < g + 1);
                    }
                }
                if pushed && m2 == net as int {
                    let old_r = rx0[m2]@;
                    let new_r = rx@[m2]@;
                    assert(new_r == old_r.push(o));
                    if new_r.contains(v as u32) && !old_r.contains(v as u32) {
                        let k = choose|k: int| 0 <= k < new_r.len() && new_r[k] == v as u32;
                        if k < old_r.len() {
                            assert(old_r[k] == v as u32);
                        }
                        assert(v as u32 == o);
                    }
                    if old_r.contains(v as u32) {
                        let k = choose|k: int| 0 <= k < old_r.len() && old_r[k] == v as u32;
                        assert(new_r[k] == v as u32);
                    }
                    if o as int == v {
                        assert(new_r[old_r.len() as int] == v as u32);
                    }
                } else {
                    assert(rx@[m2] == rx0[m2]);
                }
            }
        }
        g = g + 1;
    }
    rx
}

/// The component graph as adjacency lists.
fn comb_adj(board: &Board, nl: &Netlist) -> (adj: Vec<Vec<u32>>)
    requires
        tables_sane(*nl),
        board.instances@.len() < 0xFFFF_FFFF,
    ensures
        adj@.len() == board.instances@.len(),
        adj_ok(adj_view(&adj)),
        forall|a: int, c: int| #[trigger] step(adj_view(&adj), a, c) == comb_edge(*board, *nl, a, c),
{
    let rx = net_readers(board, nl);
    let ni = board.instances.len();
    let np = nl.pin_net.len();
    let mut adj: Vec<Vec<u32>> = Vec::new();
    let mut i: usize = 0;
    while i < ni
        invariant
            i <= ni,
            adj@.len() == i,
            forall|j: int| 0 <= j < i ==> (#[trigger] adj@[j])@.len() == 0,
        decreases ni - i,
    {
        adj.push(Vec::new());
        i = i + 1;
    }
    let mut g: usize = 0;
    while g < np
        invariant
            tables_sane(*nl),
            np == nl.pin_net@.len(),
            ni == board.instances@.len(),
            ni < 0xFFFF_FFFF,
            rx@.len() == nl.net_count,
            forall|m: int, k: int| 0 <= m < rx@.len() && 0 <= k < rx@[m]@.len() ==> (#[trigger] rx@[m]@[k]) < ni,
            forall|m: int, v: int|
                0 <= m < rx@.len() && 0 <= v < ni ==> (#[trigger] rx@[m]@.contains(v as u32) <==> rx_has(*board, *nl, m as u32, v, np as int)),
            g <= np,
            adj@.len() == ni,
            forall|u: int, k: int| 0 <= u < ni && 0 <= k < adj@[u]@.len() ==> (#[trigger] adj@[u]@[k]) < ni,
            forall|u: int, v: int|
                0 <= u < ni && 0 <= v < ni ==> (#[trigger] adj@[u]@.contains(v as u32) <==> feeds_upto(*board, *nl, u, v, g as int)),
        decreases np - g,
    {
        let net = nl.pin_net[g];
        let u = nl.pin_owner[g];
        let ghost adj0 = adj@;
        if nl.pin_is_out[g] && net != NO_NET && (u as usize) < ni && !board.instances[u as usize].def.is_sink() {
            let rs = &rx[net as usize];
            let mut row: Vec<u32> = Vec::new();
            std::mem::swap(&mut row, &mut adj[u as usize]);
            let ghost row0 = row@;
            let mut k: usize = 0;
            while k < rs.len()
                invariant
                    k <= rs@.len(),
                    forall|j: int| 0 <= j < rs@.len() ==> (#[trigger] rs@[j]) < ni,
                    forall|j: int| 0 <= j < row@.len() ==> (#[trigger] row@[j]) < ni,
                    forall|j: int| 0 <= j < row0.len() ==> (#[trigger] row0[j]) < ni,
                    forall|x: u32| #[trigger] row@.contains(x) <==> (row0.contains(x) || exists|j: int| 0 <= j < k && rs@[j] == x),
                decreases rs@.len() - k,
            {
                let x = rs[k];
                let ghost rowk = row@;
                row.push(x);
                proof {
                    assert forall|y: u32| #[trigger] row@.contains(y) implies (row0.contains(y) || exists|j: int| 0 <= j < k + 1 && rs@[j] == y) by {
                        let j2 = choose|j2: int| 0 <= j2 < row@.len() && row@[j2] == y;
                        if j2 < rowk.len() {
                            assert(rowk[j2] == y);
                            assert(rowk.contains(y));
                            if !row0.contains(y) {
                                let j = choose|j: int| 0 <= j < k && rs@[j] == y;
                                assert(0 <= j < k + 1);
                            }
                        } else {
                            assert(y == x);
                            assert(rs@[k as int] == y);
                        }
                    }
                    assert forall|y: u32| (row0.contains(y) || exists|j: int| 0 <= j < k + 1 && rs@[j] == y) implies #[trigger] row@.contains(y) by {
                        if row0.contains(y) || exists|j: int| 0 <= j < k && rs@[j] == y {
                            assert(rowk.contains(y));
                            let j2 = choose|j2: int| 0 <= j2 < rowk.len() && rowk[j2] == y;
                            assert(row@[j2] == y);
                        } else {
                            let j = choose|j: int| 0 <= j < k + 1 && rs@[j] == y;
                            assert(j == k);
                            assert(row@[row@.len() - 1] == y);
                        }
                    }
                }
                k = k + 1;
            }
            std::mem::swap(&mut row, &mut adj[u as usize]);
            proof {
                assert forall|u2: int, v: int|
                    0 <= u2 < ni && 0 <= v < ni implies (#[trigger] adj@[u2]@.contains(v as u32) <==> feeds_upto(*board, *nl, u2, v, g as int + 1)) by {
                    assert(adj0[u2]@.contains(v as u32) <==> feeds_upto(*board, *nl, u2, v, g as int));
                    if u2 != u as int {
                        assert(adj@[u2] == adj0[u2]);
                        if feeds_upto(*board, *nl, u2, v, g as int + 1) {
                            let g1 = choose|g1: int| 0 <= g1 < g + 1 && #[trigger] drives_into(*board, *nl, g1, u2, v);
                            assert(g1 != g);
                        }
                    } else {
                        let hit = rx@[net as int]@.contains(v as u32);
                        assert(hit <==> rx_has(*board, *nl, net, v, np as int));
                        assert(drives_into(*board, *nl, g as int, u2, v) <==> rx_has(*board, *nl, net, v, np as int));
                        if feeds_upto(*board, *nl, u2, v, g as int + 1) && !feeds_upto(*board, *nl, u2, v, g as int) {
                            let g1 = choose|g1: int| 0 <= g1 < g + 1 && #[trigger] drives_into(*board, *nl, g1, u2, v);
                            assert(g1 == g);
                            let j = choose|j: int| 0 <= j < rx@[net as int]@.len() && rx@[net as int]@[j] == v as u32;
                            assert(exists|j2: int| 0 <= j2 < rs@.len() && rs@[j2] == v as u32);
                        }
                        if feeds_upto(*board, *nl, u2, v, g as int) {
                            let g1 = choose|g1: int| 0 <= g1 < g && #[trigger] drives_into(*board, *nl, g1, u2, v);
                            assert(0 <= g1 < g + 1);
                        }
                        if adj@[u2]@.contains(v as u32) && !adj0[u2]@.contains(v as u32) {
                            let j = choose|j: int| 0 <= j < rs@.len() && rs@[j] == v as u32;
                            assert(rs@.contains(v as u32));
                            assert(drives_into(*board, *nl, g as int, u2, v));
                            assert(0 <= g < g + 1);
                        }
                    }
                }
            }
        } else {
            proof {
                assert forall|u2: int, v: int|
                    0 <= u2 < ni && 0 <= v < ni implies (#[trigger] adj@[u2]@.contains(v as u32) <==> feeds_upto(*board, *nl, u2, v, g as int + 1)) by {
                    assert(adj0[u2]@.contains(v as u32) <==> feeds_upto(*board, *nl, u2, v, g as int));
                    if feeds_upto(*board, *nl, u2, v, g as int + 1) {
                        let g1 = choose|g1: int| 0 <= g1 < g + 1 && #[trigger] drives_into(*board, *nl, g1, u2, v);
                        if g1 == g {
                            assert(false);
                        }
                    }
                    if feeds_upto(*board, *nl, u2, v, g as int) {
                        let g1 = choose|g1: int| 0 <= g1 < g && #[trigger] drives_into(*board, *nl, g1, u2, v);
                        assert(0 <= g1 < g + 1);
                    }
                }
            }
        }
        g = g + 1;
    }
    proof {
        let gv = adj_view(&adj);
        assert forall|a: int, c: int| #[trigger] step(gv, a, c) == comb_edge(*board, *nl, a, c) by {
            if 0 <= a < ni && 0 <= c < ni {
                assert(gv[a] == adj@[a]@);
                assert(adj@[a]@.contains(c as u32) <==> feeds_upto(*board, *nl, a, c, np as int));
            } else if step(gv, a, c) {
                assert(gv[a] == adj@[a]@);
                let k = choose|k: int| 0 <= k < gv[a].len() && gv[a][k] == c as u32;
                assert(adj@[a]@[k] < ni);
            }
        }
        assert forall|a: int, k: int| 0 <= a < gv.len() && 0 <= k < gv[a].len() implies (#[trigger] gv[a][k]) < gv.len() by {
            assert(gv[a] == adj@[a]@);
        }
    }
    adj
}

/// The adjacency lists with every edge turned round.
fn reverse_adj(adj: &Vec<Vec<u32>>) -> (r: Vec<Vec<u32>>)
    requires
        adj_ok(adj_view(adj)),
        adj@.len() <= 0xFFFF_FFFF,
    ensures
        r@.len() == adj@.len(),
        adj_ok(adj_view(&r)),
        reversed(adj_view(adj), adj_view(&r)),
{
    let ghost g = adj_view(adj);
    let n = adj.len();
    let mut r: Vec<Vec<u32>> = Vec::new();
    let mut i: usize = 0;
    while i < n
        invariant
            i <= n,
            r@.len() == i,
            forall|j: int| 0 <= j < i ==> (#[trigger] r@[j])@.len() == 0,
        decreases n - i,
    {
        r.push(Vec::new());
        i = i + 1;
    }
    let mut u: usize = 0;
    while u < n
        invariant
            g == adj_view(adj),
            n == adj@.len(),
            n <= 0xFFFF_FFFF,
            adj_ok(g),
            u <= n,
            r@.len() == n,
            forall|v: int, k: int| 0 <= v < n && 0 <= k < r@[v]@.len() ==> (#[trigger] r@[v]@[k]) < n,
            forall|v: int, w: int| 0 <= v < n && 0 <= w < n ==> (#[trigger] r@[v]@.contains(w as u32) <==> (w < u && step(g, w, v))),
        decreases n - u,
    {
        let m = adj[u].len();
        let ghost r_u = r@;
        let mut k: usize = 0;
        while k < m
            invariant
                g == adj_view(adj),
                n == adj@.len(),
                n <= 0xFFFF_FFFF,
                adj_ok(g),
                u < n,
                m == g[u as int].len(),
                k <= m,
                r@.len() == n,
                forall|v: int, k2: int| 0 <= v < n && 0 <= k2 < r@[v]@.len() ==> (#[trigger] r@[v]@[k2]) < n,
                forall|v: int, w: int|
                    0 <= v < n && 0 <= w < n ==> (#[trigger] r@[v]@.contains(w as u32) <==> ((w < u && step(g, w, v)) || (w == u
                        && exists|k2: int| 0 <= k2 < k && g[u as int][k2] == v as u32))),
            decreases m - k,
        {
            let v = adj[u][k] as usize;
            proof {
                assert(g[u as int][k as int] == v as u32);
                assert(v < n);
            }
            let ghost r0 = r@;
            let mut row: Vec<u32> = Vec::new();
            std::mem::swap(&mut row, &mut r[v]);
            row.push(u as u32);
            std::mem::swap(&mut row, &mut r[v]);
            proof {
                assert(r@[v as int]@ == r0[v as int]@.push(u as u32));
                assert forall|v2: int, w: int|
                    0 <= v2 < n && 0 <= w < n implies (#[trigger] r@[v2]@.contains(w as u32) <==> ((w < u && step(g, w, v2)) || (w == u
                    && exists|k2: int| 0 <= k2 < k + 1 && g[u as int][k2] == v2 as u32))) by {
                    if v2 != v as int {
                        assert(r@[v2] == r0[v2]);
                        if w == u as int && exists|k2: int| 0 <= k2 < k + 1 && g[u as int][k2] == v2 as u32 {
                            let k2 = choose|k2: int| 0 <= k2 < k + 1 && g[u as int][k2] == v2 as u32;
                            assert(k2 != k);
                        }
                    } else {
                        let old_r = r0[v2]@;
                        let new_r = r@[v2]@;
                        if new_r.contains(w as u32) && !old_r.contains(w as u32) {
                            let j = choose|j: int| 0 <= j < new_r.len() && new_r[j] == w as u32;
                            if j < old_r.len() {
                                assert(old_r[j] == w as u32);
                            }
                            assert(w == u as int);
                        }
                        if old_r.contains(w as u32) {
                            let j = choose|j: int| 0 <= j < old_r.len() && old_r[j] == w as u32;
                            assert(new_r[j] == w as u32);
                        }
                        if w == u as int {
                            assert(new_r[old_r.len() as int] == w as u32);
                        }
                    }
                }
            }
            k = k + 1;
        }
        proof {
            assert forall|v: int, w: int| 0 <= v < n && 0 <= w < n implies (#[trigger] r@[v]@.contains(w as u32) <==> (w < u + 1 && step(g, w, v))) by {
                if w == u as int {
                    if step(g, w, v) {
                        let k2 = choose|k2: int| 0 <= k2 < g[u as int].len() && g[u as int][k2] == v as u32;
                    }
                }
            }
        }
        u = u + 1;
    }
    proof {
        let rv = adj_view(&r);
        assert forall|a: int, c: int| 0 <= a < g.len() && 0 <= c < g.len() implies (#[trigger] step(rv, a, c) <==> step(g, c, a)) by {
            assert(rv[a] == r@[a]@);
        }
        assert forall|a: int, k: int| 0 <= a < rv.len() && 0 <= k < rv[a].len() implies (#[trigger] rv[a][k]) < rv.len() by {
            assert(rv[a] == r@[a]@);
        }
    }
    r
}

/// `in_loop_with` is an equivalence.
proof fn lemma_loop_equiv(b: Board, nl: Netlist, g: Seq<Seq<u32>>)
    requires
        forall|a: int, c: int| #[trigger] step(g, a, c) == comb_edge(b, nl, a, c),
    ensures
        forall|u: int, v: int| #[trigger] in_loop_with(b, nl, u, v) == mutual(g, u, v),
        forall|u: int, v: int, w: int|
            #[trigger] in_loop_with(b, nl, u, v) && #[trigger] in_loop_with(b, nl, v, w) ==> in_loop_with(b, nl, u, w),
        forall|u: int, v: int| #[trigger] in_loop_with(b, nl, u, v) ==> in_loop_with(b, nl, v, u),
        forall|u: int| #[trigger] in_loop_with(b, nl, u, u),
{
    assert forall|u: int, v: int| #[trigger] in_loop_with(b, nl, u, v) == mutual(g, u, v) by {
        lemma_comb_graph(b, nl, g, u, v);
        lemma_comb_graph(b, nl, g, v, u);
    }
    assert forall|u: int, v: int, w: int|
        #[trigger] in_loop_with(b, nl, u, v) && #[trigger] in_loop_with(b, nl, v, w) implies in_loop_with(b, nl, u, w) by {
        crate::graph::lemma_reach_trans(g, u, v, w);
        crate::graph::lemma_reach_trans(g, w, v, u);
    }
    assert forall|u: int| #[trigger] in_loop_with(b, nl, u, u) by {
        crate::graph::lemma_reach_self(g, u);
    }
}

/// Whether `x` occurs in `v`.
fn holds_u32(v: &Vec<u32>, x: u32) -> (r: bool)
    ensures
        r == v@.contains(x),
{
    let mut k: usize = 0;
    while k < v.len()
        invariant
            k <= v@.len(),
            forall|j: int| 0 <= j < k ==> v@[j] != x,
        decreases v@.len() - k,
    {
        if v[k] == x {
            return true;
        }
        k = k + 1;
    }
    false
}

/// One issue per purely combinational loop group.
#[verifier::rlimit(40)]
fn check_loops(board: &Board, nl: &Netlist, out: &mut Vec<Issue>)
    requires
        tables_sane(*nl),
        board.instances@.len() < 0xFFFF_FFFF,
    ensures
        ivs(final(out)@) == ivs(old(out)@) + loop_issues(*board, *nl, board.instances@.len() as int),
{
    let ni = board.instances.len();
    let adj = comb_adj(board, nl);
    let radj = reverse_adj(&adj);
    let ghost g = adj_view(&adj);
    let ghost rg = adj_view(&radj);
    proof {
        lemma_loop_equiv(*board, *nl, g);
        assert forall|a: int, c: int| 0 <= a < rg.len() && 0 <= c < rg.len() implies (#[trigger] step(g, a, c) <==> step(rg, c, a)) by {}
    }
    let ghost o0 = ivs(out@);
    let mut assigned: Vec<bool> = Vec::new();
    let mut i: usize = 0;
    while i < ni
        invariant
            i <= ni,
            assigned@.len() == i,
            forall|j: int| 0 <= j < i ==> !#[trigger] assigned@[j],
        decreases ni - i,
    {
        assigned.push(false);
        i = i + 1;
    }
    let mut u: usize = 0;
    while u < ni
        invariant
            ni == board.instances@.len(),
            ni < 0xFFFF_FFFF,
            g == adj_view(&adj),
            rg == adj_view(&radj),
            adj@.len() == ni,
            radj@.len() == ni,
            adj_ok(g),
            adj_ok(rg),
            reversed(g, rg),
            forall|a: int, c: int| 0 <= a < rg.len() && 0 <= c < rg.len() ==> (#[trigger] step(g, a, c) <==> step(rg, c, a)),
            forall|a: int, c: int| #[trigger] step(g, a, c) == comb_edge(*board, *nl, a, c),
            forall|x: int, y: int| #[trigger] in_loop_with(*board, *nl, x, y) == mutual(g, x, y),
            forall|x: int, y: int, z: int|
                #[trigger] in_loop_with(*board, *nl, x, y) && #[trigger] in_loop_with(*board, *nl, y, z) ==> in_loop_with(*board, *nl, x, z),
            forall|x: int, y: int| #[trigger] in_loop_with(*board, *nl, x, y) ==> in_loop_with(*board, *nl, y, x),
            u <= ni,
            assigned@.len() == ni,
            forall|w: int| 0 <= w < ni ==> (#[trigger] assigned@[w] <==> exists|v: int| 0 <= v < u && in_loop_with(*board, *nl, v, w)),
            ivs(out@) == o0 + loop_issues(*board, *nl, u as int),
        decreases ni - u,
    {
        if !assigned[u] {
            let fwd = reachable_from(&adj, u);
            let bwd = reachable_from(&radj, u);
            let ghost as0 = assigned@;
            proof {
                assert forall|v: int| 0 <= v < ni implies (fwd@[v] && bwd@[v]) == in_loop_with(*board, *nl, u as int, v) by {
                    if bwd@[v] {
                        crate::graph::lemma_reverse(rg, g, u as int, v);
                    }
                    if reach(g, v, u as int) {
                        lemma_reverse(g, rg, v, u as int);
                    }
                }
            }
            let mut count: u32 = 0;
            let mut all_comb = true;
            let mut v: usize = 0;
            while v < ni
                invariant
                    ni == board.instances@.len(),
                    ni < 0xFFFF_FFFF,
                    u < ni,
                    v <= ni,
                    fwd@.len() == ni,
                    bwd@.len() == ni,
                    assigned@.len() == ni,
                    as0.len() == ni,
                    forall|x: int| 0 <= x < ni ==> (fwd@[x] && bwd@[x]) == in_loop_with(*board, *nl, u as int, x),
                    count as nat == loop_count(*board, *nl, u as int, v as int),
                    count <= v,
                    all_comb == forall|x: int| 0 <= x < v && #[trigger] in_loop_with(*board, *nl, u as int, x) ==> !is_sequential_spec(board.instances@[x].def),
                    forall|w: int| 0 <= w < ni ==> (#[trigger] assigned@[w] == (as0[w] || (w < v && in_loop_with(*board, *nl, u as int, w)))),
                decreases ni - v,
            {
                if fwd[v] && bwd[v] {
                    count = count + 1;
                    if board.instances[v].def.is_sequential() {
                        all_comb = false;
                    }
                    assigned.set(v, true);
                }
                v = v + 1;
            }
            let ghost before = ivs(out@);
            let self_fed = holds_u32(&adj[u], u as u32);
            proof {
                assert(g[u as int] == adj@[u as int]@);
                assert(self_fed == step(g, u as int, u as int));
            }
            if (count >= 2 || self_fed) && all_comb {
                push_issue(out, IssueKind::CombinationalLoop, Severity::Error, NO_NET, u as u32, detail_loop(count));
            }
            proof {
                assert forall|x: int| 0 <= x < u implies !#[trigger] in_loop_with(*board, *nl, x, u as int) by {
                    if in_loop_with(*board, *nl, x, u as int) {
                        assert(as0[u as int]);
                    }
                }
                assert(loop_root(*board, *nl, u as int) == ((count >= 2 || self_fed) && all_comb));
                assert(ivs(out@) =~= o0 + loop_issues(*board, *nl, u as int + 1));
                assert forall|w: int| 0 <= w < ni implies (#[trigger] assigned@[w] <==> exists|x: int| 0 <= x < u + 1 && in_loop_with(*board, *nl, x, w)) by {
                    if as0[w] {
                        let x = choose|x: int| 0 <= x < u && in_loop_with(*board, *nl, x, w);
                        assert(0 <= x < u + 1);
                    }
                    if exists|x: int| 0 <= x < u + 1 && in_loop_with(*board, *nl, x, w) {
                        let x = choose|x: int| 0 <= x < u + 1 && in_loop_with(*board, *nl, x, w);
                        if x < u {
                            assert(as0[w]);
                        }
                    }
                }
            }
        } else {
            proof {
                let x = choose|x: int| 0 <= x < u && in_loop_with(*board, *nl, x, u as int);
                assert(!loop_root(*board, *nl, u as int));
                assert(loop_issues(*board, *nl, u as int + 1) =~= loop_issues(*board, *nl, u as int));
                assert forall|w: int| 0 <= w < ni implies (#[trigger] assigned@[w] <==> exists|y: int| 0 <= y < u + 1 && in_loop_with(*board, *nl, y, w)) by {
                    if exists|y: int| 0 <= y < u + 1 && in_loop_with(*board, *nl, y, w) {
                        let y = choose|y: int| 0 <= y < u + 1 && in_loop_with(*board, *nl, y, w);
                        if y == u {
                            assert(in_loop_with(*board, *nl, x, w));
                        }
                    }
                    if assigned@[w] {
                        let y = choose|y: int| 0 <= y < u && in_loop_with(*board, *nl, y, w);
                        assert(0 <= y < u + 1);
                    }
                }
            }
        }
        u = u + 1;
    }
}

/// Every check of one drawing against its netlist: the net checks, then the
/// combinational loops.
pub fn check_with(board: &Board, nl: &Netlist) -> (r: Vec<Issue>)
    requires
        tables_sane(*nl),
        board.instances@.len() < 0xFFFF_FFFF,
    ensures
        ivs(r@) == net_checks(*board, *nl) + loop_issues(*board, *nl, board.instances@.len() as int),
{
    let mut issues: Vec<Issue> = Vec::new();
    proof {
        assert(ivs(issues@) =~= Seq::<IssueV>::empty());
    }
    check_nets(board, nl, &mut issues);
    check_loops(board, nl, &mut issues);
    proof {
        assert(ivs(issues@) =~= net_checks(*board, *nl) + loop_issues(*board, *nl, board.instances@.len() as int));
    }
    issues
}

/// A compiled netlist has sane tables.
proof fn lemma_compiled_sane(b: Board, nl: Netlist)
    requires
        b.wf(),
        netlist_ok(b, &nl),
    ensures
        tables_sane(nl),
{
    assert(tables_ok(b, &nl));
    assert forall|i: int| 0 <= i < b.instances@.len() implies (#[trigger] b.instances@[i]).pins@.len() <= crate::board::MAX_PINS by {
        assert(b.instances@[i].wf());
    }
    crate::board::lemma_pin_count_bound(b.instances@);
    assert(b.instances@.len() * crate::board::MAX_PINS <= 0x8000 * 0xFFFF) by (nonlinear_arith)
        requires
            b.instances@.len() <= 0x8000,
            crate::board::MAX_PINS == 0xFFFF,
    ;
}

/// Runs every check on a drawing.
pub fn check(board: &Board) -> (r: Vec<Issue>)
    requires
        board.wf(),
    ensures
        exists|nl: Netlist|
            netlist_ok(*board, &nl) && #[trigger] ivs(r@) == net_checks(*board, nl) + loop_issues(*board, nl, board.instances@.len() as int),
{
    let nl = board.compile();
    proof {
        lemma_compiled_sane(*board, nl);
    }
    let r = check_with(board, &nl);
    r
}

// ---------------------------------------------------------------------------
// Whole project
// ---------------------------------------------------------------------------

/// Drawing `a` holds an instance of drawing `c`.
pub open spec fn holds(boards: Seq<Board>, a: int, c: int) -> bool {
    &&& 0 <= a < boards.len()
    &&& 0 <= c < boards.len()
    &&& exists|ii: int| 0 <= ii < boards[a].instances@.len() && #[trigger] boards[a].instances@[ii].sub == c as u32
}

pub open spec fn holds_at(boards: Seq<Board>, p: Seq<int>, i: int) -> bool {
    holds(boards, p[i], p[i + 1])
}

/// A chain of drawings, each holding the next.
pub open spec fn nest_path(boards: Seq<Board>, p: Seq<int>) -> bool {
    p.len() >= 1 && forall|i: int| 0 <= i < p.len() - 1 ==> #[trigger] holds_at(boards, p, i)
}

/// Drawing `c` lies, directly or further down, inside drawing `a` (or is `a`).
pub open spec fn nested_in(boards: Seq<Board>, a: int, c: int) -> bool {
    exists|p: Seq<int>| #[trigger] nest_path(boards, p) && p[0] == a && p.last() == c
}

/// Instance `ii` of drawing `b` refers to a drawing that contains `b`.
pub open spec fn circular(boards: Seq<Board>, b: int, ii: int) -> bool {
    let sub = boards[b].instances@[ii].sub;
    sub != NO_SUB && (sub as int) < boards.len() && nested_in(boards, sub as int, b)
}

/// Circular-reference errors of the first `upto` instances of drawing `b`.
pub open spec fn circular_issues(boards: Seq<Board>, b: int, upto: int) -> Seq<IssueV>
    decreases upto,
{
    if upto <= 0 {
        Seq::empty()
    } else {
        circular_issues(boards, b, upto - 1) + if circular(boards, b, upto - 1) {
            seq![(IssueKind::CircularReference, Severity::Error, NO_NET, (upto - 1) as u32, circular_detail())]
        } else {
            Seq::empty()
        }
    }
}

/// Everything reported of drawing `b` whose netlist is `nl`.
pub open spec fn board_issues(boards: Seq<Board>, nl: Netlist, b: int) -> Seq<IssueV> {
    let bd = boards[b];
    net_checks(bd, nl) + loop_issues(bd, nl, bd.instances@.len() as int) + circular_issues(boards, b, bd.instances@.len() as int)
}

/// The issues of drawings `0..upto`, each paired with its drawing.
pub open spec fn project_issues(boards: Seq<Board>, nls: Seq<Netlist>, upto: int) -> Seq<(u32, IssueV)>
    decreases upto,
{
    if upto <= 0 {
        Seq::empty()
    } else {
        project_issues(boards, nls, upto - 1) + board_issues(boards, nls[upto - 1], upto - 1).map_values(|x: IssueV| ((upto - 1) as u32, x))
    }
}

pub open spec fn pivs(v: Seq<(u32, Issue)>) -> Seq<(u32, IssueV)> {
    Seq::new(v.len(), |i: int| (v[i].0, iv(v[i].1)))
}

proof fn lemma_nest_graph(boards: Seq<Board>, g: Seq<Seq<u32>>, a: int, c: int)
    requires
        forall|x: int, y: int| #[trigger] step(g, x, y) == holds(boards, x, y),
    ensures
        reach(g, a, c) == nested_in(boards, a, c),
{
    if reach(g, a, c) {
        let p = choose|p: Seq<int>| #[trigger] is_path(g, p) && p[0] == a && p.last() == c;
        assert forall|i: int| 0 <= i < p.len() - 1 implies #[trigger] holds_at(boards, p, i) by {
            assert(edge_at(g, p, i));
        }
        assert(nest_path(boards, p));
    }
    if nested_in(boards, a, c) {
        let p = choose|p: Seq<int>| #[trigger] nest_path(boards, p) && p[0] == a && p.last() == c;
        assert forall|i: int| 0 <= i < p.len() - 1 implies #[trigger] edge_at(g, p, i) by {
            assert(holds_at(boards, p, i));
        }
        assert(is_path(g, p));
    }
}

/// Drawing -> the drawings its instances refer to.
fn nest_adj(boards: &Vec<Board>) -> (adj: Vec<Vec<u32>>)
    requires
        boards@.len() < 0xFFFF_FFFF,
    ensures
        adj@.len() == boards@.len(),
        adj_ok(adj_view(&adj)),
        forall|x: int, y: int| #[trigger] step(adj_view(&adj), x, y) == holds(boards@, x, y),
{
    let n = boards.len();
    let mut adj: Vec<Vec<u32>> = Vec::new();
    let mut a: usize = 0;
    while a < n
        invariant
            n == boards@.len(),
            n < 0xFFFF_FFFF,
            a <= n,
            adj@.len() == a,
            forall|x: int, k: int| 0 <= x < a && 0 <= k < adj@[x]@.len() ==> (#[trigger] adj@[x]@[k]) < n,
            forall|x: int, y: int| 0 <= x < a && 0 <= y < n ==> (#[trigger] adj@[x]@.contains(y as u32) <==> holds(boards@, x, y)),
        decreases n - a,
    {
        let insts = &boards[a].instances;
        let mut row: Vec<u32> = Vec::new();
        let mut ii: usize = 0;
        while ii < insts.len()
            invariant
                n == boards@.len(),
                n < 0xFFFF_FFFF,
                a < n,
                *insts == boards@[a as int].instances,
                ii <= insts@.len(),
                forall|k: int| 0 <= k < row@.len() ==> (#[trigger] row@[k]) < n,
                forall|y: int| 0 <= y < n ==> (#[trigger] row@.contains(y as u32) <==> exists|i2: int| 0 <= i2 < ii && insts@[i2].sub == y as u32),
            decreases insts@.len() - ii,
        {
            let sb = insts[ii].sub;
            let ghost row0 = row@;
            if sb != NO_SUB && (sb as usize) < n {
                row.push(sb);
            }
            proof {
                assert forall|y: int| 0 <= y < n implies (#[trigger] row@.contains(y as u32) <==> exists|i2: int| 0 <= i2 < ii + 1 && insts@[i2].sub == y as u32) by {
                    if row@.contains(y as u32) && !row0.contains(y as u32) {
                        let k = choose|k: int| 0 <= k < row@.len() && row@[k] == y as u32;
                        if k < row0.len() {
                            assert(row0[k] == y as u32);
                        }
                        assert(insts@[ii as int].sub == y as u32);
                    }
                    if row0.contains(y as u32) {
                        let k = choose|k: int| 0 <= k < row0.len() && row0[k] == y as u32;
                        assert(row@[k] == y as u32);
                    }
                    if exists|i2: int| 0 <= i2 < ii + 1 && insts@[i2].sub == y as u32 {
                        let i2 = choose|i2: int| 0 <= i2 < ii + 1 && insts@[i2].sub == y as u32;
                        if i2 == ii {
                            assert(row@[row@.len() - 1] == y as u32);
                        }
                    }
                }
            }
            ii = ii + 1;
        }
        adj.push(row);
        proof {
            assert forall|y: int| 0 <= y < n implies (#[trigger] adj@[a as int]@.contains(y as u32) <==> holds(boards@, a as int, y)) by {
                if holds(boards@, a as int, y) {
                    let i2 = choose|i2: int| 0 <= i2 < boards@[a as int].instances@.len() && #[trigger] boards@[a as int].instances@[i2].sub == y as u32;
                }
            }
        }
        a = a + 1;
    }
    proof {
        let gv = adj_view(&adj);
        assert forall|x: int, y: int| #[trigger] step(gv, x, y) == holds(boards@, x, y) by {
            if 0 <= x < n && 0 <= y < n {
                assert(gv[x] == adj@[x]@);
            } else if step(gv, x, y) {
                assert(gv[x] == adj@[x]@);
                let k = choose|k: int| 0 <= k < gv[x].len() && gv[x][k] == y as u32;
                assert(adj@[x]@[k] < n);
            }
        }
        assert forall|x: int, k: int| 0 <= x < gv.len() && 0 <= k < gv[x].len() implies (#[trigger] gv[x][k]) < gv.len() by {
            assert(gv[x] == adj@[x]@);
        }
    }
    adj
}

fn detail_circular() -> (r: String)
    ensures
        r@ == circular_detail(),
{
    let mut s = String::new();
    s.append("子电路里又包含了它所在的图纸");
    s
}

/// Every check on every drawing of a project, each issue with its drawing:
/// a drawing's own checks, then its circular sub-circuit references.
pub fn check_project(boards: &Vec<Board>) -> (r: Vec<(u32, Issue)>)
    requires
        forall|i: int| 0 <= i < boards@.len() ==> (#[trigger] boards@[i]).wf(),
        boards@.len() < 0xFFFF_FFFF,
    ensures
        exists|nls: Seq<Netlist>|
            crate::elaborate::nls_ok(boards@, nls) && #[trigger] pivs(r@) == project_issues(boards@, nls, boards@.len() as int),
{
    let n = boards.len();
    let adj = nest_adj(boards);
    let ghost g = adj_view(&adj);
    let mut out: Vec<(u32, Issue)> = Vec::new();
    let ghost mut nls: Seq<Netlist> = Seq::empty();
    let mut b: usize = 0;
    while b < n
        invariant
            n == boards@.len(),
            n < 0xFFFF_FFFF,
            forall|i: int| 0 <= i < boards@.len() ==> (#[trigger] boards@[i]).wf(),
            g == adj_view(&adj),
            adj@.len() == n,
            adj_ok(g),
            forall|x: int, y: int| #[trigger] step(g, x, y) == holds(boards@, x, y),
            b <= n,
            nls.len() == b,
            forall|i: int| 0 <= i < b ==> netlist_ok(boards@[i], &#[trigger] nls[i]),
            pivs(out@) == project_issues(boards@, nls, b as int),
        decreases n - b,
    {
        let board = &boards[b];
        let nl = board.compile();
        proof {
            lemma_compiled_sane(*board, nl);
            assert(board.instances@.len() <= 0x8000);
        }
        let mut issues = check_with(board, &nl);
        let ni = board.instances.len();
        let ghost base = ivs(issues@);
        let mut ii: usize = 0;
        while ii < ni
            invariant
                n == boards@.len(),
                n < 0xFFFF_FFFF,
                b < n,
                *board == boards@[b as int],
                ni == board.instances@.len(),
                g == adj_view(&adj),
                adj@.len() == n,
                adj_ok(g),
                forall|x: int, y: int| #[trigger] step(g, x, y) == holds(boards@, x, y),
                ii <= ni,
                ivs(issues@) == base + circular_issues(boards@, b as int, ii as int),
            decreases ni - ii,
        {
            let sb = board.instances[ii].sub;
            if sb != NO_SUB && (sb as usize) < n {
                let vis = reachable_from(&adj, sb as usize);
                proof {
                    lemma_nest_graph(boards@, g, sb as int, b as int);
                }
                if vis[b] {
                    push_issue(&mut issues, IssueKind::CircularReference, Severity::Error, NO_NET, ii as u32, detail_circular());
                }
            }
            proof {
                assert(ivs(issues@) =~= base + circular_issues(boards@, b as int, ii as int + 1));
            }
            ii = ii + 1;
        }
        let ghost out0 = pivs(out@);
        let ghost nls1 = nls.push(nl);
        let ghost is_v = ivs(issues@);
        let mut k: usize = 0;
        let m = issues.len();
        let mut rest = issues;
        let mut tmp: Vec<(u32, Issue)> = Vec::new();
        while rest.len() > 0
            invariant
                rest@.len() + tmp@.len() == m,
                m == is_v.len(),
                forall|j: int| 0 <= j < tmp@.len() ==> (#[trigger] pivs(tmp@)[j]) == (b as u32, is_v[m - 1 - j]),
                forall|j: int| 0 <= j < rest@.len() ==> #[trigger] iv(rest@[j]) == is_v[j],
            decreases rest@.len(),
        {
            let ghost rest0 = rest@;
            let ghost tmp0 = tmp@;
            let it = rest.pop().unwrap();
            proof {
                assert(it == rest0[rest0.len() - 1]);
                assert(iv(it) == is_v[rest0.len() - 1]);
                assert(rest@ == rest0.drop_last());
            }
            tmp.push((b as u32, it));
            proof {
                assert forall|j: int| 0 <= j < rest@.len() implies #[trigger] iv(rest@[j]) == is_v[j] by {
                    assert(rest@[j] == rest0[j]);
                }
                assert forall|j: int| 0 <= j < tmp@.len() implies (#[trigger] pivs(tmp@)[j]) == (b as u32, is_v[m - 1 - j]) by {
                    if j < tmp0.len() {
                        assert(tmp@[j] == tmp0[j]);
                        assert(pivs(tmp0)[j] == (b as u32, is_v[m - 1 - j]));
                    } else {
                        assert(tmp@[j] == (b as u32, it));
                    }
                }
            }
        }
        while tmp.len() > 0
            invariant
                tmp@.len() + k == m,
                m == is_v.len(),
                k <= m,
                forall|j: int| 0 <= j < tmp@.len() ==> (#[trigger] pivs(tmp@)[j]) == (b as u32, is_v[m - 1 - j]),
                pivs(out@) == out0 + is_v.subrange(0, k as int).map_values(|x: IssueV| (b as u32, x)),
            decreases tmp@.len(),
        {
            let ghost t0 = pivs(tmp@);
            let ghost tr = tmp@;
            let it = tmp.pop().unwrap();
            proof {
                assert(it == tr[tr.len() - 1]);
                assert(t0[t0.len() - 1] == (it.0, iv(it.1)));
                assert(tmp@ == tr.drop_last());
            }
            let ghost o1 = out@;
            out.push(it);
            proof {
                assert(pivs(out@) =~= pivs(o1).push((it.0, iv(it.1))));
                assert(is_v.subrange(0, k as int + 1).map_values(|x: IssueV| (b as u32, x)) =~= is_v.subrange(0, k as int).map_values(
                    |x: IssueV| (b as u32, x),
                ).push((b as u32, is_v[k as int])));
                assert forall|j: int| 0 <= j < tmp@.len() implies (#[trigger] pivs(tmp@)[j]) == (b as u32, is_v[m - 1 - j]) by {
                    assert(tmp@[j] == tr[j]);
                    assert(pivs(tmp@)[j] == t0[j]);
                }
            }
            k = k + 1;
        }
        proof {
            assert(is_v.subrange(0, m as int) =~= is_v);
            assert(is_v == board_issues(boards@, nl, b as int));
            assert(project_issues(boards@, nls1, b as int) == project_issues(boards@, nls, b as int)) by {
                lemma_project_prefix(boards@, nls, nls1, b as int);
            }
            nls = nls1;
        }
        b = b + 1;
    }
    proof {
        assert(crate::elaborate::nls_ok(boards@, nls));
    }
    out
}

proof fn lemma_project_prefix(boards: Seq<Board>, a: Seq<Netlist>, c: Seq<Netlist>, upto: int)
    requires
        0 <= upto <= a.len(),
        upto <= c.len(),
        forall|i: int| 0 <= i < upto ==> a[i] == c[i],
    ensures
        project_issues(boards, a, upto) == project_issues(boards, c, upto),
    decreases upto,
{
    if upto > 0 {
        lemma_project_prefix(boards, a, c, upto - 1);
    }
}


/// An element of either part is an element of the concatenation.
proof fn lemma_concat_contains(a: Seq<IssueV>, b: Seq<IssueV>, x: IssueV)
    ensures
        (a.contains(x) || b.contains(x)) ==> (a + b).contains(x),
{
    if a.contains(x) {
        let i = choose|i: int| 0 <= i < a.len() && a[i] == x;
        assert((a + b)[i] == x);
    } else if b.contains(x) {
        let i = choose|i: int| 0 <= i < b.len() && b[i] == x;
        assert((a + b)[a.len() + i] == x);
    }
}

/// An input pin on net `n` is among the net's receivers.
proof fn lemma_receiver_listed(nl: Netlist, n: u32, upto: int, g: int)
    requires
        0 <= g < upto,
        nl.pin_net@[g] == n,
        !nl.pin_is_out@[g],
    ensures
        exists|j: int| 0 <= j < receivers(nl, n, upto).len() && receivers(nl, n, upto)[j] == g as u32,
    decreases upto,
{
    let r0 = receivers(nl, n, upto - 1);
    if g == upto - 1 {
        assert(receivers(nl, n, upto)[r0.len() as int] == g as u32);
    } else {
        lemma_receiver_listed(nl, n, upto - 1, g);
        let j = choose|j: int| 0 <= j < r0.len() && r0[j] == g as u32;
        assert(receivers(nl, n, upto)[j] == g as u32);
    }
}

/// A receiver whose width differs from the first driver's gets its issue.
proof fn lemma_mismatch_listed(nl: Netlist, n: u32, rs: Seq<u32>, k: int, j: int)
    requires
        0 <= j < k <= rs.len(),
        drivers(nl, n, nl.pin_net@.len() as int) > 0,
        nl.pin_width@[rs[j] as int] != first_width(nl, n, nl.pin_net@.len() as int),
    ensures
        receiver_issues(nl, n, rs, k).contains(
            (
                IssueKind::WidthMismatch,
                Severity::Error,
                n,
                nl.pin_owner@[rs[j] as int],
                width_detail(first_width(nl, n, nl.pin_net@.len() as int), nl.pin_width@[rs[j] as int]),
            ),
        ),
    decreases k,
{
    let dw = first_width(nl, n, nl.pin_net@.len() as int);
    let g = rs[j] as int;
    let x = (IssueKind::WidthMismatch, Severity::Error, n, nl.pin_owner@[g], width_detail(dw, nl.pin_width@[g]));
    let g2 = rs[k - 1] as int;
    let tail = if nl.pin_width@[g2] != dw {
        seq![(IssueKind::WidthMismatch, Severity::Error, n, nl.pin_owner@[g2], width_detail(dw, nl.pin_width@[g2]))]
    } else {
        Seq::<IssueV>::empty()
    };
    assert(receiver_issues(nl, n, rs, k) == receiver_issues(nl, n, rs, k - 1) + tail);
    if j == k - 1 {
        assert(tail[0] == x);
        lemma_concat_contains(receiver_issues(nl, n, rs, k - 1), tail, x);
    } else {
        lemma_mismatch_listed(nl, n, rs, k - 1, j);
        lemma_concat_contains(receiver_issues(nl, n, rs, k - 1), tail, x);
    }
}

/// The issues of net `n` are among those of the nets below `upto`.
proof fn lemma_net_issue_listed(nl: Netlist, upto: int, n: u32, x: IssueV)
    requires
        0 <= n < upto,
        net_issues(nl, n).contains(x),
    ensures
        nets_issues(nl, upto).contains(x),
    decreases upto,
{
    if n == upto - 1 {
        lemma_concat_contains(nets_issues(nl, upto - 1), net_issues(nl, (upto - 1) as u32), x);
    } else {
        lemma_net_issue_listed(nl, upto - 1, n, x);
        lemma_concat_contains(nets_issues(nl, upto - 1), net_issues(nl, (upto - 1) as u32), x);
    }
}

/// Every input pin on a driven net whose width differs, in either
/// direction, from the width of the net's first driver is reported as a
/// width-mismatch error on that net, against the pin's instance.
pub proof fn law_width_mismatch_reported(b: Board, nl: Netlist, g: int)
    requires
        0 <= g < nl.pin_net@.len() <= u32::MAX,
        nl.pin_net@[g] < nl.net_count,
        !nl.pin_is_out@[g],
        drivers(nl, nl.pin_net@[g], nl.pin_net@.len() as int) > 0,
        nl.pin_width@[g] != first_width(nl, nl.pin_net@[g], nl.pin_net@.len() as int),
    ensures
        net_checks(b, nl).contains(
            (
                IssueKind::WidthMismatch,
                Severity::Error,
                nl.pin_net@[g],
                nl.pin_owner@[g],
                width_detail(first_width(nl, nl.pin_net@[g], nl.pin_net@.len() as int), nl.pin_width@[g]),
            ),
        ),
{
    let np = nl.pin_net@.len() as int;
    let n = nl.pin_net@[g];
    let x = (IssueKind::WidthMismatch, Severity::Error, n, nl.pin_owner@[g], width_detail(first_width(nl, n, np), nl.pin_width@[g]));
    let rs = receivers(nl, n, np);
    lemma_receiver_listed(nl, n, np, g);
    let j = choose|j: int| 0 <= j < rs.len() && rs[j] == g as u32;
    assert(rs[j] as int == g);
    lemma_mismatch_listed(nl, n, rs, rs.len() as int, j);
    let d = drivers(nl, n, np);
    let head = if d > 1 {
        seq![(IssueKind::MultiDriver, Severity::Error, n, NO_INST, multi_detail(if d < 0xFFFF { d } else { 0xFFFF }))]
    } else {
        Seq::<IssueV>::empty()
    };
    assert(net_issues(nl, n) == head + receiver_issues(nl, n, rs, rs.len() as int));
    lemma_concat_contains(head, receiver_issues(nl, n, rs, rs.len() as int), x);
    lemma_net_issue_listed(nl, nl.net_count as int, n, x);
    lemma_concat_contains(unconnected(b, nl, np), nets_issues(nl, nl.net_count as int), x);
}

} // verus!
