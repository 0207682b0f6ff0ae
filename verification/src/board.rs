//! Editing model and netlist derivation.
//!
//! A board is what the user sees (instances and wires); a netlist is what the
//! engine needs (pin -> net). Connection rules:
//!   - a wire's end point or corner lying on another wire connects the two;
//!   - a pin lying on a wire connects to it;
//!   - two pins at the same point connect;
//!   - a plain crossing of two wire middles does not connect;
//!   - all segments of one wire are connected.
//! Everything is integer grid coordinates.
use vstd::prelude::*;
use crate::defs::{CompState, DefId, Dir, Params, PinDef, in_count_spec, out_count_spec, grouped, compact_layout};
use crate::values::Width;
use crate::text::{copy_str, indexed_name, str_eq};
pub use crate::netlist::Netlist;

verus! {

/// Marker for a pin or wire that belongs to no net.
pub const NO_NET: u32 = 0xFFFF_FFFF;

/// Marker for an instance that does not refer to a drawing.
pub const NO_SUB: u32 = 0xFFFF_FFFF;

/// Largest distance of a placed item from the origin, in grid cells: the
/// widest range for which every pin point (position plus an offset of up to
/// `PIN_SPAN`, with room for the router's margin) is still an `i32`.
pub const COORD_LIMIT: i32 = 0x7FFE_0000;

/// Largest pin offset inside an instance, in grid cells.
pub const PIN_SPAN: i32 = 0x1_0000;

/// Most instances a board holds.
pub const MAX_INSTANCES: usize = 0x8000;

/// Most pins an instance has.
pub const MAX_PINS: usize = 0xFFFF;

/// Most wires a board holds.
pub const MAX_WIRES: usize = 0x10_0000;

/// Default instance name: `inst_<id>`.
pub fn auto_name(id: u32) -> (r: String)
    ensures
        r@ == auto_name_spec(id),
{
    indexed_name("inst_", id as u64)
}

pub open spec fn auto_name_spec(id: u32) -> Seq<char> {
    "inst_"@ + crate::values::decimal(id as nat)
}

/// Integer grid point.
#[derive(Clone, Copy, PartialEq, Eq, Debug, Hash, Structural)]
pub struct Point {
    pub x: i32,
    pub y: i32,
}

impl Point {
    pub fn new(x: i32, y: i32) -> (r: Self)
        ensures
            r.x == x,
            r.y == y,
    {
        Point { x, y }
    }
}

pub open spec fn coord_ok(v: int) -> bool {
    -COORD_LIMIT <= v <= COORD_LIMIT
}

/// `v` lies between `a` and `b` (inclusive, either order).
pub open spec fn between(v: int, a: int, b: int) -> bool {
    (if a <= b { a } else { b }) <= v && v <= (if a <= b { b } else { a })
}

/// Cross product of `b - a` and `p - a`.
pub open spec fn cross(p: Point, a: Point, b: Point) -> int {
    (b.x - a.x) * (p.y - a.y) - (b.y - a.y) * (p.x - a.x)
}

/// `p` lies on the segment from `a` to `b` (end points included).
pub open spec fn on_segment(p: Point, a: Point, b: Point) -> bool {
    cross(p, a, b) == 0 && between(p.x as int, a.x as int, b.x as int) && between(
        p.y as int,
        a.y as int,
        b.y as int,
    )
}

/// `p` lies on the segment from `a` to `b`, counting only horizontal and
/// vertical segments (the only ones the netlist knows).
pub open spec fn ortho_hit(p: Point, a: Point, b: Point) -> bool {
    (a.y == b.y && p.y == a.y && between(p.x as int, a.x as int, b.x as int)) || (a.x == b.x
        && p.x == a.x && between(p.y as int, a.y as int, b.y as int))
}

/// `p` lies on some segment of the polyline.
pub open spec fn on_polyline(pts: Seq<Point>, p: Point) -> bool {
    exists|k: int| 0 <= k < pts.len() - 1 && #[trigger] on_segment(p, pts[k], pts[k + 1])
}

/// `p` lies on some horizontal or vertical segment of the polyline.
pub open spec fn on_ortho(pts: Seq<Point>, p: Point) -> bool {
    exists|k: int| 0 <= k < pts.len() - 1 && #[trigger] ortho_hit(p, pts[k], pts[k + 1])
}

/// Whether `p` lies on the segment `ab` (exact integer test, no rounding).
pub fn point_on_segment(p: Point, a: Point, b: Point) -> (r: bool)
    ensures
        r == on_segment(p, a, b),
{
    let ux = b.x as i128 - a.x as i128;
    let uy = b.y as i128 - a.y as i128;
    let vx = p.x as i128 - a.x as i128;
    let vy = p.y as i128 - a.y as i128;
    assert(ux * vy <= 0x1_0000_0000 * 0x1_0000_0000) by (nonlinear_arith)
        requires
            -0x1_0000_0000 <= ux <= 0x1_0000_0000,
            -0x1_0000_0000 <= vy <= 0x1_0000_0000,
    ;
    assert(-0x1_0000_0000 * 0x1_0000_0000 <= uy * vx <= 0x1_0000_0000 * 0x1_0000_0000)
        by (nonlinear_arith)
        requires
            -0x1_0000_0000 <= uy <= 0x1_0000_0000,
            -0x1_0000_0000 <= vx <= 0x1_0000_0000,
    ;
    assert(-0x1_0000_0000 * 0x1_0000_0000 <= ux * vy) by (nonlinear_arith)
        requires
            -0x1_0000_0000 <= ux <= 0x1_0000_0000,
            -0x1_0000_0000 <= vy <= 0x1_0000_0000,
    ;
    let c = ux * vy - uy * vx;
    if c != 0 {
        return false;
    }
    let (min_x, max_x) = if a.x < b.x { (a.x, b.x) } else { (b.x, a.x) };
    let (min_y, max_y) = if a.y < b.y { (a.y, b.y) } else { (b.y, a.y) };
    p.x >= min_x && p.x <= max_x && p.y >= min_y && p.y <= max_y
}

/// Polyline wire (end points and corners only).
#[derive(Debug)]
pub struct Wire {
    pub points: Vec<Point>,
}

impl Wire {
    pub fn new(points: Vec<Point>) -> (r: Self)
        ensures
            r.points@ == points@,
    {
        Wire { points }
    }

    /// Whether the point lies on any segment of the wire (end points included).
    pub fn contains_point(&self, q: Point) -> (r: bool)
        ensures
            r == on_polyline(self.points@, q),
    {
        let n = self.points.len();
        if n < 2 {
            return false;
        }
        let mut k: usize = 0;
        while k + 1 < n
            invariant
                n == self.points@.len(),
                n >= 2,
                k + 1 <= n,
                forall|j: int| 0 <= j < k ==> !#[trigger] on_segment(q, self.points@[j], self.points@[j + 1]),
            decreases n - k,
        {
            if point_on_segment(q, self.points[k], self.points[k + 1]) {
                return true;
            }
            k = k + 1;
        }
        false
    }

    /// A copy of the wire.
    pub fn duplicate(&self) -> (r: Wire)
        ensures
            r.points@ == self.points@,
    {
        Wire { points: copy_points(&self.points) }
    }
}

/// A copy of a list of points.
pub fn copy_points(v: &Vec<Point>) -> (r: Vec<Point>)
    ensures
        r@ == v@,
{
    let mut out: Vec<Point> = Vec::new();
    let mut i: usize = 0;
    while i < v.len()
        invariant
            i <= v@.len(),
            out@ == v@.subrange(0, i as int),
        decreases v@.len() - i,
    {
        out.push(v[i]);
        i = i + 1;
    }
    assert(out@ =~= v@);
    out
}

/// Quotient rounded toward zero.
pub open spec fn tdiv(a: int, b: int) -> int {
    if a >= 0 {
        a / b
    } else {
        -((-a) / b)
    }
}

pub open spec fn clamp_int(v: int, lo: int, hi: int) -> int {
    if v < lo {
        lo
    } else if v > hi {
        hi
    } else {
        v
    }
}

/// Squared grid distance from `p` to the segment `ab`: the point is projected
/// onto the segment, rounded toward `a`, and kept within the segment.
pub open spec fn seg_dist2(p: Point, a: Point, b: Point) -> int {
    let dx = b.x - a.x;
    let dy = b.y - a.y;
    let len2 = dx * dx + dy * dy;
    if len2 == 0 {
        (p.x - a.x) * (p.x - a.x) + (p.y - a.y) * (p.y - a.y)
    } else {
        let t = clamp_int((p.x - a.x) * dx + (p.y - a.y) * dy, 0, len2);
        let px = a.x + tdiv(t * dx, len2);
        let py = a.y + tdiv(t * dy, len2);
        (p.x - px) * (p.x - px) + (p.y - py) * (p.y - py)
    }
}

proof fn lemma_scaled_bound(t: int, d: int, l: int)
    requires
        0 <= t <= l,
        0 < l,
        d * d <= l,
    ensures
        -(if d >= 0 { d } else { -d }) <= tdiv(t * d, l) <= (if d >= 0 { d } else { -d }),
{
    let m = if d >= 0 { d } else { -d };
    assert(0 <= t * m <= l * m) by (nonlinear_arith)
        requires
            0 <= t <= l,
            0 <= m,
    ;
    vstd::arithmetic::div_mod::lemma_div_is_ordered(t * m, l * m, l);
    vstd::arithmetic::div_mod::lemma_div_multiples_vanish(m, l);
    assert(l * m == m * l) by (nonlinear_arith);
    vstd::arithmetic::div_mod::lemma_div_pos_is_pos(t * m, l);
    if d >= 0 {
        assert(t * d == t * m);
    } else {
        assert(t * d == -(t * m)) by (nonlinear_arith)
            requires
                m == -d,
        ;
    }
}

fn tdiv_exec(a: i128, b: i128) -> (r: i128)
    requires
        b > 0,
        -0x1_0000_0000_0000_0000_0000_0000_0000 <= a <= 0x1_0000_0000_0000_0000_0000_0000_0000,
    ensures
        r == tdiv(a as int, b as int),
{
    if a >= 0 {
        a / b
    } else {
        let q = (-a) / b;
        proof {
            vstd::arithmetic::div_mod::lemma_div_pos_is_pos(-a as int, b as int);
            vstd::arithmetic::div_mod::lemma_div_is_ordered_by_denominator(-a as int, 1, b as int);
        }
        -q
    }
}

/// Squared grid distance from a point to a segment (see `seg_dist2`).
fn segment_distance2(p: Point, a: Point, b: Point) -> (r: i128)
    ensures
        r == seg_dist2(p, a, b),
{
    let dx = b.x as i128 - a.x as i128;
    let dy = b.y as i128 - a.y as i128;
    let ex0 = p.x as i128 - a.x as i128;
    let ey0 = p.y as i128 - a.y as i128;
    let B: i128 = 0x1_0000_0000;
    assert(0 <= dx * dx <= B * B) by (nonlinear_arith)
        requires
            -B <= dx <= B,
            B == 0x1_0000_0000,
    ;
    assert(0 <= dy * dy <= B * B) by (nonlinear_arith)
        requires
            -B <= dy <= B,
            B == 0x1_0000_0000,
    ;
    assert(0 <= ex0 * ex0 <= B * B) by (nonlinear_arith)
        requires
            -B <= ex0 <= B,
            B == 0x1_0000_0000,
    ;
    assert(0 <= ey0 * ey0 <= B * B) by (nonlinear_arith)
        requires
            -B <= ey0 <= B,
            B == 0x1_0000_0000,
    ;
    let len2 = dx * dx + dy * dy;
    if len2 == 0 {
        return ex0 * ex0 + ey0 * ey0;
    }
    assert(-(B * B) <= ex0 * dx <= B * B) by (nonlinear_arith)
        requires
            -B <= dx <= B,
            -B <= ex0 <= B,
            B == 0x1_0000_0000,
    ;
    assert(-(B * B) <= ey0 * dy <= B * B) by (nonlinear_arith)
        requires
            -B <= dy <= B,
            -B <= ey0 <= B,
            B == 0x1_0000_0000,
    ;
    let t_num = ex0 * dx + ey0 * dy;
    let t = if t_num < 0 {
        0
    } else if t_num > len2 {
        len2
    } else {
        t_num
    };
    assert(-(2 * B * B * B) <= t * dx <= 2 * B * B * B) by (nonlinear_arith)
        requires
            -B <= dx <= B,
            0 <= t <= 2 * B * B,
            B == 0x1_0000_0000,
    ;
    assert(-(2 * B * B * B) <= t * dy <= 2 * B * B * B) by (nonlinear_arith)
        requires
            -B <= dy <= B,
            0 <= t <= 2 * B * B,
            B == 0x1_0000_0000,
    ;
    let qx = tdiv_exec(t * dx, len2);
    let qy = tdiv_exec(t * dy, len2);
    proof {
        lemma_scaled_bound(t as int, dx as int, len2 as int);
        lemma_scaled_bound(t as int, dy as int, len2 as int);
    }
    let ex = ex0 - qx;
    let ey = ey0 - qy;
    assert(0 <= ex * ex <= 4 * B * B) by (nonlinear_arith)
        requires
            -2 * B <= ex <= 2 * B,
    ;
    assert(0 <= ey * ey <= 4 * B * B) by (nonlinear_arith)
        requires
            -2 * B <= ey <= 2 * B,
    ;
    ex * ex + ey * ey
}

// ---------------------------------------------------------------------------
// Path simplification
// ---------------------------------------------------------------------------

/// Three points on one horizontal or vertical line.
pub open spec fn collinear(a: Point, b: Point, p: Point) -> bool {
    (a.x == b.x && b.x == p.x) || (a.y == b.y && b.y == p.y)
}

/// One step of simplification: drop a repeated point, and replace a middle
/// point that lies on the line through its neighbours.
pub open spec fn simp_step(out: Seq<Point>, p: Point) -> Seq<Point> {
    if out.len() > 0 && out.last() == p {
        out
    } else if out.len() >= 2 && collinear(out[out.len() - 2], out[out.len() - 1], p) {
        out.drop_last().push(p)
    } else {
        out.push(p)
    }
}

/// The polyline with only its end points and corners.
pub open spec fn simplified(pts: Seq<Point>) -> Seq<Point>
    decreases pts.len(),
{
    if pts.len() == 0 {
        Seq::empty()
    } else {
        simp_step(simplified(pts.drop_last()), pts.last())
    }
}

/// Keeps only end points and corners: drops repeated points and the middle
/// point of three collinear ones.
pub fn simplify_path(pts: Vec<Point>) -> (out: Vec<Point>)
    ensures
        out@ == simplified(pts@),
{
    let mut out: Vec<Point> = Vec::new();
    let mut i: usize = 0;
    while i < pts.len()
        invariant
            i <= pts@.len(),
            out@ == simplified(pts@.subrange(0, i as int)),
        decreases pts@.len() - i,
    {
        let p = pts[i];
        proof {
            let s = pts@.subrange(0, i as int + 1);
            assert(s.drop_last() =~= pts@.subrange(0, i as int));
            assert(s.last() == p);
        }
        let n = out.len();
        if n > 0 && out[n - 1] == p {
        } else if n >= 2 && ((out[n - 2].x == out[n - 1].x && out[n - 1].x == p.x) || (out[n
            - 2].y == out[n - 1].y && out[n - 1].y == p.y)) {
            out.pop();
            out.push(p);
        } else {
            out.push(p);
        }
        i = i + 1;
    }
    assert(pts@.subrange(0, pts@.len() as int) =~= pts@);
    out
}

/// The first point survives simplification.
pub proof fn lemma_simplified_first(pts: Seq<Point>)
    requires
        pts.len() > 0,
    ensures
        simplified(pts).len() > 0,
        simplified(pts)[0] == pts[0],
    decreases pts.len(),
{
    if pts.len() == 1 {
        assert(simplified(pts.drop_last()) =~= Seq::<Point>::empty());
    } else {
        lemma_simplified_first(pts.drop_last());
        let s = simplified(pts.drop_last());
        assert(pts.drop_last()[0] == pts[0]);
        if s.len() >= 2 && !(s.last() == pts.last()) && collinear(s[s.len() - 2], s[s.len() - 1], pts.last()) {
            assert(s.drop_last().push(pts.last())[0] == s[0]);
        }
    }
}

/// The last point survives simplification.
pub proof fn lemma_simplified_last(pts: Seq<Point>)
    requires
        pts.len() > 0,
    ensures
        simplified(pts).len() > 0,
        simplified(pts).last() == pts.last(),
{
}

/// Every point covered by the simplified polyline was covered before.
pub proof fn lemma_simplified_covers(pts: Seq<Point>, q: Point)
    requires
        on_ortho(simplified(pts), q),
    ensures
        on_ortho(pts, q),
    decreases pts.len(),
{
    if pts.len() == 0 {
        return;
    }
    let init = pts.drop_last();
    let p = pts.last();
    let s = simplified(init);
    let r = simplified(pts);
    let k = choose|k: int| 0 <= k < r.len() - 1 && #[trigger] ortho_hit(q, r[k], r[k + 1]);
    assert(init.len() == pts.len() - 1);
    if s.len() > 0 && s.last() == p {
        lemma_simplified_covers(init, q);
        let j = choose|j: int| 0 <= j < init.len() - 1 && #[trigger] ortho_hit(q, init[j], init[j + 1]);
        assert(ortho_hit(q, pts[j], pts[j + 1]));
    } else if s.len() >= 2 && collinear(s[s.len() - 2], s[s.len() - 1], p) {
        let n = s.len();
        if k < n - 2 {
            assert(ortho_hit(q, s[k], s[k + 1]));
            lemma_simplified_covers(init, q);
            let j = choose|j: int| 0 <= j < init.len() - 1 && #[trigger] ortho_hit(q, init[j], init[j + 1]);
            assert(ortho_hit(q, pts[j], pts[j + 1]));
        } else {
            let a = s[n - 2];
            let b = s[n - 1];
            assert(r[k] == a && r[k + 1] == p);
            if ortho_hit(q, a, b) {
                assert(ortho_hit(q, s[n - 2], s[(n - 2) + 1]));
                lemma_simplified_covers(init, q);
                let j = choose|j: int| 0 <= j < init.len() - 1 && #[trigger] ortho_hit(q, init[j], init[j + 1]);
                assert(ortho_hit(q, pts[j], pts[j + 1]));
            } else {
                assert(ortho_hit(q, b, p));
                lemma_simplified_last(init);
                assert(b == init.last());
                assert(ortho_hit(q, pts[pts.len() - 2], pts[(pts.len() - 2) + 1]));
            }
        }
    } else {
        if k < s.len() - 1 {
            assert(ortho_hit(q, s[k], s[k + 1]));
            lemma_simplified_covers(init, q);
            let j = choose|j: int| 0 <= j < init.len() - 1 && #[trigger] ortho_hit(q, init[j], init[j + 1]);
            assert(ortho_hit(q, pts[j], pts[j + 1]));
        } else {
            lemma_simplified_last(init);
            assert(r[k] == s.last() && r[k + 1] == p);
            assert(ortho_hit(q, pts[pts.len() - 2], pts[(pts.len() - 2) + 1]));
        }
    }
}

// ---------------------------------------------------------------------------
// Instances
// ---------------------------------------------------------------------------

/// A pin offset inside the instance box.
pub open spec fn pin_offset_ok(p: PinDef) -> bool {
    0 <= p.dx <= PIN_SPAN && 0 <= p.dy <= PIN_SPAN
}

pub open spec fn pins_ok(s: Seq<PinDef>) -> bool {
    s.len() <= MAX_PINS && forall|i: int| 0 <= i < s.len() ==> pin_offset_ok(#[trigger] s[i])
}

/// Largest column offset of the pins (0 when there are none).
pub open spec fn max_dx(s: Seq<PinDef>) -> int
    decreases s.len(),
{
    if s.len() == 0 {
        0
    } else {
        let m = max_dx(s.drop_last());
        if s.last().dx > m {
            s.last().dx as int
        } else {
            m
        }
    }
}

/// Largest row offset of the pins (0 when there are none).
pub open spec fn max_dy(s: Seq<PinDef>) -> int
    decreases s.len(),
{
    if s.len() == 0 {
        0
    } else {
        let m = max_dy(s.drop_last());
        if s.last().dy > m {
            s.last().dy as int
        } else {
            m
        }
    }
}

proof fn lemma_max_bounds(s: Seq<PinDef>)
    requires
        forall|i: int| 0 <= i < s.len() ==> pin_offset_ok(#[trigger] s[i]),
    ensures
        0 <= max_dx(s) <= PIN_SPAN,
        0 <= max_dy(s) <= PIN_SPAN,
        forall|i: int| 0 <= i < s.len() ==> (#[trigger] s[i]).dx <= max_dx(s) && s[i].dy <= max_dy(s),
    decreases s.len(),
{
    if s.len() > 0 {
        let t = s.drop_last();
        assert forall|i: int| 0 <= i < t.len() implies pin_offset_ok(#[trigger] t[i]) by {
            assert(t[i] == s[i]);
        }
        lemma_max_bounds(t);
        assert forall|i: int| 0 <= i < s.len() implies (#[trigger] s[i]).dx <= max_dx(s) && s[i].dy
            <= max_dy(s) by {
            if i < t.len() {
                assert(t[i] == s[i]);
            }
        }
    }
}

/// Position of offset `(x, y)` after turning a `bw` x `bh` box clockwise by
/// `rot` degrees and moving it back so its top-left corner is the origin.
pub open spec fn rotated(rot: u16, bw: int, bh: int, x: int, y: int) -> (int, int) {
    let r = rot % 360;
    if r == 90 {
        (bh - 1 - y, x)
    } else if r == 180 {
        (bw - 1 - x, bh - 1 - y)
    } else if r == 270 {
        (y, bw - 1 - x)
    } else {
        (x, y)
    }
}

/// `out` is `base` turned by `rot` inside the box of `base`.
pub open spec fn rotated_layout(base: Seq<PinDef>, rot: u16, out: Seq<PinDef>) -> bool {
    &&& out.len() == base.len()
    &&& forall|i: int|
        0 <= i < out.len() ==> {
            &&& (#[trigger] out[i]).name@ == base[i].name@
            &&& out[i].width == base[i].width
            &&& out[i].dir == base[i].dir
            &&& (out[i].dx as int, out[i].dy as int) == rotated(
                rot,
                max_dx(base) + 1,
                max_dy(base) + 1,
                base[i].dx as int,
                base[i].dy as int,
            )
        }
}

fn pin_spans(pins: &Vec<PinDef>) -> (r: (i32, i32))
    requires
        forall|i: int| 0 <= i < pins@.len() ==> pin_offset_ok(#[trigger] pins@[i]),
    ensures
        r.0 == max_dx(pins@),
        r.1 == max_dy(pins@),
{
    let mut mx: i32 = 0;
    let mut my: i32 = 0;
    let mut i: usize = 0;
    while i < pins.len()
        invariant
            i <= pins@.len(),
            forall|j: int| 0 <= j < pins@.len() ==> pin_offset_ok(#[trigger] pins@[j]),
            mx == max_dx(pins@.subrange(0, i as int)),
            my == max_dy(pins@.subrange(0, i as int)),
        decreases pins@.len() - i,
    {
        proof {
            let s = pins@.subrange(0, i as int + 1);
            assert(s.drop_last() =~= pins@.subrange(0, i as int));
        }
        if pins[i].dx > mx {
            mx = pins[i].dx;
        }
        if pins[i].dy > my {
            my = pins[i].dy;
        }
        i = i + 1;
    }
    assert(pins@.subrange(0, pins@.len() as int) =~= pins@);
    (mx, my)
}

/// Turns a pin layout clockwise by `rot` degrees inside its own box.
pub fn rotate_pins(base: &Vec<PinDef>, rot: u16) -> (out: Vec<PinDef>)
    requires
        pins_ok(base@),
    ensures
        rotated_layout(base@, rot, out@),
        pins_ok(out@),
{
    let (mx, my) = pin_spans(base);
    proof {
        lemma_max_bounds(base@);
    }
    let bw = mx + 1;
    let bh = my + 1;
    let r = rot % 360;
    let mut out: Vec<PinDef> = Vec::new();
    let mut i: usize = 0;
    while i < base.len()
        invariant
            i <= base@.len(),
            pins_ok(base@),
            bw == max_dx(base@) + 1,
            bh == max_dy(base@) + 1,
            r == rot % 360,
            0 <= max_dx(base@) <= PIN_SPAN,
            0 <= max_dy(base@) <= PIN_SPAN,
            forall|j: int|
                0 <= j < base@.len() ==> (#[trigger] base@[j]).dx <= max_dx(base@) && base@[j].dy
                    <= max_dy(base@),
            out@.len() == i,
            forall|j: int|
                0 <= j < i ==> {
                    &&& (#[trigger] out@[j]).name@ == base@[j].name@
                    &&& out@[j].width == base@[j].width
                    &&& out@[j].dir == base@[j].dir
                    &&& (out@[j].dx as int, out@[j].dy as int) == rotated(
                        rot,
                        max_dx(base@) + 1,
                        max_dy(base@) + 1,
                        base@[j].dx as int,
                        base@[j].dy as int,
                    )
                    &&& pin_offset_ok(out@[j])
                },
        decreases base@.len() - i,
    {
        let p = &base[i];
        assert(pin_offset_ok(base@[i as int]));
        let (x, y) = if r == 90 {
            (bh - 1 - p.dy, p.dx)
        } else if r == 180 {
            (bw - 1 - p.dx, bh - 1 - p.dy)
        } else if r == 270 {
            (p.dy, bw - 1 - p.dx)
        } else {
            (p.dx, p.dy)
        };
        out.push(PinDef { name: p.name.clone(), dx: x, dy: y, width: p.width, dir: p.dir });
        i = i + 1;
    }
    out
}

/// An instance placed on a board.
#[derive(Debug)]
pub struct Instance {
    pub def: DefId,
    pub params: Params,
    pub x: i32,
    pub y: i32,
    /// 0 / 90 / 180 / 270
    pub rot: u16,
    /// Instance name, `inst_<n>` by default; used for hierarchy paths.
    pub display_name: String,
    /// Pin layout, rebuilt from def + params + rot (a drawing's interface for
    /// a sub-circuit instance).
    pub pins: Vec<PinDef>,
    /// Initial memory contents (RAM / ROM).
    pub mem_init: Vec<u32>,
    /// Drawing this instance stands for (`NO_SUB` for a built-in component).
    pub sub: u32,
}

pub type PinV = (Seq<char>, i32, i32, Width, Dir);

pub open spec fn pin_view(p: PinDef) -> PinV {
    (p.name@, p.dx, p.dy, p.width, p.dir)
}

pub open spec fn pins_view(s: Seq<PinDef>) -> Seq<PinV> {
    s.map_values(|p: PinDef| pin_view(p))
}

pub type InstanceV = (DefId, Params, i32, i32, u16, Seq<char>, Seq<PinV>, Seq<u32>, u32);

impl Instance {
    /// The instance's value: all fields, strings and lists by their contents.
    pub open spec fn view(&self) -> InstanceV {
        (
            self.def,
            self.params,
            self.x,
            self.y,
            self.rot,
            self.display_name@,
            pins_view(self.pins@),
            self.mem_init@,
            self.sub,
        )
    }

    pub open spec fn wf(&self) -> bool {
        coord_ok(self.x as int) && coord_ok(self.y as int) && pins_ok(self.pins@)
    }

    /// World position of pin `slot`.
    pub open spec fn pin_point(&self, slot: int) -> Point {
        Point { x: (self.x + self.pins@[slot].dx) as i32, y: (self.y + self.pins@[slot].dy) as i32 }
    }

    pub fn new(def: DefId, params: Params, x: i32, y: i32) -> (r: Self)
        requires
            coord_ok(x as int),
            coord_ok(y as int),
        ensures
            r.wf(),
            r.def == def,
            r.params == params,
            r.x == x,
            r.y == y,
            r.rot == 0,
            r.display_name@ == Seq::<char>::empty(),
            r.mem_init@ == Seq::<u32>::empty(),
            r.sub == NO_SUB,
            r.pins@.len() == in_count_spec(def, params) + out_count_spec(def, params),
            grouped(r.pins@, in_count_spec(def, params)),
            compact_layout(r.pins@),
    {
        let mut it = Instance {
            def,
            params,
            x,
            y,
            rot: 0,
            display_name: String::new(),
            pins: Vec::new(),
            mem_init: Vec::new(),
            sub: NO_SUB,
        };
        it.rebuild_pins();
        it
    }

    /// Rebuilds the pin layout from the kind, parameters and rotation. After a
    /// rotation the layout is moved back so its top-left corner is the origin.
    pub fn rebuild_pins(&mut self)
        requires
            coord_ok(old(self).x as int),
            coord_ok(old(self).y as int),
        ensures
            final(self).wf(),
            final(self).def == old(self).def,
            final(self).params == old(self).params,
            final(self).x == old(self).x,
            final(self).y == old(self).y,
            final(self).rot == old(self).rot,
            final(self).display_name@ == old(self).display_name@,
            final(self).mem_init@ == old(self).mem_init@,
            final(self).sub == old(self).sub,
            exists|base: Seq<PinDef>|
                {
                    &&& base.len() == in_count_spec(old(self).def, old(self).params) + out_count_spec(
                        old(self).def,
                        old(self).params,
                    )
                    &&& grouped(base, in_count_spec(old(self).def, old(self).params))
                    &&& compact_layout(base)
                    &&& crate::defs::pins_v(base) == crate::defs::layout_spec(old(self).def, old(self).params)
                    &&& #[trigger] rotated_layout(base, old(self).rot, final(self).pins@)
                },
            old(self).rot % 360 == 0 ==> compact_layout(final(self).pins@),
            final(self).pins@.len() == in_count_spec(old(self).def, old(self).params)
                + out_count_spec(old(self).def, old(self).params),
            grouped(final(self).pins@, in_count_spec(old(self).def, old(self).params)),
    {
        let base = self.def.pins(&self.params);
        proof {
            assert(base@.len() <= MAX_PINS) by {
                crate::defs::lemma_pin_count_bound(self.def, self.params);
            }
        }
        let pins = rotate_pins(&base, self.rot);
        self.pins = pins;
        assert(rotated_layout(base@, self.rot, self.pins@));
    }

    /// World position of a pin.
    pub fn pin_world(&self, slot: usize) -> (r: Option<Point>)
        requires
            self.wf(),
        ensures
            slot < self.pins@.len() ==> r == Some(self.pin_point(slot as int)),
            slot >= self.pins@.len() ==> r is None,
    {
        if slot < self.pins.len() {
            Some(Point::new(self.x + self.pins[slot].dx, self.y + self.pins[slot].dy))
        } else {
            None
        }
    }

    /// Bounding box (width, height) of the pin layout, at least 1 x 1.
    pub fn size(&self) -> (r: (i32, i32))
        requires
            self.wf(),
        ensures
            r.0 == max_dx(self.pins@) + 1,
            r.1 == max_dy(self.pins@) + 1,
            1 <= r.0 <= PIN_SPAN + 1,
            1 <= r.1 <= PIN_SPAN + 1,
    {
        proof {
            lemma_max_bounds(self.pins@);
        }
        let (mx, my) = pin_spans(&self.pins);
        (mx + 1, my + 1)
    }

    /// Power-on state for simulation: all zero, memories preloaded.
    pub fn initial_state(&self) -> (r: CompState)
        ensures
            r.reg == 0,
            r.prev_clk == 0,
            r.cnt == 0,
            (self.def == DefId::Ram || self.def == DefId::Rom) ==> r.mem@
                == crate::defs::mem_init_spec(self.mem_init@, self.params.depth),
            !(self.def == DefId::Ram || self.def == DefId::Rom) ==> r.mem@ == Seq::<u32>::empty(),
    {
        if self.def == DefId::Ram || self.def == DefId::Rom {
            CompState::with_mem(self.mem_init.as_slice(), self.params.depth)
        } else {
            CompState::default()
        }
    }

    /// A copy of the instance.
    pub fn duplicate(&self) -> (r: Instance)
        ensures
            r@ == self@,
            self.wf() ==> r.wf(),
            r.pins@.len() == self.pins@.len(),
            forall|i: int| 0 <= i < r.pins@.len() ==> #[trigger] pin_view(r.pins@[i]) == pin_view(self.pins@[i]),
    {
        let mut pins: Vec<PinDef> = Vec::new();
        let mut i: usize = 0;
        while i < self.pins.len()
            invariant
                i <= self.pins@.len(),
                pins@.len() == i,
                forall|j: int| 0 <= j < i ==> #[trigger] pin_view(pins@[j]) == pin_view(self.pins@[j]),
            decreases self.pins@.len() - i,
        {
            pins.push(self.pins[i].duplicate());
            i = i + 1;
        }
        assert(pins_view(pins@) =~= pins_view(self.pins@));
        let mut mem: Vec<u32> = Vec::new();
        let mut k: usize = 0;
        while k < self.mem_init.len()
            invariant
                k <= self.mem_init@.len(),
                mem@ == self.mem_init@.subrange(0, k as int),
                pins@.len() == self.pins@.len(),
                pins_view(pins@) == pins_view(self.pins@),
                forall|j: int| 0 <= j < pins@.len() ==> #[trigger] pin_view(pins@[j]) == pin_view(self.pins@[j]),
            decreases self.mem_init@.len() - k,
        {
            mem.push(self.mem_init[k]);
            k = k + 1;
        }
        assert(mem@ =~= self.mem_init@);
        let r = Instance {
            def: self.def,
            params: self.params,
            x: self.x,
            y: self.y,
            rot: self.rot,
            display_name: self.display_name.clone(),
            pins,
            mem_init: mem,
            sub: self.sub,
        };
        assert forall|s: int| 0 <= s < r.pins@.len() && pin_offset_ok(self.pins@[s]) implies pin_offset_ok(#[trigger] r.pins@[s]) by {
            assert(pin_view(r.pins@[s]) == pin_view(self.pins@[s]));
        }
        r
    }
}

// ---------------------------------------------------------------------------
// Board
// ---------------------------------------------------------------------------

/// Text note: no electrical meaning, saved with the board.
#[derive(Debug)]
pub struct Annotation {
    pub x: i32,
    pub y: i32,
    pub text: String,
    /// 0xRRGGBB; 0 means the default colour.
    pub color: u32,
}

/// Net label: labels with the same name are connected without a wire.
#[derive(Debug)]
pub struct NetLabel {
    pub x: i32,
    pub y: i32,
    pub name: String,
}

pub type AnnotationV = (i32, i32, Seq<char>, u32);

pub type LabelV = (i32, i32, Seq<char>);

pub open spec fn annotation_view(a: Annotation) -> AnnotationV {
    (a.x, a.y, a.text@, a.color)
}

pub open spec fn label_view(l: NetLabel) -> LabelV {
    (l.x, l.y, l.name@)
}

pub open spec fn instance_view(i: Instance) -> InstanceV {
    i@
}

pub open spec fn wire_view(w: Wire) -> Seq<Point> {
    w.points@
}

/// A drawing: instances, wires, notes and labels.
#[derive(Debug)]
pub struct Board {
    /// Drawing name (shown in the breadcrumb and the drawing library).
    pub name: String,
    /// Optional English name.
    pub name_en: String,
    pub instances: Vec<Instance>,
    pub wires: Vec<Wire>,
    pub annotations: Vec<Annotation>,
    pub labels: Vec<NetLabel>,
}

pub type BoardV = (Seq<char>, Seq<char>, Seq<InstanceV>, Seq<Seq<Point>>, Seq<AnnotationV>, Seq<LabelV>);

impl Board {
    /// The board's value: every field by its contents.
    pub open spec fn view(&self) -> BoardV {
        (
            self.name@,
            self.name_en@,
            self.instances@.map_values(|i: Instance| instance_view(i)),
            self.wires@.map_values(|w: Wire| wire_view(w)),
            self.annotations@.map_values(|a: Annotation| annotation_view(a)),
            self.labels@.map_values(|l: NetLabel| label_view(l)),
        )
    }

    /// Sizes and coordinates stay within the limits the netlist arithmetic needs.
    pub open spec fn wf(&self) -> bool {
        &&& self.instances@.len() <= MAX_INSTANCES
        &&& forall|i: int| 0 <= i < self.instances@.len() ==> (#[trigger] self.instances@[i]).wf()
        &&& self.wires@.len() <= MAX_WIRES
        &&& self.annotations@.len() <= MAX_WIRES
        &&& self.labels@.len() <= MAX_WIRES
    }

    pub fn new() -> (r: Self)
        ensures
            r.wf(),
            r.name@ == Seq::<char>::empty(),
            r.name_en@ == Seq::<char>::empty(),
            r.instances@.len() == 0,
            r.wires@.len() == 0,
            r.annotations@.len() == 0,
            r.labels@.len() == 0,
    {
        Board {
            name: String::new(),
            name_en: String::new(),
            instances: Vec::new(),
            wires: Vec::new(),
            annotations: Vec::new(),
            labels: Vec::new(),
        }
    }

    /// Adds an instance named `inst_<id>` and returns its index (the index is its id).
    pub fn add_instance(&mut self, def: DefId, params: Params, x: i32, y: i32) -> (id: u32)
        requires
            old(self).wf(),
            old(self).instances@.len() < MAX_INSTANCES,
            coord_ok(x as int),
            coord_ok(y as int),
        ensures
            final(self).wf(),
            id == old(self).instances@.len(),
            final(self).instances@.len() == old(self).instances@.len() + 1,
            forall|i: int| 0 <= i < id ==> final(self).instances@[i] == old(self).instances@[i],
            ({
                let it = final(self).instances@[id as int];
                &&& it.def == def
                &&& it.params == params
                &&& it.x == x
                &&& it.y == y
                &&& it.rot == 0
                &&& it.sub == NO_SUB
                &&& it.display_name@ == auto_name_spec(id)
                &&& it.mem_init@.len() == 0
                &&& it.pins@.len() == in_count_spec(def, params) + out_count_spec(def, params)
                &&& grouped(it.pins@, in_count_spec(def, params))
                &&& compact_layout(it.pins@)
            }),
            final(self).wires@ == old(self).wires@,
            final(self).annotations@ == old(self).annotations@,
            final(self).labels@ == old(self).labels@,
            final(self).name@ == old(self).name@,
            final(self).name_en@ == old(self).name_en@,
    {
        let id = self.instances.len() as u32;
        let mut inst = Instance::new(def, params, x, y);
        inst.display_name = auto_name(id);
        self.instances.push(inst);
        id
    }

    /// Adds an instance of drawing `sub` named `name`; its pins follow the
    /// drawing's interface once the project is rebuilt.
    pub fn add_sub_instance(&mut self, sub: u32, name: &str, x: i32, y: i32) -> (id: u32)
        requires
            old(self).wf(),
            old(self).instances@.len() < MAX_INSTANCES,
            coord_ok(x as int),
            coord_ok(y as int),
        ensures
            final(self).wf(),
            id == old(self).instances@.len(),
            final(self).instances@.len() == old(self).instances@.len() + 1,
            forall|i: int| 0 <= i < id ==> final(self).instances@[i] == old(self).instances@[i],
            ({
                let it = final(self).instances@[id as int];
                &&& it.def == DefId::Custom
                &&& it.x == x
                &&& it.y == y
                &&& it.rot == 0
                &&& it.sub == sub
                &&& it.display_name@ == name@
                &&& it.mem_init@.len() == 0
                &&& it.pins@.len() == 0
            }),
            final(self).wires@ == old(self).wires@,
            final(self).annotations@ == old(self).annotations@,
            final(self).labels@ == old(self).labels@,
            final(self).name@ == old(self).name@,
            final(self).name_en@ == old(self).name_en@,
    {
        let id = self.instances.len() as u32;
        let mut inst = Instance::new(DefId::Custom, DefId::Custom.default_params(), x, y);
        inst.display_name = copy_str(name);
        inst.sub = sub;
        self.instances.push(inst);
        id
    }

    /// Name of an instance (for hierarchy paths).
    pub fn instance_name(&self, id: u32) -> (r: Option<&str>)
        ensures
            id < self.instances@.len() ==> r is Some && r->0@ == self.instances@[id as int].display_name@,
            id >= self.instances@.len() ==> r is None,
    {
        if (id as usize) < self.instances.len() {
            Some(self.instances[id as usize].display_name.as_str())
        } else {
            None
        }
    }

    pub fn add_annotation(&mut self, x: i32, y: i32, text: &str) -> (id: u32)
        requires
            old(self).wf(),
            old(self).annotations@.len() < MAX_WIRES,
        ensures
            final(self).wf(),
            id == old(self).annotations@.len(),
            final(self).annotations@.len() == old(self).annotations@.len() + 1,
            forall|i: int| 0 <= i < id ==> final(self).annotations@[i] == old(self).annotations@[i],
            annotation_view(final(self).annotations@[id as int]) == (x, y, text@, 0u32),
            final(self).instances@ == old(self).instances@,
            final(self).wires@ == old(self).wires@,
            final(self).labels@ == old(self).labels@,
            final(self).name@ == old(self).name@,
            final(self).name_en@ == old(self).name_en@,
    {
        self.annotations.push(Annotation { x, y, text: copy_str(text), color: 0 });
        (self.annotations.len() - 1) as u32
    }

    pub fn remove_annotation(&mut self, id: u32) -> (r: bool)
        requires
            old(self).wf(),
        ensures
            final(self).wf(),
            r == (id < old(self).annotations@.len()),
            r ==> final(self).annotations@ == old(self).annotations@.remove(id as int),
            !r ==> final(self).annotations@ == old(self).annotations@,
            final(self).instances@ == old(self).instances@,
            final(self).wires@ == old(self).wires@,
            final(self).labels@ == old(self).labels@,
            final(self).name@ == old(self).name@,
            final(self).name_en@ == old(self).name_en@,
    {
        if (id as usize) < self.annotations.len() {
            self.annotations.remove(id as usize);
            true
        } else {
            false
        }
    }

    pub fn add_label(&mut self, x: i32, y: i32, name: &str) -> (id: u32)
        requires
            old(self).wf(),
            old(self).labels@.len() < MAX_WIRES,
        ensures
            final(self).wf(),
            id == old(self).labels@.len(),
            final(self).labels@.len() == old(self).labels@.len() + 1,
            forall|i: int| 0 <= i < id ==> final(self).labels@[i] == old(self).labels@[i],
            label_view(final(self).labels@[id as int]) == (x, y, name@),
            final(self).instances@ == old(self).instances@,
            final(self).wires@ == old(self).wires@,
            final(self).annotations@ == old(self).annotations@,
            final(self).name@ == old(self).name@,
            final(self).name_en@ == old(self).name_en@,
    {
        self.labels.push(NetLabel { x, y, name: copy_str(name) });
        (self.labels.len() - 1) as u32
    }

    pub fn remove_label(&mut self, id: u32) -> (r: bool)
        requires
            old(self).wf(),
        ensures
            final(self).wf(),
            r == (id < old(self).labels@.len()),
            r ==> final(self).labels@ == old(self).labels@.remove(id as int),
            !r ==> final(self).labels@ == old(self).labels@,
            final(self).instances@ == old(self).instances@,
            final(self).wires@ == old(self).wires@,
            final(self).annotations@ == old(self).annotations@,
            final(self).name@ == old(self).name@,
            final(self).name_en@ == old(self).name_en@,
    {
        if (id as usize) < self.labels.len() {
            self.labels.remove(id as usize);
            true
        } else {
            false
        }
    }

    /// Hit test: the last label at the grid point.
    pub fn pick_label(&self, x: i32, y: i32) -> (r: Option<u32>)
        requires
            self.wf(),
        ensures
            r is None <==> forall|i: int| 0 <= i < self.labels@.len() ==> !(#[trigger] self.labels@[i].x
                == x && self.labels@[i].y == y),
            r is Some ==> ({
                let i = r->0 as int;
                &&& 0 <= i < self.labels@.len()
                &&& self.labels@[i].x == x && self.labels@[i].y == y
                &&& forall|j: int| i < j < self.labels@.len() ==> !(#[trigger] self.labels@[j].x == x
                    && self.labels@[j].y == y)
            }),
    {
        let mut i = self.labels.len();
        while i > 0
            invariant
                i <= self.labels@.len(),
                self.labels@.len() <= MAX_WIRES,
                forall|j: int| i <= j < self.labels@.len() ==> !(#[trigger] self.labels@[j].x == x
                    && self.labels@[j].y == y),
            decreases i,
        {
            i = i - 1;
            if self.labels[i].x == x && self.labels[i].y == y {
                return Some(i as u32);
            }
        }
        None
    }

    /// Hit test: the last note covering the grid point (a note is one row high
    /// and as wide as its text, at least one cell).
    pub fn pick_annotation(&self, x: i32, y: i32) -> (r: Option<u32>)
        requires
            self.wf(),
        ensures
            r is None <==> forall|i: int| 0 <= i < self.annotations@.len() ==> !#[trigger] note_covers(
                self.annotations@[i],
                x,
                y,
            ),
            r is Some ==> ({
                let i = r->0 as int;
                &&& 0 <= i < self.annotations@.len()
                &&& note_covers(self.annotations@[i], x, y)
                &&& forall|j: int| i < j < self.annotations@.len() ==> !#[trigger] note_covers(
                    self.annotations@[j],
                    x,
                    y,
                )
            }),
    {
        let mut i = self.annotations.len();
        while i > 0
            invariant
                i <= self.annotations@.len(),
                self.annotations@.len() <= MAX_WIRES,
                forall|j: int| i <= j < self.annotations@.len() ==> !#[trigger] note_covers(
                    self.annotations@[j],
                    x,
                    y,
                ),
            decreases i,
        {
            i = i - 1;
            let a = &self.annotations[i];
            let n = a.text.as_str().unicode_len();
            let w: i128 = if n >= 1 { n as i128 } else { 1 };
            if (x as i128) >= (a.x as i128) && (x as i128) < (a.x as i128) + w && y == a.y {
                assert(note_covers(self.annotations@[i as int], x, y));
                return Some(i as u32);
            }
        }
        None
    }
}

/// A note covers the cells of its text on its row.
pub open spec fn note_covers(a: Annotation, x: i32, y: i32) -> bool {
    let w: int = if a.text@.len() >= 1 { a.text@.len() as int } else { 1 };
    a.x <= x < a.x + w && y == a.y
}

/// World positions of an instance's pins, in slot order.
pub open spec fn inst_pin_points(it: Instance) -> Seq<Point> {
    Seq::new(it.pins@.len(), |s: int| it.pin_point(s))
}

/// World positions of all pins of the board, instance by instance.
pub open spec fn flat_points(insts: Seq<Instance>) -> Seq<Point>
    decreases insts.len(),
{
    if insts.len() == 0 {
        Seq::empty()
    } else {
        flat_points(insts.drop_last()) + inst_pin_points(insts.last())
    }
}

/// Total number of pins.
pub open spec fn pin_count(insts: Seq<Instance>) -> nat
    decreases insts.len(),
{
    if insts.len() == 0 {
        0
    } else {
        pin_count(insts.drop_last()) + insts.last().pins@.len()
    }
}

pub proof fn lemma_pin_count_bound(insts: Seq<Instance>)
    requires
        forall|i: int| 0 <= i < insts.len() ==> (#[trigger] insts[i]).pins@.len() <= MAX_PINS,
    ensures
        pin_count(insts) <= insts.len() * MAX_PINS,
        flat_points(insts).len() == pin_count(insts),
    decreases insts.len(),
{
    if insts.len() > 0 {
        let t = insts.drop_last();
        assert forall|i: int| 0 <= i < t.len() implies (#[trigger] t[i]).pins@.len() <= MAX_PINS by {
            assert(t[i] == insts[i]);
        }
        lemma_pin_count_bound(t);
        assert(insts.last() == insts[insts.len() - 1]);
    }
}

/// The wire starts or ends on one of the instance's pins.
pub open spec fn ends_on_instance(pts: Seq<Point>, it: Instance) -> bool {
    pts.len() > 0 && exists|s: int|
        0 <= s < it.pins@.len() && (#[trigger] it.pin_point(s) == pts[0] || it.pin_point(s)
            == pts.last())
}

/// The cell lies in the instance's box.
pub open spec fn box_covers(it: Instance, x: i32, y: i32) -> bool {
    it.x <= x < it.x + max_dx(it.pins@) + 1 && it.y <= y < it.y + max_dy(it.pins@) + 1
}

/// Squared distance from a pin to a grid point.
pub open spec fn pin_d2(it: Instance, s: int, x: i32, y: i32) -> int {
    let dx = it.x + it.pins@[s].dx - x;
    let dy = it.y + it.pins@[s].dy - y;
    dx * dx + dy * dy
}

/// `(i1, s1)` comes before `(i2, s2)` in board order.
pub open spec fn before(i1: int, s1: int, i2: int, s2: int) -> bool {
    i1 < i2 || (i1 == i2 && s1 < s2)
}

pub open spec fn is_pin(insts: Seq<Instance>, i: int, s: int) -> bool {
    0 <= i < insts.len() && 0 <= s < insts[i].pins@.len()
}

pub open spec fn is_seg(wires: Seq<Wire>, w: int, k: int) -> bool {
    0 <= w < wires.len() && 0 <= k < wires[w].points@.len() - 1
}

pub open spec fn wire_d2(wires: Seq<Wire>, w: int, k: int, x: i32, y: i32) -> int {
    seg_dist2(Point { x, y }, wires[w].points@[k], wires[w].points@[k + 1])
}

/// Pin layouts were rebuilt from kind, parameters and rotation.
pub open spec fn pins_rebuilt(before: Instance, after: Instance) -> bool {
    &&& exists|base: Seq<PinDef>|
        {
            &&& base.len() == in_count_spec(before.def, before.params) + out_count_spec(
                before.def,
                before.params,
            )
            &&& grouped(base, in_count_spec(before.def, before.params))
            &&& compact_layout(base)
            &&& crate::defs::pins_v(base) == crate::defs::layout_spec(before.def, before.params)
            &&& #[trigger] rotated_layout(base, before.rot, after.pins@)
        }
    &&& after.pins@.len() == in_count_spec(before.def, before.params) + out_count_spec(
        before.def,
        before.params,
    )
    &&& grouped(after.pins@, in_count_spec(before.def, before.params))
}

impl Board {
    /// Removes an instance together with the wires that start or end on its pins
    /// (wires that merely pass a pin stay).
    pub fn remove_instance(&mut self, id: u32) -> (r: bool)
        requires
            old(self).wf(),
        ensures
            final(self).wf(),
            r == (id < old(self).instances@.len()),
            r ==> final(self).instances@ == old(self).instances@.remove(id as int),
            r ==> final(self).wires@ == old(self).wires@.filter(
                |w: Wire| !ends_on_instance(w.points@, old(self).instances@[id as int]),
            ),
            !r ==> final(self).instances@ == old(self).instances@ && final(self).wires@ == old(
                self,
            ).wires@,
            final(self).annotations@ == old(self).annotations@,
            final(self).labels@ == old(self).labels@,
            final(self).name@ == old(self).name@,
            final(self).name_en@ == old(self).name_en@,
    {
        if (id as usize) >= self.instances.len() {
            return false;
        }
        let ghost victim = self.instances@[id as int];
        let ghost keep = |w: Wire| !ends_on_instance(w.points@, victim);
        let pts = self.instances[id as usize].pin_points();
        let ghost orig = self.wires@;
        let mut i: usize = 0;
        let ghost mut k: int = 0;
        while i < self.wires.len()
            invariant
                0 <= k <= orig.len(),
                self.wires@ == orig.subrange(0, k).filter(keep) + orig.subrange(k, orig.len() as int),
                i == orig.subrange(0, k).filter(keep).len(),
                pts@ == inst_pin_points(victim),
                victim == old(self).instances@[id as int],
                orig == old(self).wires@,
                self.instances@ == old(self).instances@,
                self.annotations@ == old(self).annotations@,
                self.labels@ == old(self).labels@,
                self.name@ == old(self).name@,
                self.name_en@ == old(self).name_en@,
                old(self).wf(),
                id < old(self).instances@.len(),
                keep == (|w: Wire| !ends_on_instance(w.points@, victim)),
            decreases self.wires@.len() - i,
        {
            proof {
                reveal(Seq::filter);
                let t = orig.subrange(0, k + 1);
                assert(t.drop_last() =~= orig.subrange(0, k));
                assert(t.last() == orig[k]);
                assert(self.wires@[i as int] == orig[k]);
            }
            let drop = ends_on_points(&self.wires[i].points, &pts);
            proof {
                assert(drop == ends_on_instance(orig[k].points@, victim)) by {
                    if drop {
                        let s = choose|s: int| 0 <= s < pts@.len() && (#[trigger] pts@[s] == orig[k].points@[0]
                            || pts@[s] == orig[k].points@.last());
                        assert(victim.pin_point(s) == pts@[s]);
                    } else if orig[k].points@.len() > 0 {
                        assert forall|s: int| 0 <= s < victim.pins@.len() implies !(#[trigger] victim.pin_point(s)
                            == orig[k].points@[0] || victim.pin_point(s) == orig[k].points@.last()) by {
                            assert(pts@[s] == victim.pin_point(s));
                        }
                    }
                }
            }
            if drop {
                self.wires.remove(i);
                proof {
                    assert(self.wires@ =~= orig.subrange(0, k + 1).filter(keep) + orig.subrange(k + 1, orig.len() as int));
                }
            } else {
                proof {
                    assert(self.wires@ =~= orig.subrange(0, k + 1).filter(keep) + orig.subrange(k + 1, orig.len() as int));
                }
                i = i + 1;
            }
            proof {
                k = k + 1;
            }
        }
        proof {
            assert(k == orig.len()) by {
                assert(self.wires@.len() == i + (orig.len() - k));
            }
            assert(orig.subrange(0, k) =~= orig);
            assert(self.wires@ =~= orig.filter(keep));
            orig.lemma_filter_len(keep);
        }
        self.instances.remove(id as usize);
        true
    }

    pub fn add_wire(&mut self, points: Vec<Point>) -> (id: u32)
        requires
            old(self).wf(),
            old(self).wires@.len() < MAX_WIRES,
        ensures
            final(self).wf(),
            id == old(self).wires@.len(),
            final(self).wires@.len() == old(self).wires@.len() + 1,
            forall|i: int| 0 <= i < id ==> final(self).wires@[i] == old(self).wires@[i],
            final(self).wires@[id as int].points@ == points@,
            final(self).instances@ == old(self).instances@,
            final(self).annotations@ == old(self).annotations@,
            final(self).labels@ == old(self).labels@,
            final(self).name@ == old(self).name@,
            final(self).name_en@ == old(self).name_en@,
    {
        self.wires.push(Wire::new(points));
        (self.wires.len() - 1) as u32
    }

    pub fn instance(&self, id: u32) -> (r: Option<&Instance>)
        ensures
            id < self.instances@.len() ==> r == Some(&self.instances@[id as int]),
            id >= self.instances@.len() ==> r is None,
    {
        if (id as usize) < self.instances.len() {
            Some(&self.instances[id as usize])
        } else {
            None
        }
    }

    /// Moves an instance.
    /// Mutable access to instance `id`, if there is one.
    pub fn instance_mut(&mut self, id: u32) -> (r: Option<&mut Instance>)
        ensures
            id < old(self).instances@.len() ==> r is Some && *r->0 == old(self).instances@[id as int]
                && final(self).instances@ == old(self).instances@.update(id as int, *final(r->0)),
            id >= old(self).instances@.len() ==> r is None && *final(self) == *old(self),
            final(self).wires@ == old(self).wires@,
            final(self).annotations@ == old(self).annotations@,
            final(self).labels@ == old(self).labels@,
            final(self).name@ == old(self).name@,
            final(self).name_en@ == old(self).name_en@,
    {
        if (id as usize) < self.instances.len() {
            Some(&mut self.instances[id as usize])
        } else {
            None
        }
    }

    pub fn set_pos(&mut self, id: u32, x: i32, y: i32)
        requires
            old(self).wf(),
            coord_ok(x as int),
            coord_ok(y as int),
        ensures
            final(self).wf(),
            id < old(self).instances@.len() ==> final(self).instances@ == old(self).instances@.update(
                id as int,
                Instance { x, y, ..old(self).instances@[id as int] },
            ),
            id >= old(self).instances@.len() ==> final(self).instances@ == old(self).instances@,
            final(self).wires@ == old(self).wires@,
            final(self).annotations@ == old(self).annotations@,
            final(self).labels@ == old(self).labels@,
            final(self).name@ == old(self).name@,
            final(self).name_en@ == old(self).name_en@,
    {
        if (id as usize) < self.instances.len() {
            self.instances[id as usize].x = x;
            self.instances[id as usize].y = y;
        }
    }

    /// Turns an instance clockwise by 90 degrees.
    pub fn rotate(&mut self, id: u32)
        requires
            old(self).wf(),
        ensures
            final(self).wf(),
            final(self).instances@.len() == old(self).instances@.len(),
            forall|i: int| 0 <= i < old(self).instances@.len() && i != id ==> final(self).instances@[i]
                == old(self).instances@[i],
            id < old(self).instances@.len() ==> ({
                let a = old(self).instances@[id as int];
                let b = final(self).instances@[id as int];
                &&& b.rot == (a.rot + 90) % 360
                &&& b.def == a.def && b.params == a.params && b.x == a.x && b.y == a.y
                &&& b.display_name@ == a.display_name@ && b.mem_init@ == a.mem_init@ && b.sub == a.sub
                &&& pins_rebuilt(Instance { rot: b.rot, ..a }, b)
            }),
            final(self).wires@ == old(self).wires@,
            final(self).annotations@ == old(self).annotations@,
            final(self).labels@ == old(self).labels@,
            final(self).name@ == old(self).name@,
            final(self).name_en@ == old(self).name_en@,
    {
        if (id as usize) < self.instances.len() {
            let r = self.instances[id as usize].rot;
            self.instances[id as usize].rot = (r % 360 + 90) % 360;
            assert((r % 360 + 90) % 360 == (r + 90) % 360);
            self.instances[id as usize].rebuild_pins();
        }
    }

    /// Changes the parameters of an instance and rebuilds its pins.
    pub fn set_params(&mut self, id: u32, params: Params)
        requires
            old(self).wf(),
        ensures
            final(self).wf(),
            final(self).instances@.len() == old(self).instances@.len(),
            forall|i: int| 0 <= i < old(self).instances@.len() && i != id ==> final(self).instances@[i]
                == old(self).instances@[i],
            id < old(self).instances@.len() ==> ({
                let a = old(self).instances@[id as int];
                let b = final(self).instances@[id as int];
                &&& b.params == params
                &&& b.def == a.def && b.rot == a.rot && b.x == a.x && b.y == a.y
                &&& b.display_name@ == a.display_name@ && b.mem_init@ == a.mem_init@ && b.sub == a.sub
                &&& pins_rebuilt(Instance { params, ..a }, b)
            }),
            final(self).wires@ == old(self).wires@,
            final(self).annotations@ == old(self).annotations@,
            final(self).labels@ == old(self).labels@,
            final(self).name@ == old(self).name@,
            final(self).name_en@ == old(self).name_en@,
    {
        if (id as usize) < self.instances.len() {
            self.instances[id as usize].params = params;
            self.instances[id as usize].rebuild_pins();
        }
    }

    pub fn remove_wire(&mut self, index: u32) -> (r: bool)
        requires
            old(self).wf(),
        ensures
            final(self).wf(),
            r == (index < old(self).wires@.len()),
            r ==> final(self).wires@ == old(self).wires@.remove(index as int),
            !r ==> final(self).wires@ == old(self).wires@,
            final(self).instances@ == old(self).instances@,
            final(self).annotations@ == old(self).annotations@,
            final(self).labels@ == old(self).labels@,
            final(self).name@ == old(self).name@,
            final(self).name_en@ == old(self).name_en@,
    {
        if (index as usize) < self.wires.len() {
            self.wires.remove(index as usize);
            true
        } else {
            false
        }
    }

    /// Total number of pins.
    pub fn pin_total(&self) -> (r: usize)
        requires
            self.wf(),
        ensures
            r == pin_count(self.instances@),
    {
        proof {
            lemma_pin_count_bound(self.instances@);
        }
        let mut n: usize = 0;
        let mut i: usize = 0;
        while i < self.instances.len()
            invariant
                self.wf(),
                i <= self.instances@.len(),
                n == pin_count(self.instances@.subrange(0, i as int)),
            decreases self.instances@.len() - i,
        {
            proof {
                let t = self.instances@.subrange(0, i as int + 1);
                assert(t.drop_last() =~= self.instances@.subrange(0, i as int));
                lemma_pin_count_bound(t);
                assert(t[i as int] == self.instances@[i as int]);
            }
            n = n + self.instances[i].pins.len();
            i = i + 1;
        }
        assert(self.instances@.subrange(0, i as int) =~= self.instances@);
        n
    }

    /// World positions of all pins (used to keep routes clear of them).
    pub fn all_pin_points(&self) -> (r: Vec<Point>)
        requires
            self.wf(),
        ensures
            r@ == flat_points(self.instances@),
            forall|k: int| 0 <= k < r@.len() ==> point_in_reach(#[trigger] r@[k]),
    {
        let mut v: Vec<Point> = Vec::new();
        let mut i: usize = 0;
        while i < self.instances.len()
            invariant
                self.wf(),
                i <= self.instances@.len(),
                v@ == flat_points(self.instances@.subrange(0, i as int)),
                forall|k: int| 0 <= k < v@.len() ==> point_in_reach(#[trigger] v@[k]),
            decreases self.instances@.len() - i,
        {
            proof {
                let t = self.instances@.subrange(0, i as int + 1);
                assert(t.drop_last() =~= self.instances@.subrange(0, i as int));
                assert(t.last() == self.instances@[i as int]);
            }
            let pts = self.instances[i].pin_points();
            let ghost before = v@;
            v.append(&mut pts.clone());
            assert(v@ =~= before + pts@);
            i = i + 1;
        }
        assert(self.instances@.subrange(0, i as int) =~= self.instances@);
        v
    }
}

/// A pin's world position lies within the placement limits plus one pin span.
pub open spec fn point_in_reach(p: Point) -> bool {
    -COORD_LIMIT <= p.x <= COORD_LIMIT + PIN_SPAN && -COORD_LIMIT <= p.y <= COORD_LIMIT + PIN_SPAN
}

impl Instance {
    /// World positions of the pins, in slot order.
    pub fn pin_points(&self) -> (r: Vec<Point>)
        requires
            self.wf(),
        ensures
            r@ == inst_pin_points(*self),
            forall|k: int| 0 <= k < r@.len() ==> point_in_reach(#[trigger] r@[k]),
    {
        let mut v: Vec<Point> = Vec::new();
        let mut s: usize = 0;
        while s < self.pins.len()
            invariant
                self.wf(),
                s <= self.pins@.len(),
                v@ == inst_pin_points(*self).subrange(0, s as int),
                forall|k: int| 0 <= k < v@.len() ==> point_in_reach(#[trigger] v@[k]),
            decreases self.pins@.len() - s,
        {
            assert(pin_offset_ok(self.pins@[s as int]));
            v.push(Point::new(self.x + self.pins[s].dx, self.y + self.pins[s].dy));
            assert(v@ =~= inst_pin_points(*self).subrange(0, s as int + 1));
            s = s + 1;
        }
        assert(inst_pin_points(*self).subrange(0, s as int) =~= inst_pin_points(*self));
        v
    }
}

/// Whether the polyline starts or ends at one of the points.
fn ends_on_points(pts: &Vec<Point>, pins: &Vec<Point>) -> (r: bool)
    ensures
        r == (pts@.len() > 0 && exists|s: int|
            0 <= s < pins@.len() && (#[trigger] pins@[s] == pts@[0] || pins@[s] == pts@.last())),
{
    if pts.len() == 0 {
        return false;
    }
    let a = pts[0];
    let b = pts[pts.len() - 1];
    let mut s: usize = 0;
    while s < pins.len()
        invariant
            s <= pins@.len(),
            pts@.len() > 0,
            a == pts@[0],
            b == pts@.last(),
            forall|j: int| 0 <= j < s ==> !(#[trigger] pins@[j] == a || pins@[j] == b),
        decreases pins@.len() - s,
    {
        if pins[s] == a || pins[s] == b {
            return true;
        }
        s = s + 1;
    }
    false
}

impl Board {
    /// Hit test: the pin nearest to the point within `radius` cells; of equally
    /// near pins, the first in board order.
    pub fn pick_pin(&self, x: i32, y: i32, radius: i32) -> (r: Option<(u32, usize)>)
        requires
            self.wf(),
        ensures
            r is None <==> forall|i: int, s: int|
                is_pin(self.instances@, i, s) ==> #[trigger] pin_d2(self.instances@[i], s, x, y) > radius
                    * radius,
            r is Some ==> ({
                let (bi, bs) = (r.unwrap().0 as int, r.unwrap().1 as int);
                let bd = pin_d2(self.instances@[bi], bs, x, y);
                &&& is_pin(self.instances@, bi, bs)
                &&& bd <= radius * radius
                &&& forall|i: int, s: int|
                    is_pin(self.instances@, i, s) && before(i, s, bi, bs) ==> #[trigger] pin_d2(
                        self.instances@[i],
                        s,
                        x,
                        y,
                    ) > bd
                &&& forall|i: int, s: int|
                    is_pin(self.instances@, i, s) && before(bi, bs, i, s) ==> #[trigger] pin_d2(
                        self.instances@[i],
                        s,
                        x,
                        y,
                    ) >= bd
            }),
    {
        let rr = radius as i128;
        assert(0 <= rr * rr <= 0x1_0000_0000 * 0x1_0000_0000) by (nonlinear_arith)
            requires
                -0x1_0000_0000 <= rr <= 0x1_0000_0000,
        ;
        let r2: i128 = rr * rr;
        let mut best: Option<(u32, usize, i128)> = None;
        let mut ii: usize = 0;
        while ii < self.instances.len()
            invariant
                self.wf(),
                ii <= self.instances@.len(),
                r2 == radius * radius,
                best is None ==> forall|i: int, s: int|
                    is_pin(self.instances@, i, s) && i < ii ==> #[trigger] pin_d2(self.instances@[i], s, x, y)
                        > r2,
                best is Some ==> ({
                    let (bi, bs, bd) = (best.unwrap().0 as int, best.unwrap().1 as int, best.unwrap().2 as int);
                    &&& is_pin(self.instances@, bi, bs) && bi < ii
                    &&& bd == pin_d2(self.instances@[bi], bs, x, y)
                    &&& bd <= r2
                    &&& forall|i: int, s: int|
                        is_pin(self.instances@, i, s) && before(i, s, bi, bs) ==> #[trigger] pin_d2(
                            self.instances@[i],
                            s,
                            x,
                            y,
                        ) > bd
                    &&& forall|i: int, s: int|
                        is_pin(self.instances@, i, s) && before(bi, bs, i, s) && i < ii ==> #[trigger] pin_d2(
                            self.instances@[i],
                            s,
                            x,
                            y,
                        ) >= bd
                }),
            decreases self.instances@.len() - ii,
        {
            let inst = &self.instances[ii];
            assert(inst.wf());
            let mut slot: usize = 0;
            while slot < inst.pins.len()
                invariant
                    self.wf(),
                    ii < self.instances@.len(),
                    *inst == self.instances@[ii as int],
                    inst.wf(),
                    slot <= inst.pins@.len(),
                    r2 == radius * radius,
                    best is None ==> forall|i: int, s: int|
                        is_pin(self.instances@, i, s) && before(i, s, ii as int, slot as int)
                            ==> #[trigger] pin_d2(self.instances@[i], s, x, y) > r2,
                    best is Some ==> ({
                        let (bi, bs, bd) = (best.unwrap().0 as int, best.unwrap().1 as int, best.unwrap().2 as int);
                        &&& is_pin(self.instances@, bi, bs) && before(bi, bs, ii as int, slot as int)
                        &&& bd == pin_d2(self.instances@[bi], bs, x, y)
                        &&& bd <= r2
                        &&& forall|i: int, s: int|
                            is_pin(self.instances@, i, s) && before(i, s, bi, bs) ==> #[trigger] pin_d2(
                                self.instances@[i],
                                s,
                                x,
                                y,
                            ) > bd
                        &&& forall|i: int, s: int|
                            is_pin(self.instances@, i, s) && before(bi, bs, i, s) && before(
                                i,
                                s,
                                ii as int,
                                slot as int,
                            ) ==> #[trigger] pin_d2(self.instances@[i], s, x, y) >= bd
                    }),
                decreases inst.pins@.len() - slot,
            {
                assert(pin_offset_ok(inst.pins@[slot as int]));
                let dx = inst.x as i128 + inst.pins[slot].dx as i128 - x as i128;
                let dy = inst.y as i128 + inst.pins[slot].dy as i128 - y as i128;
                assert(0 <= dx * dx <= 0x10_0000_0000 * 0x10_0000_0000) by (nonlinear_arith)
                    requires
                        -0x10_0000_0000 <= dx <= 0x10_0000_0000,
                ;
                assert(0 <= dy * dy <= 0x10_0000_0000 * 0x10_0000_0000) by (nonlinear_arith)
                    requires
                        -0x10_0000_0000 <= dy <= 0x10_0000_0000,
                ;
                let d2 = dx * dx + dy * dy;
                assert(d2 == pin_d2(self.instances@[ii as int], slot as int, x, y));
                let better = match best {
                    None => true,
                    Some((_, _, bd)) => d2 < bd,
                };
                if d2 <= r2 && better {
                    best = Some((ii as u32, slot, d2));
                }
                slot = slot + 1;
            }
            ii = ii + 1;
        }
        match best {
            Some((i, s, _)) => Some((i, s)),
            None => None,
        }
    }

    /// Hit test: the last instance whose box covers the grid point.
    pub fn pick_component(&self, x: i32, y: i32) -> (r: Option<u32>)
        requires
            self.wf(),
        ensures
            r is None <==> forall|i: int| 0 <= i < self.instances@.len() ==> !#[trigger] box_covers(
                self.instances@[i],
                x,
                y,
            ),
            r is Some ==> ({
                let i = r->0 as int;
                &&& 0 <= i < self.instances@.len()
                &&& box_covers(self.instances@[i], x, y)
                &&& forall|j: int| i < j < self.instances@.len() ==> !#[trigger] box_covers(
                    self.instances@[j],
                    x,
                    y,
                )
            }),
    {
        let mut i = self.instances.len();
        while i > 0
            invariant
                self.wf(),
                i <= self.instances@.len(),
                forall|j: int| i <= j < self.instances@.len() ==> !#[trigger] box_covers(
                    self.instances@[j],
                    x,
                    y,
                ),
            decreases i,
        {
            i = i - 1;
            let inst = &self.instances[i];
            assert(inst.wf());
            let (w, h) = inst.size();
            if x >= inst.x && x < inst.x + w && y >= inst.y && y < inst.y + h {
                assert(box_covers(self.instances@[i as int], x, y));
                return Some(i as u32);
            }
        }
        None
    }

    /// Hit test: the wire with the segment nearest to the point within `radius`
    /// cells; of equally near segments, the first in board order.
    pub fn pick_wire(&self, x: i32, y: i32, radius: i32) -> (r: Option<u32>)
        requires
            self.wf(),
        ensures
            r is None <==> forall|w: int, k: int|
                is_seg(self.wires@, w, k) ==> #[trigger] wire_d2(self.wires@, w, k, x, y) > radius * radius,
            r is Some ==> exists|bk: int|
                #[trigger] is_seg(self.wires@, r->0 as int, bk) && {
                    let bw = r->0 as int;
                    let bd = wire_d2(self.wires@, bw, bk, x, y);
                    &&& bd <= radius * radius
                    &&& forall|w: int, k: int|
                        is_seg(self.wires@, w, k) && before(w, k, bw, bk) ==> #[trigger] wire_d2(
                            self.wires@,
                            w,
                            k,
                            x,
                            y,
                        ) > bd
                    &&& forall|w: int, k: int|
                        is_seg(self.wires@, w, k) && before(bw, bk, w, k) ==> #[trigger] wire_d2(
                            self.wires@,
                            w,
                            k,
                            x,
                            y,
                        ) >= bd
                },
    {
        let rr = radius as i128;
        assert(0 <= rr * rr <= 0x1_0000_0000 * 0x1_0000_0000) by (nonlinear_arith)
            requires
                -0x1_0000_0000 <= rr <= 0x1_0000_0000,
        ;
        let r2: i128 = rr * rr;
        let p = Point::new(x, y);
        let mut best: Option<(u32, usize, i128)> = None;
        let mut wi: usize = 0;
        while wi < self.wires.len()
            invariant
                self.wf(),
                wi <= self.wires@.len(),
                r2 == radius * radius,
                p == (Point { x, y }),
                best is None ==> forall|w: int, k: int|
                    is_seg(self.wires@, w, k) && w < wi ==> #[trigger] wire_d2(self.wires@, w, k, x, y) > r2,
                best is Some ==> ({
                    let (bw, bk, bd) = (best.unwrap().0 as int, best.unwrap().1 as int, best.unwrap().2 as int);
                    &&& is_seg(self.wires@, bw, bk) && bw < wi
                    &&& bd == wire_d2(self.wires@, bw, bk, x, y)
                    &&& bd <= r2
                    &&& forall|w: int, k: int|
                        is_seg(self.wires@, w, k) && before(w, k, bw, bk) ==> #[trigger] wire_d2(
                            self.wires@,
                            w,
                            k,
                            x,
                            y,
                        ) > bd
                    &&& forall|w: int, k: int|
                        is_seg(self.wires@, w, k) && before(bw, bk, w, k) && w < wi ==> #[trigger] wire_d2(
                            self.wires@,
                            w,
                            k,
                            x,
                            y,
                        ) >= bd
                }),
            decreases self.wires@.len() - wi,
        {
            let pts = &self.wires[wi].points;
            let n = pts.len();
            let last: usize = if n >= 1 { n - 1 } else { 0 };
            let mut k: usize = 0;
            while k < last
                invariant
                    self.wf(),
                    wi < self.wires@.len(),
                    *pts == self.wires@[wi as int].points,
                    n == pts@.len(),
                    last == if n >= 1 { n - 1 } else { 0 },
                    k <= last,
                    r2 == radius * radius,
                    p == (Point { x, y }),
                    best is None ==> forall|w: int, j: int|
                        is_seg(self.wires@, w, j) && before(w, j, wi as int, k as int)
                            ==> #[trigger] wire_d2(self.wires@, w, j, x, y) > r2,
                    best is Some ==> ({
                        let (bw, bk, bd) = (best.unwrap().0 as int, best.unwrap().1 as int, best.unwrap().2 as int);
                        &&& is_seg(self.wires@, bw, bk) && before(bw, bk, wi as int, k as int)
                        &&& bd == wire_d2(self.wires@, bw, bk, x, y)
                        &&& bd <= r2
                        &&& forall|w: int, j: int|
                            is_seg(self.wires@, w, j) && before(w, j, bw, bk) ==> #[trigger] wire_d2(
                                self.wires@,
                                w,
                                j,
                                x,
                                y,
                            ) > bd
                        &&& forall|w: int, j: int|
                            is_seg(self.wires@, w, j) && before(bw, bk, w, j) && before(
                                w,
                                j,
                                wi as int,
                                k as int,
                            ) ==> #[trigger] wire_d2(self.wires@, w, j, x, y) >= bd
                    }),
                decreases pts@.len() - k,
            {
                let d = segment_distance2(p, pts[k], pts[k + 1]);
                assert(d == wire_d2(self.wires@, wi as int, k as int, x, y));
                let better = match best {
                    None => true,
                    Some((_, _, bd)) => d < bd,
                };
                if d <= r2 && better {
                    best = Some((wi as u32, k, d));
                }
                k = k + 1;
            }
            wi = wi + 1;
        }
        match best {
            Some((w, k, bd)) => {
                let r: Option<u32> = Some(w);
                assert(is_seg(self.wires@, r->0 as int, k as int) && {
                    let bw = r->0 as int;
                    let bd = wire_d2(self.wires@, bw, k as int, x, y);
                    &&& bd <= radius * radius
                    &&& forall|v: int, j: int|
                        is_seg(self.wires@, v, j) && before(v, j, bw, k as int) ==> #[trigger] wire_d2(
                            self.wires@,
                            v,
                            j,
                            x,
                            y,
                        ) > bd
                    &&& forall|v: int, j: int|
                        is_seg(self.wires@, v, j) && before(bw, k as int, v, j) ==> #[trigger] wire_d2(
                            self.wires@,
                            v,
                            j,
                            x,
                            y,
                        ) >= bd
                });
                r
            },
            None => None,
        }
    }
}

// ---------------------------------------------------------------------------
// Auto-routing
// ---------------------------------------------------------------------------

/// Cells searched beyond the bounding box of the two end points.
pub const ROUTE_PAD: i32 = 16;

/// Extra cost of each turn: fewer turns read better.
pub const TURN_COST: u64 = 8;

/// Two grid points one step apart horizontally or vertically.
pub open spec fn unit_step(a: Point, b: Point) -> bool {
    (a.x == b.x && (b.y - a.y == 1 || a.y - b.y == 1)) || (a.y == b.y && (b.x - a.x == 1 || a.x
        - b.x == 1))
}

/// The unit edge `ab` lies on a horizontal or vertical segment of one of the wires
/// (a route along it would overlap that wire and connect to it).
pub open spec fn edge_overlaps(avoid: Seq<Wire>, a: Point, b: Point) -> bool {
    exists|w: int, k: int|
        #[trigger] is_seg(avoid, w, k) && seg_holds_edge(avoid[w].points@[k], avoid[w].points@[k + 1], a, b)
}

pub open spec fn seg_holds_edge(p: Point, q: Point, a: Point, b: Point) -> bool {
    (a.y == b.y && p.y == q.y && p.y == a.y && between(a.x as int, p.x as int, q.x as int)
        && between(b.x as int, p.x as int, q.x as int)) || (a.x == b.x && p.x == q.x && p.x == a.x
        && between(a.y as int, p.y as int, q.y as int) && between(b.y as int, p.y as int, q.y as int))
}

/// A grid path from `from` to `to` in unit steps that enters no blocked point
/// and runs along no existing wire.
pub open spec fn route_ok(raw: Seq<Point>, from: Point, to: Point, blocked: Seq<Point>, avoid: Seq<Wire>) -> bool {
    &&& raw.len() >= 1
    &&& raw[0] == from
    &&& raw.last() == to
    &&& forall|k: int| 0 <= k < raw.len() - 1 ==> #[trigger] route_step(blocked, avoid, raw[k], raw[k + 1])
}

/// One step of a route: to a neighbouring point that is not blocked, along no wire.
pub open spec fn route_step(blocked: Seq<Point>, avoid: Seq<Wire>, a: Point, b: Point) -> bool {
    unit_step(a, b) && !blocked.contains(b) && !edge_overlaps(avoid, a, b)
}

/// The search area of a route between the two points fits the index arithmetic.
pub open spec fn route_fits(from: Point, to: Point) -> bool {
    let w = (if from.x <= to.x { to.x - from.x } else { from.x - to.x }) + 2 * ROUTE_PAD + 1;
    let h = (if from.y <= to.y { to.y - from.y } else { from.y - to.y }) + 2 * ROUTE_PAD + 1;
    &&& point_in_reach(from)
    &&& point_in_reach(to)
    &&& w * h * 3 < 0xFFFF_FFFF
}

/// Grid point of cell `c` in a box of width `w` whose corner is `(x0, y0)`.
pub open spec fn cell_pt(x0: int, y0: int, w: int, c: int) -> Point {
    Point { x: (x0 + c % w) as i32, y: (y0 + c / w) as i32 }
}

proof fn lemma_cell(x0: int, y0: int, w: int, h: int, x: int, y: int)
    requires
        w > 0,
        h > 0,
        x0 <= x < x0 + w,
        y0 <= y < y0 + h,
        i32::MIN <= x <= i32::MAX,
        i32::MIN <= y <= i32::MAX,
    ensures
        0 <= (y - y0) * w + (x - x0) < w * h,
        cell_pt(x0, y0, w, (y - y0) * w + (x - x0)) == (Point { x: x as i32, y: y as i32 }),
{
    let c = (y - y0) * w + (x - x0);
    vstd::arithmetic::div_mod::lemma_fundamental_div_mod_converse(c, w, y - y0, x - x0);
    assert(0 <= (y - y0) * w <= (h - 1) * w) by (nonlinear_arith)
        requires
            0 <= y - y0 <= h - 1,
            w > 0,
    ;
    assert((h - 1) * w + w == w * h) by (nonlinear_arith);
}

proof fn lemma_cell_bounds(x0: int, y0: int, w: int, h: int, c: int)
    requires
        w > 0,
        h > 0,
        0 <= c < w * h,
    ensures
        0 <= c % w < w,
        0 <= c / w < h,
{
    vstd::arithmetic::div_mod::lemma_mod_pos_bound(c, w);
    vstd::arithmetic::div_mod::lemma_div_pos_is_pos(c, w);
    vstd::arithmetic::div_mod::lemma_fundamental_div_mod(c, w);
    if c / w >= h {
        assert(w * (c / w) >= w * h) by (nonlinear_arith)
            requires
                c / w >= h,
                w > 0,
        ;
    }
}

proof fn lemma_cell_inj(x0: int, y0: int, w: int, h: int, c1: int, c2: int)
    requires
        w > 0,
        h > 0,
        0 <= c1 < w * h,
        0 <= c2 < w * h,
        i32::MIN <= x0,
        i32::MIN <= y0,
        x0 + w <= i32::MAX,
        y0 + h <= i32::MAX,
        cell_pt(x0, y0, w, c1) == cell_pt(x0, y0, w, c2),
    ensures
        c1 == c2,
{
    lemma_cell_bounds(x0, y0, w, h, c1);
    lemma_cell_bounds(x0, y0, w, h, c2);
    vstd::arithmetic::div_mod::lemma_fundamental_div_mod(c1, w);
    vstd::arithmetic::div_mod::lemma_fundamental_div_mod(c2, w);
}

/// Marks the cells of the box that hold a blocked point.
fn blocked_grid(blocked: &Vec<Point>, x0: i32, y0: i32, w: usize, h: usize) -> (g: Vec<bool>)
    requires
        w > 0,
        h > 0,
        w * h < 0xFFFF_FFFF,
        x0 as int + w as int <= i32::MAX,
        y0 as int + h as int <= i32::MAX,
    ensures
        g@.len() == w * h,
        forall|c: int|
            0 <= c < w * h ==> (#[trigger] g@[c] <==> blocked@.contains(cell_pt(x0 as int, y0 as int, w as int, c))),
{
    let mut g: Vec<bool> = Vec::new();
    let mut c: usize = 0;
    while c < w * h
        invariant
            c <= w * h,
            w * h < 0xFFFF_FFFF,
            g@.len() == c,
            forall|j: int| 0 <= j < c ==> !(#[trigger] g@[j]),
        decreases w * h - c,
    {
        g.push(false);
        c = c + 1;
    }
    let mut i: usize = 0;
    while i < blocked.len()
        invariant
            w > 0,
            h > 0,
            w * h < 0xFFFF_FFFF,
            x0 as int + w as int <= i32::MAX,
            y0 as int + h as int <= i32::MAX,
            i <= blocked@.len(),
            g@.len() == w * h,
            forall|c: int|
                0 <= c < w * h && !(#[trigger] g@[c]) ==> forall|j: int|
                    0 <= j < i ==> blocked@[j] != cell_pt(x0 as int, y0 as int, w as int, c),
            forall|c: int| 0 <= c < w * h && #[trigger] g@[c] ==> blocked@.contains(cell_pt(x0 as int, y0 as int, w as int, c)),
        decreases blocked@.len() - i,
    {
        let p = blocked[i];
        if p.x >= x0 && (p.x as i64) < x0 as i64 + w as i64 && p.y >= y0 && (p.y as i64) < y0 as i64
            + h as i64 {
            proof {
                lemma_cell(x0 as int, y0 as int, w as int, h as int, p.x as int, p.y as int);
            }
            let c = (p.y as i64 - y0 as i64) as usize * w + (p.x as i64 - x0 as i64) as usize;
            let ghost g0 = g@;
            g.set(c, true);
            proof {
                assert(blocked@[i as int] == cell_pt(x0 as int, y0 as int, w as int, c as int));
                assert forall|c2: int| 0 <= c2 < w * h && #[trigger] g@[c2] implies blocked@.contains(cell_pt(x0 as int, y0 as int, w as int, c2)) by {
                    if c2 != c {
                        assert(g0[c2]);
                    }
                }
                assert forall|c2: int|
                    0 <= c2 < w * h && !(#[trigger] g@[c2]) implies blocked@[i as int] != cell_pt(
                    x0 as int,
                    y0 as int,
                    w as int,
                    c2,
                ) by {
                    if blocked@[i as int] == cell_pt(x0 as int, y0 as int, w as int, c2) {
                        lemma_cell_inj(x0 as int, y0 as int, w as int, h as int, c as int, c2);
                    }
                }
            }
        } else {
            proof {
                assert forall|c: int| 0 <= c < w * h implies cell_pt(x0 as int, y0 as int, w as int, c)
                    != p by {
                    lemma_cell_bounds(x0 as int, y0 as int, w as int, h as int, c);
                }
            }
        }
        i = i + 1;
    }
    proof {
        assert forall|c: int|
            0 <= c < w * h && !(#[trigger] g@[c]) implies !blocked@.contains(
            cell_pt(x0 as int, y0 as int, w as int, c),
        ) by {
            if blocked@.contains(cell_pt(x0 as int, y0 as int, w as int, c)) {
                let j = choose|j: int| 0 <= j < blocked@.len() && blocked@[j] == cell_pt(x0 as int, y0 as int, w as int, c);
            }
        }
    }
    g
}

fn between_exec(v: i32, a: i32, b: i32) -> (r: bool)
    ensures
        r == between(v as int, a as int, b as int),
{
    if a <= b {
        a <= v && v <= b
    } else {
        b <= v && v <= a
    }
}

/// Whether the unit edge `ab` runs along one of the wires.
fn edge_blocked(avoid: &Vec<Wire>, a: Point, b: Point) -> (r: bool)
    ensures
        r == edge_overlaps(avoid@, a, b),
{
    let mut wi: usize = 0;
    while wi < avoid.len()
        invariant
            wi <= avoid@.len(),
            forall|v: int, j: int|
                0 <= v < wi && #[trigger] is_seg(avoid@, v, j) ==> !seg_holds_edge(
                    avoid@[v].points@[j],
                    avoid@[v].points@[j + 1],
                    a,
                    b,
                ),
        decreases avoid@.len() - wi,
    {
        let pts = &avoid[wi].points;
        let n = pts.len();
        let last: usize = if n >= 1 { n - 1 } else { 0 };
        let mut k: usize = 0;
        while k < last
            invariant
                wi < avoid@.len(),
                *pts == avoid@[wi as int].points,
                n == pts@.len(),
                last == if n >= 1 { n - 1 } else { 0 },
                k <= last,
                forall|v: int, j: int|
                    0 <= v < wi && #[trigger] is_seg(avoid@, v, j) ==> !seg_holds_edge(
                        avoid@[v].points@[j],
                        avoid@[v].points@[j + 1],
                        a,
                        b,
                    ),
                forall|j: int|
                    0 <= j < k && #[trigger] is_seg(avoid@, wi as int, j) ==> !seg_holds_edge(
                        avoid@[wi as int].points@[j],
                        avoid@[wi as int].points@[j + 1],
                        a,
                        b,
                    ),
            decreases pts@.len() - k,
        {
            let p = pts[k];
            let q = pts[k + 1];
            let hold = (a.y == b.y && p.y == q.y && p.y == a.y && between_exec(a.x, p.x, q.x)
                && between_exec(b.x, p.x, q.x)) || (a.x == b.x && p.x == q.x && p.x == a.x
                && between_exec(a.y, p.y, q.y) && between_exec(b.y, p.y, q.y));
            if hold {
                assert(is_seg(avoid@, wi as int, k as int));
                return true;
            }
            k = k + 1;
        }
        wi = wi + 1;
    }
    false
}

/// No predecessor / not reached.
const NONE: u32 = 0xFFFF_FFFF;

/// Grid point of search state `s` (three states per cell: how it was entered).
spec fn st_pt(x0: int, y0: int, w: int, s: int) -> Point {
    cell_pt(x0, y0, w, s / 3)
}

/// Moving from state `a` to state `b` is a legal route step.
spec fn link_ok(x0: int, y0: int, w: int, blocked: Seq<Point>, avoid: Seq<Wire>, a: int, b: int) -> bool {
    let pa = st_pt(x0, y0, w, a);
    let pb = st_pt(x0, y0, w, b);
    unit_step(pa, pb) && !blocked.contains(pb) && !edge_overlaps(avoid, pa, pb)
}

/// What the search keeps true: every reached state other than the start has a
/// predecessor that is cheaper and one legal step away.
spec fn search_inv(
    x0: int,
    y0: int,
    w: int,
    n: int,
    start: int,
    blocked: Seq<Point>,
    avoid: Seq<Wire>,
    dist: Seq<u64>,
    prev: Seq<u32>,
    open: Seq<(u64, u32)>,
    fin: int,
) -> bool {
    &&& dist.len() == n
    &&& prev.len() == n
    &&& 0 <= start < n
    &&& n < NONE
    &&& dist[start] == 0
    &&& prev[start] == NONE
    &&& forall|s: int| 0 <= s < n && #[trigger] dist[s] != u64::MAX && s != start ==> prev[s] != NONE
    &&& forall|s: int|
        0 <= s < n && #[trigger] prev[s] != NONE ==> {
            &&& prev[s] < n
            &&& dist[s] != u64::MAX
            &&& dist[prev[s] as int] < dist[s]
            &&& link_ok(x0, y0, w, blocked, avoid, prev[s] as int, s)
        }
    &&& forall|s: int| 0 <= s < n && #[trigger] dist[s] != u64::MAX ==> dist[s] <= 9 * fin
    &&& forall|e: int|
        0 <= e < open.len() ==> {
            &&& (#[trigger] open[e]).1 < n
            &&& dist[open[e].1 as int] <= open[e].0
            &&& open[e].0 <= 9 * fin
        }
    &&& 0 <= fin
    &&& 9 * fin < 0x1_0000_0000_0000
}

/// The search tables after relaxing the step from state `cur`, reached at
/// `cost` and entered in direction `d`, to state `ni`, entered in direction
/// `nd`: a cheaper way in (a turn costs extra) replaces the cost and the
/// predecessor of `ni` and queues it; otherwise nothing changes.
spec fn relaxed(
    dist: Seq<u64>,
    prev: Seq<u32>,
    open: Seq<(u64, u32)>,
    cur: int,
    cost: int,
    d: int,
    nd: int,
    ni: int,
) -> (Seq<u64>, Seq<u32>, Seq<(u64, u32)>) {
    let nc2 = cost + (if d != 0 && d != nd { 1 + TURN_COST } else { 1 });
    if nc2 < dist[ni] {
        (dist.update(ni, nc2 as u64), prev.update(ni, cur as u32), open.push((nc2 as u64, ni as u32)))
    } else {
        (dist, prev, open)
    }
}

/// Reached costs only go down, a reached state stays reached, and a state
/// whose cost went down is queued with its new cost.
spec fn tables_grew(d0: Seq<u64>, o0: Seq<(u64, u32)>, d1: Seq<u64>, o1: Seq<(u64, u32)>) -> bool {
    &&& d1.len() == d0.len()
    &&& forall|s: int| 0 <= s < d0.len() ==> #[trigger] d1[s] <= d0[s]
    &&& forall|s: int| 0 <= s < d0.len() && d1[s] != d0[s] ==> o1.contains((#[trigger] d1[s], s as u32))
    &&& forall|x: (u64, u32)| #[trigger] o0.contains(x) ==> o1.contains(x)
}

/// Relaxes the step from `cur` (reached at `cost`) to the neighbouring cell
/// `(nx, ny)` entered in direction `nd`.
fn relax(
    dist: &mut Vec<u64>,
    prev: &mut Vec<u32>,
    open: &mut Vec<(u64, u32)>,
    cur: usize,
    cost: u64,
    d: usize,
    nd: usize,
    nc: usize,
    Ghost(g): Ghost<(int, int, int, int, int, Seq<Point>, Seq<Wire>, int)>,
)
    requires
        ({
            let (x0, y0, w, n, start, blocked, avoid, fin) = g;
            &&& search_inv(x0, y0, w, n, start, blocked, avoid, old(dist)@, old(prev)@, old(open)@, fin)
            &&& 0 <= cur < n
            &&& cost == old(dist)@[cur as int]
            &&& cost <= 9 * (fin - 1)
            &&& 1 <= nd <= 2
            &&& d <= 2
            &&& 0 <= nc * 3 + nd < n
            &&& link_ok(x0, y0, w, blocked, avoid, cur as int, (nc * 3 + nd) as int)
        }),
    ensures
        ({
            let (x0, y0, w, n, start, blocked, avoid, fin) = g;
            &&& search_inv(x0, y0, w, n, start, blocked, avoid, final(dist)@, final(prev)@, final(open)@, fin)
            &&& final(dist)@[cur as int] == old(dist)@[cur as int]
        }),
        (final(dist)@, final(prev)@, final(open)@) == relaxed(
            old(dist)@,
            old(prev)@,
            old(open)@,
            cur as int,
            cost as int,
            d as int,
            nd as int,
            (nc * 3 + nd) as int,
        ),
        tables_grew(old(dist)@, old(open)@, final(dist)@, final(open)@),
        final(dist)@[(nc * 3 + nd) as int] != u64::MAX,
{
    let ghost (x0, y0, w, n, start, blocked, avoid, fin) = g;
    let step: u64 = if d != 0 && d != nd { 1 + TURN_COST } else { 1 };
    let nc2 = cost + step;
    let ni = nc * 3 + nd;
    if nc2 < dist[ni] {
        proof {
            assert(ni != start) by {
                assert(dist@[start] == 0);
            }
            assert(ni != cur);
        }
        dist.set(ni, nc2);
        prev.set(ni, cur as u32);
        open.push((nc2, ni as u32));
        proof {
            assert forall|s: int|
                0 <= s < n && #[trigger] prev@[s] != NONE implies {
                &&& prev@[s] < n
                &&& dist@[s] != u64::MAX
                &&& dist@[prev@[s] as int] < dist@[s]
                &&& link_ok(x0, y0, w, blocked, avoid, prev@[s] as int, s)
            } by {
                if s != ni {
                    assert(old(prev)@[s] == prev@[s]);
                    if prev@[s] as int == ni {
                        assert(dist@[ni as int] < old(dist)@[ni as int]);
                    }
                }
            }
            assert forall|s: int|
                0 <= s < n && #[trigger] dist@[s] != u64::MAX && s != start implies prev@[s] != NONE by {
                if s != ni {
                    assert(old(dist)@[s] == dist@[s]);
                }
            }
            assert(open@.last() == (nc2, ni as u32));
            assert(open@.contains((dist@[ni as int], ni as u32)));
            assert forall|x: (u64, u32)| #[trigger] old(open)@.contains(x) implies open@.contains(x) by {
                let e = choose|e: int| 0 <= e < old(open)@.len() && old(open)@[e] == x;
                assert(open@[e] == x);
            }
        }
    }
}

/// Predecessor links of the search: each leads one legal step back to a cheaper
/// state, down to the start.
spec fn chain_inv(
    x0: int,
    y0: int,
    w: int,
    n: int,
    start: int,
    blocked: Seq<Point>,
    avoid: Seq<Wire>,
    dist: Seq<u64>,
    prev: Seq<u32>,
) -> bool {
    &&& dist.len() == n
    &&& prev.len() == n
    &&& 0 <= start < n
    &&& n < NONE
    &&& prev[start] == NONE
    &&& forall|s: int| 0 <= s < n && #[trigger] dist[s] != u64::MAX && s != start ==> prev[s] != NONE
    &&& forall|s: int|
        0 <= s < n && #[trigger] prev[s] != NONE ==> {
            &&& prev[s] < n
            &&& dist[s] != u64::MAX
            &&& dist[prev[s] as int] < dist[s]
            &&& link_ok(x0, y0, w, blocked, avoid, prev[s] as int, s)
        }
}

/// Grid point of a search state.
fn state_point(s: usize, x0: i32, y0: i32, w: usize, h: usize) -> (p: Point)
    requires
        0 < w < 0x4000_0000,
        0 < h < 0x4000_0000,
        s < w * h * 3,
        x0 as int + w as int <= i32::MAX,
        y0 as int + h as int <= i32::MAX,
    ensures
        p == st_pt(x0 as int, y0 as int, w as int, s as int),
{
    let c = s / 3;
    proof {
        vstd::arithmetic::div_mod::lemma_fundamental_div_mod(s as int, 3);
        lemma_cell_bounds(x0 as int, y0 as int, w as int, h as int, c as int);
    }
    Point::new(x0 + (c % w) as i32, y0 + (c / w) as i32)
}

/// Cell of a grid point in a box of width `w` whose corner is `(x0, y0)`.
spec fn cell_of(x0: int, y0: int, w: int, p: Point) -> int {
    (p.y - y0) * w + (p.x - x0)
}

/// The point `(x, y)` lies in the box.
spec fn in_grid(x0: int, y0: int, w: int, h: int, x: int, y: int) -> bool {
    x0 <= x < x0 + w && y0 <= y < y0 + h
}

/// From `p` the search may step to `(nx, ny)`: it lies in the box, is not
/// blocked, and the step runs along no wire.
spec fn step_open(x0: int, y0: int, w: int, h: int, blocked: Seq<Point>, avoid: Seq<Wire>, p: Point, nx: int, ny: int) -> bool {
    let q = Point { x: nx as i32, y: ny as i32 };
    &&& in_grid(x0, y0, w, h, nx, ny)
    &&& !blocked.contains(q)
    &&& !edge_overlaps(avoid, p, q)
}

/// Explores the step from state `cur` at grid point `(x, y)` to its neighbour
/// `(x + dx, y + dy)`.
fn explore(
    dist: &mut Vec<u64>,
    prev: &mut Vec<u32>,
    open: &mut Vec<(u64, u32)>,
    cur: usize,
    cost: u64,
    x: i32,
    y: i32,
    dx: i32,
    dy: i32,
    x0: i32,
    y0: i32,
    w: usize,
    h: usize,
    bg: &Vec<bool>,
    avoid: &Vec<Wire>,
    Ghost(blocked): Ghost<Seq<Point>>,
    Ghost(start): Ghost<int>,
    Ghost(fin): Ghost<int>,
)
    requires
        0 < w < 0x4000_0000,
        0 < h < 0x4000_0000,
        w * h * 3 < NONE,
        x0 as int + w as int <= i32::MAX,
        y0 as int + h as int <= i32::MAX,
        bg@.len() == w * h,
        forall|c: int|
            0 <= c < w * h ==> (#[trigger] bg@[c] <==> blocked.contains(cell_pt(x0 as int, y0 as int, w as int, c))),
        search_inv(x0 as int, y0 as int, w as int, w * h * 3, start, blocked, avoid@, old(dist)@, old(prev)@, old(open)@, fin),
        0 <= cur < w * h * 3,
        cost == old(dist)@[cur as int],
        cost <= 9 * (fin - 1),
        st_pt(x0 as int, y0 as int, w as int, cur as int) == (Point { x, y }),
        (dx == 0 && (dy == 1 || dy == -1)) || (dy == 0 && (dx == 1 || dx == -1)),
    ensures
        search_inv(x0 as int, y0 as int, w as int, w * h * 3, start, blocked, avoid@, final(dist)@, final(prev)@, final(open)@, fin),
        final(dist)@[cur as int] == old(dist)@[cur as int],
        ({
            let q = Point { x: (x + dx) as i32, y: (y + dy) as i32 };
            let ok = step_open(x0 as int, y0 as int, w as int, h as int, blocked, avoid@, Point { x, y }, x + dx, y + dy);
            let ni = cell_of(x0 as int, y0 as int, w as int, q) * 3 + (if dx != 0 { 1int } else { 2int });
            &&& ok ==> (final(dist)@, final(prev)@, final(open)@) == relaxed(
                old(dist)@,
                old(prev)@,
                old(open)@,
                cur as int,
                cost as int,
                cur as int % 3,
                if dx != 0 { 1int } else { 2int },
                ni,
            )
            &&& ok ==> final(dist)@[ni] != u64::MAX
            &&& !ok ==> final(dist)@ == old(dist)@ && final(prev)@ == old(prev)@ && final(open)@ == old(open)@
        }),
        tables_grew(old(dist)@, old(open)@, final(dist)@, final(open)@),
{
    proof {
        vstd::arithmetic::div_mod::lemma_fundamental_div_mod(cur as int, 3);
        lemma_cell_bounds(x0 as int, y0 as int, w as int, h as int, cur as int / 3);
    }
    let nx = x as i64 + dx as i64;
    let ny = y as i64 + dy as i64;
    if nx < x0 as i64 || nx >= x0 as i64 + w as i64 || ny < y0 as i64 || ny >= y0 as i64 + h as i64 {
        return;
    }
    proof {
        lemma_cell(x0 as int, y0 as int, w as int, h as int, nx as int, ny as int);
    }
    let nc = (ny - y0 as i64) as usize * w + (nx - x0 as i64) as usize;
    if bg[nc] {
        return;
    }
    let q = Point::new(nx as i32, ny as i32);
    proof {
        assert(q == (Point { x: (x + dx) as i32, y: (y + dy) as i32 }));
        assert(nc as int == cell_of(x0 as int, y0 as int, w as int, q));
    }
    if edge_blocked(avoid, Point::new(x, y), q) {
        return;
    }
    let nd: usize = if dx != 0 { 1 } else { 2 };
    let d = cur % 3;
    proof {
        vstd::arithmetic::div_mod::lemma_fundamental_div_mod_converse((nc * 3 + nd) as int, 3, nc as int, nd as int);
        assert(st_pt(x0 as int, y0 as int, w as int, (nc * 3 + nd) as int) == q);
    }
    relax(dist, prev, open, cur, cost, d, nd, nc, Ghost((x0 as int, y0 as int, w as int, (w * h * 3) as int, start, blocked, avoid@, fin)));
}

/// Some search state at cell `c` has been reached.
spec fn cell_reached(dist: Seq<u64>, c: int) -> bool {
    dist[3 * c] != u64::MAX || dist[3 * c + 1] != u64::MAX || dist[3 * c + 2] != u64::MAX
}

/// Every legal step from the point of state `s` to a point of the box leads
/// to a reached cell.
spec fn expanded(x0: int, y0: int, w: int, h: int, blocked: Seq<Point>, avoid: Seq<Wire>, dist: Seq<u64>, s: int) -> bool {
    forall|q: Point|
        #[trigger] route_step(blocked, avoid, st_pt(x0, y0, w, s), q) && in_grid(x0, y0, w, h, q.x as int, q.y as int)
            ==> cell_reached(dist, cell_of(x0, y0, w, q))
}

/// A route from `from` to `to` in unit steps that stays inside the box.
spec fn grid_route(x0: int, y0: int, w: int, h: int, raw: Seq<Point>, from: Point, to: Point, blocked: Seq<Point>, avoid: Seq<Wire>) -> bool {
    &&& route_ok(raw, from, to, blocked, avoid)
    &&& forall|k: int| 0 <= k < raw.len() ==> in_grid(x0, y0, w, h, (#[trigger] raw[k]).x as int, raw[k].y as int)
}

/// The three states of the cell of a point of the box lie at that point.
proof fn lemma_state_at(x0: int, y0: int, w: int, h: int, q: Point, d: int)
    requires
        w > 0,
        h > 0,
        i32::MIN <= x0,
        i32::MIN <= y0,
        x0 + w <= i32::MAX,
        y0 + h <= i32::MAX,
        in_grid(x0, y0, w, h, q.x as int, q.y as int),
        0 <= d < 3,
    ensures
        0 <= cell_of(x0, y0, w, q) < w * h,
        0 <= cell_of(x0, y0, w, q) * 3 + d < w * h * 3,
        st_pt(x0, y0, w, cell_of(x0, y0, w, q) * 3 + d) == q,
{
    lemma_cell(x0, y0, w, h, q.x as int, q.y as int);
    let c = cell_of(x0, y0, w, q);
    vstd::arithmetic::div_mod::lemma_fundamental_div_mod_converse(c * 3 + d, 3, c, d);
    assert(c * 3 + d < w * h * 3) by (nonlinear_arith)
        requires
            0 <= c < w * h,
            0 <= d < 3,
    ;
}

/// Costs that only went down keep a reached cell reached.
proof fn lemma_reached_mono(d0: Seq<u64>, d1: Seq<u64>, c: int)
    requires
        d1.len() == d0.len(),
        forall|s: int| 0 <= s < d0.len() ==> #[trigger] d1[s] <= d0[s],
        0 <= 3 * c,
        3 * c + 2 < d0.len(),
        cell_reached(d0, c),
    ensures
        cell_reached(d1, c),
{
    assert(d1[3 * c] <= d0[3 * c]);
    assert(d1[3 * c + 1] <= d0[3 * c + 1]);
    assert(d1[3 * c + 2] <= d0[3 * c + 2]);
}

/// Costs that only went down keep an expanded state expanded.
proof fn lemma_expanded_mono(x0: int, y0: int, w: int, h: int, blocked: Seq<Point>, avoid: Seq<Wire>, d0: Seq<u64>, d1: Seq<u64>, s: int)
    requires
        w > 0,
        h > 0,
        i32::MIN <= x0,
        i32::MIN <= y0,
        x0 + w <= i32::MAX,
        y0 + h <= i32::MAX,
        d0.len() == w * h * 3,
        d1.len() == d0.len(),
        forall|t: int| 0 <= t < d0.len() ==> #[trigger] d1[t] <= d0[t],
        expanded(x0, y0, w, h, blocked, avoid, d0, s),
    ensures
        expanded(x0, y0, w, h, blocked, avoid, d1, s),
{
    assert forall|q: Point|
        #[trigger] route_step(blocked, avoid, st_pt(x0, y0, w, s), q) && in_grid(x0, y0, w, h, q.x as int, q.y as int) implies cell_reached(
        d1,
        cell_of(x0, y0, w, q),
    ) by {
        lemma_state_at(x0, y0, w, h, q, 2);
        lemma_reached_mono(d0, d1, cell_of(x0, y0, w, q));
    }
}

/// Table growth is transitive.
proof fn lemma_grew_trans(d0: Seq<u64>, o0: Seq<(u64, u32)>, d1: Seq<u64>, o1: Seq<(u64, u32)>, d2: Seq<u64>, o2: Seq<(u64, u32)>)
    requires
        tables_grew(d0, o0, d1, o1),
        tables_grew(d1, o1, d2, o2),
    ensures
        tables_grew(d0, o0, d2, o2),
{
    assert forall|t: int| 0 <= t < d0.len() implies #[trigger] d2[t] <= d0[t] by {
        assert(d2[t] <= d1[t] && d1[t] <= d0[t]);
    }
    assert forall|t: int| 0 <= t < d0.len() && d2[t] != d0[t] implies o2.contains((#[trigger] d2[t], t as u32)) by {
        if d2[t] == d1[t] {
            assert(o1.contains((d1[t], t as u32)));
        }
    }
}

/// When every reached state is finished and every finished state expanded,
/// each point of a route inside the box that starts at a reached cell is
/// reached.
proof fn lemma_route_reached(
    x0: int,
    y0: int,
    w: int,
    h: int,
    blocked: Seq<Point>,
    avoid: Seq<Wire>,
    dist: Seq<u64>,
    done: Seq<bool>,
    raw: Seq<Point>,
    from: Point,
    to: Point,
    k: int,
)
    requires
        w > 0,
        h > 0,
        i32::MIN <= x0,
        i32::MIN <= y0,
        x0 + w <= i32::MAX,
        y0 + h <= i32::MAX,
        dist.len() == w * h * 3,
        done.len() == w * h * 3,
        forall|s: int| 0 <= s < w * h * 3 && #[trigger] dist[s] != u64::MAX ==> done[s],
        forall|s: int| 0 <= s < w * h * 3 && #[trigger] done[s] ==> expanded(x0, y0, w, h, blocked, avoid, dist, s),
        grid_route(x0, y0, w, h, raw, from, to, blocked, avoid),
        cell_reached(dist, cell_of(x0, y0, w, from)),
        0 <= k < raw.len(),
    ensures
        cell_reached(dist, cell_of(x0, y0, w, raw[k])),
    decreases k,
{
    if k > 0 {
        lemma_route_reached(x0, y0, w, h, blocked, avoid, dist, done, raw, from, to, k - 1);
        let p = raw[k - 1];
        assert(in_grid(x0, y0, w, h, p.x as int, p.y as int));
        assert(in_grid(x0, y0, w, h, raw[k].x as int, raw[k].y as int));
        let c = cell_of(x0, y0, w, p);
        lemma_state_at(x0, y0, w, h, p, 0);
        lemma_state_at(x0, y0, w, h, p, 1);
        lemma_state_at(x0, y0, w, h, p, 2);
        let t = if dist[3 * c] != u64::MAX { 3 * c } else if dist[3 * c + 1] != u64::MAX { 3 * c + 1 } else { 3 * c + 2 };
        assert(t == c * 3 || t == c * 3 + 1 || t == c * 3 + 2);
        assert(st_pt(x0, y0, w, t) == p);
        assert(done[t]);
        assert(expanded(x0, y0, w, h, blocked, avoid, dist, t));
        let m = k - 1;
        assert(route_step(blocked, avoid, raw[m], raw[m + 1]));
    }
}

/// After the four neighbours of state `cur` at `(x, y)` were explored (tables
/// `d1` to `d4`), `cur` is expanded.
proof fn lemma_cur_expanded(
    xi: int,
    yi: int,
    wi: int,
    hi: int,
    blocked: Seq<Point>,
    avoid: Seq<Wire>,
    cur: int,
    x: int,
    y: int,
    d1: Seq<u64>,
    o1: Seq<(u64, u32)>,
    d2: Seq<u64>,
    o2: Seq<(u64, u32)>,
    d3: Seq<u64>,
    o3: Seq<(u64, u32)>,
    d4: Seq<u64>,
    o4: Seq<(u64, u32)>,
)
    requires
        wi > 0,
        hi > 0,
        i32::MIN <= xi,
        i32::MIN <= yi,
        xi + wi <= i32::MAX,
        yi + hi <= i32::MAX,
        d1.len() == wi * hi * 3,
        st_pt(xi, yi, wi, cur) == (Point { x: x as i32, y: y as i32 }),
        i32::MIN <= x <= i32::MAX,
        i32::MIN <= y <= i32::MAX,
        tables_grew(d1, o1, d2, o2),
        tables_grew(d2, o2, d3, o3),
        tables_grew(d3, o3, d4, o4),
        step_open(xi, yi, wi, hi, blocked, avoid, Point { x: x as i32, y: y as i32 }, x + 1, y + 0) ==> d1[cell_of(
            xi,
            yi,
            wi,
            Point { x: (x + 1) as i32, y: (y + 0) as i32 },
        ) * 3 + 1] != u64::MAX,
        step_open(xi, yi, wi, hi, blocked, avoid, Point { x: x as i32, y: y as i32 }, x + -1, y + 0) ==> d2[cell_of(
            xi,
            yi,
            wi,
            Point { x: (x + -1) as i32, y: (y + 0) as i32 },
        ) * 3 + 1] != u64::MAX,
        step_open(xi, yi, wi, hi, blocked, avoid, Point { x: x as i32, y: y as i32 }, x + 0, y + 1) ==> d3[cell_of(
            xi,
            yi,
            wi,
            Point { x: (x + 0) as i32, y: (y + 1) as i32 },
        ) * 3 + 2] != u64::MAX,
        step_open(xi, yi, wi, hi, blocked, avoid, Point { x: x as i32, y: y as i32 }, x + 0, y + -1) ==> d4[cell_of(
            xi,
            yi,
            wi,
            Point { x: (x + 0) as i32, y: (y + -1) as i32 },
        ) * 3 + 2] != u64::MAX,
    ensures
        expanded(xi, yi, wi, hi, blocked, avoid, d4, cur),
{
    lemma_grew_trans(d2, o2, d3, o3, d4, o4);
    lemma_grew_trans(d1, o1, d2, o2, d4, o4);
    let p = Point { x: x as i32, y: y as i32 };
    assert forall|q: Point|
        #[trigger] route_step(blocked, avoid, st_pt(xi, yi, wi, cur), q) && in_grid(xi, yi, wi, hi, q.x as int, q.y as int) implies cell_reached(
        d4,
        cell_of(xi, yi, wi, q),
    ) by {
        lemma_state_at(xi, yi, wi, hi, q, 2);
        let c = cell_of(xi, yi, wi, q);
        if q.x == x + 1 {
            assert(q == (Point { x: (x + 1) as i32, y: (y + 0) as i32 }));
            assert(step_open(xi, yi, wi, hi, blocked, avoid, p, x + 1, y + 0));
            lemma_reached_mono(d1, d4, c);
        } else if q.x == x - 1 {
            assert(q == (Point { x: (x + -1) as i32, y: (y + 0) as i32 }));
            assert(step_open(xi, yi, wi, hi, blocked, avoid, p, x + -1, y + 0));
            lemma_reached_mono(d2, d4, c);
        } else if q.y == y + 1 {
            assert(q == (Point { x: (x + 0) as i32, y: (y + 1) as i32 }));
            assert(step_open(xi, yi, wi, hi, blocked, avoid, p, x + 0, y + 1));
            lemma_reached_mono(d3, d4, c);
        } else {
            assert(q == (Point { x: (x + 0) as i32, y: (y + -1) as i32 }));
            assert(step_open(xi, yi, wi, hi, blocked, avoid, p, x + 0, y + -1));
        }
    }
}

/// After the finished state `cur` was expanded (tables `d0` to `d4`), the
/// search invariants hold again.
proof fn lemma_after_expand(
    xi: int,
    yi: int,
    wi: int,
    hi: int,
    blocked: Seq<Point>,
    avoid: Seq<Wire>,
    to: Point,
    done: Seq<bool>,
    cur: int,
    d0: Seq<u64>,
    o0: Seq<(u64, u32)>,
    d4: Seq<u64>,
    o4: Seq<(u64, u32)>,
)
    requires
        wi > 0,
        hi > 0,
        i32::MIN <= xi,
        i32::MIN <= yi,
        xi + wi <= i32::MAX,
        yi + hi <= i32::MAX,
        d0.len() == wi * hi * 3,
        done.len() == wi * hi * 3,
        0 <= cur < wi * hi * 3,
        done[cur],
        st_pt(xi, yi, wi, cur) != to,
        tables_grew(d0, o0, d4, o4),
        expanded(xi, yi, wi, hi, blocked, avoid, d4, cur),
        forall|t: int| 0 <= t < wi * hi * 3 && #[trigger] d0[t] != u64::MAX && !done[t] ==> o0.contains((d0[t], t as u32)),
        forall|t: int| 0 <= t < wi * hi * 3 && #[trigger] done[t] ==> d0[t] != u64::MAX,
        forall|t: int|
            0 <= t < wi * hi * 3 && #[trigger] done[t] && t != cur ==> st_pt(xi, yi, wi, t) != to && expanded(
                xi,
                yi,
                wi,
                hi,
                blocked,
                avoid,
                d0,
                t,
            ),
    ensures
        forall|t: int| 0 <= t < wi * hi * 3 && #[trigger] d4[t] != u64::MAX && !done[t] ==> o4.contains((d4[t], t as u32)),
        forall|t: int| 0 <= t < wi * hi * 3 && #[trigger] done[t] ==> d4[t] != u64::MAX,
        forall|t: int|
            0 <= t < wi * hi * 3 && #[trigger] done[t] ==> st_pt(xi, yi, wi, t) != to && expanded(xi, yi, wi, hi, blocked, avoid, d4, t),
{
    let n = wi * hi * 3;
    assert forall|t: int| 0 <= t < n && #[trigger] d4[t] != u64::MAX && !done[t] implies o4.contains((d4[t], t as u32)) by {
        if d4[t] == d0[t] {
            assert(o0.contains((d0[t], t as u32)));
        }
    }
    assert forall|t: int| 0 <= t < n && #[trigger] done[t] implies d4[t] != u64::MAX by {
        assert(d4[t] <= d0[t]);
    }
    assert forall|t: int| 0 <= t < n && #[trigger] done[t] implies st_pt(xi, yi, wi, t) != to && expanded(xi, yi, wi, hi, blocked, avoid, d4, t) by {
        if t != cur {
            lemma_expanded_mono(xi, yi, wi, hi, blocked, avoid, d0, d4, t);
        }
    }
}

/// Explores the four neighbours of state `cur` at grid point `(x, y)`.
fn explore_all(
    dist: &mut Vec<u64>,
    prev: &mut Vec<u32>,
    open: &mut Vec<(u64, u32)>,
    cur: usize,
    cost: u64,
    x: i32,
    y: i32,
    x0: i32,
    y0: i32,
    w: usize,
    h: usize,
    bg: &Vec<bool>,
    avoid: &Vec<Wire>,
    Ghost(blocked): Ghost<Seq<Point>>,
    Ghost(start): Ghost<int>,
    Ghost(fin): Ghost<int>,
)
    requires
        0 < w < 0x4000_0000,
        0 < h < 0x4000_0000,
        w * h * 3 < NONE,
        x0 as int + w as int <= i32::MAX,
        y0 as int + h as int <= i32::MAX,
        bg@.len() == w * h,
        forall|c: int|
            0 <= c < w * h ==> (#[trigger] bg@[c] <==> blocked.contains(cell_pt(x0 as int, y0 as int, w as int, c))),
        search_inv(x0 as int, y0 as int, w as int, w * h * 3, start, blocked, avoid@, old(dist)@, old(prev)@, old(open)@, fin),
        0 <= cur < w * h * 3,
        cost == old(dist)@[cur as int],
        cost <= 9 * (fin - 1),
        st_pt(x0 as int, y0 as int, w as int, cur as int) == (Point { x, y }),
    ensures
        search_inv(x0 as int, y0 as int, w as int, w * h * 3, start, blocked, avoid@, final(dist)@, final(prev)@, final(open)@, fin),
        final(dist)@[cur as int] == old(dist)@[cur as int],
        tables_grew(old(dist)@, old(open)@, final(dist)@, final(open)@),
        expanded(x0 as int, y0 as int, w as int, h as int, blocked, avoid@, final(dist)@, cur as int),
{
    let ghost d0 = dist@;
    let ghost o0 = open@;
    explore(dist, prev, open, cur, cost, x, y, 1, 0, x0, y0, w, h, bg, avoid, Ghost(blocked), Ghost(start), Ghost(fin));
    let ghost d1 = dist@;
    let ghost o1 = open@;
    explore(dist, prev, open, cur, cost, x, y, -1, 0, x0, y0, w, h, bg, avoid, Ghost(blocked), Ghost(start), Ghost(fin));
    let ghost d2 = dist@;
    let ghost o2 = open@;
    explore(dist, prev, open, cur, cost, x, y, 0, 1, x0, y0, w, h, bg, avoid, Ghost(blocked), Ghost(start), Ghost(fin));
    let ghost d3 = dist@;
    let ghost o3 = open@;
    explore(dist, prev, open, cur, cost, x, y, 0, -1, x0, y0, w, h, bg, avoid, Ghost(blocked), Ghost(start), Ghost(fin));
    proof {
        lemma_cur_expanded(
            x0 as int,
            y0 as int,
            w as int,
            h as int,
            blocked,
            avoid@,
            cur as int,
            x as int,
            y as int,
            d1,
            o1,
            d2,
            o2,
            d3,
            o3,
            dist@,
            open@,
        );
        lemma_grew_trans(d2, o2, d3, o3, dist@, open@);
        lemma_grew_trans(d1, o1, d2, o2, dist@, open@);
        lemma_grew_trans(d0, o0, d1, o1, dist@, open@);
    }
}

/// Takes the cheapest entry out of the queue (the smallest state on ties).
fn pop_min(open: &mut Vec<(u64, u32)>) -> (r: (u64, u32, Ghost<int>))
    requires
        old(open)@.len() > 0,
    ensures
        0 <= r.2@ < old(open)@.len(),
        old(open)@[r.2@] == (r.0, r.1),
        forall|e: int| 0 <= e < old(open)@.len() ==> r.0 <= (#[trigger] old(open)@[e]).0,
        final(open)@ == old(open)@.update(r.2@, old(open)@.last()).drop_last(),
{
    let mut bi: usize = 0;
    let mut k: usize = 1;
    while k < open.len()
        invariant
            bi < open@.len(),
            1 <= k <= open@.len(),
            open@ == old(open)@,
            forall|e: int| 0 <= e < k ==> open@[bi as int].0 <= (#[trigger] open@[e]).0,
        decreases open@.len() - k,
    {
        if open[k].0 < open[bi].0 || (open[k].0 == open[bi].0 && open[k].1 < open[bi].1) {
            bi = k;
        }
        k = k + 1;
    }
    let (c, x) = open.swap_remove(bi);
    (c, x, Ghost(bi as int))
}

/// Taking entry `bi` out of the queue leaves every reached, unfinished state
/// queued with its cost, but for the state of the entry taken at that cost.
proof fn lemma_pop_keeps_queued(
    o0: Seq<(u64, u32)>,
    o1: Seq<(u64, u32)>,
    bi: int,
    cost: u64,
    cur: int,
    dist: Seq<u64>,
    done: Seq<bool>,
    n: int,
    fin: int,
)
    requires
        0 <= bi < o0.len(),
        o0[bi] == (cost, cur as u32),
        0 <= cur < n,
        n < NONE,
        o1 == o0.update(bi, o0.last()).drop_last(),
        forall|s: int| 0 <= s < n && #[trigger] dist[s] != u64::MAX && !done[s] ==> o0.contains((dist[s], s as u32)),
        forall|e: int|
            0 <= e < o0.len() ==> {
                &&& (#[trigger] o0[e]).1 < n
                &&& dist[o0[e].1 as int] <= o0[e].0
                &&& o0[e].0 <= 9 * fin
            },
    ensures
        forall|e: int|
            0 <= e < o1.len() ==> {
                &&& (#[trigger] o1[e]).1 < n
                &&& dist[o1[e].1 as int] <= o1[e].0
                &&& o1[e].0 <= 9 * fin
            },
        forall|s: int|
            0 <= s < n && #[trigger] dist[s] != u64::MAX && !done[s] && !(s == cur && dist[s] == cost) ==> o1.contains(
                (dist[s], s as u32),
            ),
{
    assert forall|e: int| 0 <= e < o1.len() implies {
        &&& (#[trigger] o1[e]).1 < n
        &&& dist[o1[e].1 as int] <= o1[e].0
        &&& o1[e].0 <= 9 * fin
    } by {
        if e == bi {
            assert(o1[e] == o0[o0.len() - 1]);
        } else {
            assert(o1[e] == o0[e]);
        }
    }
    assert forall|s: int|
        0 <= s < n && #[trigger] dist[s] != u64::MAX && !done[s] && !(s == cur && dist[s] == cost) implies o1.contains(
        (dist[s], s as u32),
    ) by {
        assert(o0.contains((dist[s], s as u32)));
        let e = choose|e: int| 0 <= e < o0.len() && o0[e] == (dist[s], s as u32);
        if e == bi {
            assert(s == cur);
        } else if e == o0.len() - 1 {
            assert(o1[bi] == o0[e]);
        } else {
            assert(o1[e] == o0[e]);
        }
    }
}

/// Grid search with turn costs from the start state to any state at `to`.
/// Returns the costs, the predecessor links and the goal state reached.
#[verifier::rlimit(100)]
fn search(
    to: Point,
    start: usize,
    x0: i32,
    y0: i32,
    w: usize,
    h: usize,
    bg: &Vec<bool>,
    avoid: &Vec<Wire>,
    Ghost(blocked): Ghost<Seq<Point>>,
) -> (r: (Vec<u64>, Vec<u32>, Option<usize>))
    requires
        0 < w < 0x4000_0000,
        0 < h < 0x4000_0000,
        w * h * 3 < NONE,
        x0 as int + w as int <= i32::MAX,
        y0 as int + h as int <= i32::MAX,
        bg@.len() == w * h,
        forall|c: int|
            0 <= c < w * h ==> (#[trigger] bg@[c] <==> blocked.contains(cell_pt(x0 as int, y0 as int, w as int, c))),
        start < w * h * 3,
    ensures
        chain_inv(x0 as int, y0 as int, w as int, w * h * 3, start as int, blocked, avoid@, r.0@, r.1@),
        r.2 is Some ==> ({
            let g = r.2->0;
            &&& g < w * h * 3
            &&& r.0@[g as int] != u64::MAX
            &&& st_pt(x0 as int, y0 as int, w as int, g as int) == to
        }),
        r.2 is None ==> forall|raw: Seq<Point>|
            !#[trigger] grid_route(
                x0 as int,
                y0 as int,
                w as int,
                h as int,
                raw,
                st_pt(x0 as int, y0 as int, w as int, start as int),
                to,
                blocked,
                avoid@,
            ),
{
    let n = w * h * 3;
    let mut dist: Vec<u64> = Vec::new();
    let mut prev: Vec<u32> = Vec::new();
    let mut done: Vec<bool> = Vec::new();
    let mut i: usize = 0;
    while i < n
        invariant
            i <= n,
            n == w * h * 3,
            dist@.len() == i,
            prev@.len() == i,
            done@.len() == i,
            forall|j: int| 0 <= j < i ==> #[trigger] dist@[j] == u64::MAX,
            forall|j: int| 0 <= j < i ==> #[trigger] prev@[j] == NONE,
            forall|j: int| 0 <= j < i ==> !#[trigger] done@[j],
        decreases n - i,
    {
        dist.push(u64::MAX);
        prev.push(NONE);
        done.push(false);
        i = i + 1;
    }
    dist.set(start, 0);
    let mut open: Vec<(u64, u32)> = Vec::new();
    open.push((0, start as u32));
    proof {
        assert(open@[0] == (0u64, start as u32));
        assert forall|s: int| 0 <= s < n && #[trigger] dist@[s] != u64::MAX && !done@[s] implies open@.contains((dist@[s], s as u32)) by {
            assert(s == start);
        }
    }
    let mut goal: Option<usize> = None;
    let mut fin: usize = 0;
    let ghost mut dset: Set<int> = Set::empty();
    proof {
        vstd::set_lib::lemma_int_range(0, n as int);
    }
    while open.len() > 0 && goal.is_none()
        invariant
            0 < w < 0x4000_0000,
            0 < h < 0x4000_0000,
            n == w * h * 3,
            n < NONE,
            x0 as int + w as int <= i32::MAX,
            y0 as int + h as int <= i32::MAX,
            bg@.len() == w * h,
            forall|c: int|
                0 <= c < w * h ==> (#[trigger] bg@[c] <==> blocked.contains(cell_pt(x0 as int, y0 as int, w as int, c))),
            start < n,
            search_inv(x0 as int, y0 as int, w as int, n as int, start as int, blocked, avoid@, dist@, prev@, open@, fin as int),
            done@.len() == n,
            dset.finite(),
            dset.len() == fin,
            forall|s: int| 0 <= s < n ==> (#[trigger] done@[s] <==> dset.contains(s)),
            forall|s: int| dset.contains(s) ==> 0 <= s < n,
            vstd::set_lib::set_int_range(0, n as int).finite(),
            vstd::set_lib::set_int_range(0, n as int).len() == n,
            fin <= n,
            goal is Some ==> ({
                let g = goal->0;
                &&& g < n
                &&& dist@[g as int] != u64::MAX
                &&& st_pt(x0 as int, y0 as int, w as int, g as int) == to
            }),
            forall|s: int| 0 <= s < n && #[trigger] dist@[s] != u64::MAX && !done@[s] ==> open@.contains((dist@[s], s as u32)),
            forall|s: int| 0 <= s < n && #[trigger] done@[s] ==> dist@[s] != u64::MAX,
            goal is None ==> forall|s: int|
                0 <= s < n && #[trigger] done@[s] ==> st_pt(x0 as int, y0 as int, w as int, s) != to && expanded(
                    x0 as int,
                    y0 as int,
                    w as int,
                    h as int,
                    blocked,
                    avoid@,
                    dist@,
                    s,
                ),
        decreases n - fin, open@.len(),
    {
        let ghost old_open = open@;
        let (cost, cur32, Ghost(bi)) = pop_min(&mut open);
        let cur = cur32 as usize;
        proof {
            lemma_pop_keeps_queued(old_open, open@, bi, cost, cur as int, dist@, done@, n as int, fin as int);
        }
        if cost <= dist[cur] && !done[cur] {
            proof {
                let nset = dset.insert(cur as int);
                vstd::set_lib::lemma_len_subset(nset, vstd::set_lib::set_int_range(0, n as int));
            }
            done.set(cur, true);
            fin = fin + 1;
            proof {
                dset = dset.insert(cur as int);
            }
            let x_pt = state_point(cur, x0, y0, w, h);
            if x_pt.x == to.x && x_pt.y == to.y {
                goal = Some(cur);
            } else {
                let x = x_pt.x;
                let y = x_pt.y;
                let ghost d0 = dist@;
                let ghost o0 = open@;
                explore_all(&mut dist, &mut prev, &mut open, cur, cost, x, y, x0, y0, w, h, bg, avoid, Ghost(blocked), Ghost(start as int), Ghost(fin as int));
                proof {
                    lemma_after_expand(x0 as int, y0 as int, w as int, h as int, blocked, avoid@, to, done@, cur as int, d0, o0, dist@, open@);
                }
            }
        }
    }
    proof {
        if goal is None {
            let xi = x0 as int;
            let yi = y0 as int;
            let wi = w as int;
            let hi = h as int;
            let from = st_pt(xi, yi, wi, start as int);
            assert forall|t: int| 0 <= t < n && #[trigger] dist@[t] != u64::MAX implies done@[t] by {
                if !done@[t] {
                    assert(open@.contains((dist@[t], t as u32)));
                }
            }
            let c0 = start as int / 3;
            vstd::arithmetic::div_mod::lemma_fundamental_div_mod(start as int, 3);
            lemma_cell_bounds(xi, yi, wi, hi, c0);
            vstd::arithmetic::div_mod::lemma_fundamental_div_mod(c0, wi);
            vstd::arithmetic::mul::lemma_mul_is_commutative(wi, c0 / wi);
            assert(cell_of(xi, yi, wi, from) == c0);
            assert(dist@[start as int] != u64::MAX);
            assert(cell_reached(dist@, c0));
            assert forall|raw: Seq<Point>|
                !#[trigger] grid_route(xi, yi, wi, hi, raw, from, to, blocked, avoid@) by {
                if grid_route(xi, yi, wi, hi, raw, from, to, blocked, avoid@) {
                    lemma_route_reached(xi, yi, wi, hi, blocked, avoid@, dist@, done@, raw, from, to, raw.len() - 1);
                    assert(in_grid(xi, yi, wi, hi, raw[raw.len() - 1].x as int, raw[raw.len() - 1].y as int));
                    let c = cell_of(xi, yi, wi, to);
                    lemma_state_at(xi, yi, wi, hi, to, 0);
                    lemma_state_at(xi, yi, wi, hi, to, 1);
                    lemma_state_at(xi, yi, wi, hi, to, 2);
                    let t = if dist@[3 * c] != u64::MAX { 3 * c } else if dist@[3 * c + 1] != u64::MAX { 3 * c + 1 } else { 3 * c + 2 };
                    assert(t == c * 3 || t == c * 3 + 1 || t == c * 3 + 2);
                    assert(done@[t]);
                    assert(st_pt(xi, yi, wi, t) == to);
                }
            }
        }
    }
    (dist, prev, goal)
}

/// The point of a search state lies in the box.
proof fn lemma_st_in_grid(x0: int, y0: int, w: int, h: int, s: int)
    requires
        0 < w,
        0 < h,
        0 <= s < w * h * 3,
        i32::MIN <= x0,
        i32::MIN <= y0,
        x0 + w <= i32::MAX,
        y0 + h <= i32::MAX,
    ensures
        in_grid(x0, y0, w, h, st_pt(x0, y0, w, s).x as int, st_pt(x0, y0, w, s).y as int),
{
    vstd::arithmetic::div_mod::lemma_fundamental_div_mod(s, 3);
    lemma_cell_bounds(x0, y0, w, h, s / 3);
}

/// Follows the predecessor links back from the goal and returns the grid path
/// from the start to the goal.
fn trace_back(
    dist: &Vec<u64>,
    prev: &Vec<u32>,
    goal: usize,
    start: usize,
    x0: i32,
    y0: i32,
    w: usize,
    h: usize,
    Ghost(blocked): Ghost<Seq<Point>>,
    Ghost(avoid): Ghost<Seq<Wire>>,
) -> (raw: Vec<Point>)
    requires
        0 < w < 0x4000_0000,
        0 < h < 0x4000_0000,
        w * h * 3 < NONE,
        x0 as int + w as int <= i32::MAX,
        y0 as int + h as int <= i32::MAX,
        chain_inv(x0 as int, y0 as int, w as int, w * h * 3, start as int, blocked, avoid, dist@, prev@),
        goal < w * h * 3,
        dist@[goal as int] != u64::MAX,
    ensures
        raw@.len() >= 1,
        raw@[0] == st_pt(x0 as int, y0 as int, w as int, start as int),
        raw@.last() == st_pt(x0 as int, y0 as int, w as int, goal as int),
        forall|k: int| 0 <= k < raw@.len() - 1 ==> #[trigger] route_step(blocked, avoid, raw@[k], raw@[k + 1]),
        forall|k: int| 0 <= k < raw@.len() ==> in_grid(x0 as int, y0 as int, w as int, h as int, (#[trigger] raw@[k]).x as int, raw@[k].y as int),
{
    let mut rev: Vec<Point> = Vec::new();
    let mut cur = goal;
    proof {
        lemma_st_in_grid(x0 as int, y0 as int, w as int, h as int, cur as int);
    }
    rev.push(state_point(cur, x0, y0, w, h));
    while prev[cur] != NONE
        invariant
            0 < w < 0x4000_0000,
            0 < h < 0x4000_0000,
            w * h * 3 < NONE,
            x0 as int + w as int <= i32::MAX,
            y0 as int + h as int <= i32::MAX,
            chain_inv(x0 as int, y0 as int, w as int, w * h * 3, start as int, blocked, avoid, dist@, prev@),
            cur < w * h * 3,
            dist@[cur as int] != u64::MAX,
            rev@.len() >= 1,
            rev@[0] == st_pt(x0 as int, y0 as int, w as int, goal as int),
            rev@.last() == st_pt(x0 as int, y0 as int, w as int, cur as int),
            forall|k: int| 0 <= k < rev@.len() - 1 ==> #[trigger] route_step(blocked, avoid, rev@[k + 1], rev@[k]),
            forall|k: int| 0 <= k < rev@.len() ==> in_grid(x0 as int, y0 as int, w as int, h as int, (#[trigger] rev@[k]).x as int, rev@[k].y as int),
        decreases dist@[cur as int],
    {
        let p = prev[cur] as usize;
        proof {
            assert(prev@[cur as int] != NONE);
        }
        let ghost old_rev = rev@;
        let ghost c0 = cur;
        cur = p;
        proof {
            lemma_st_in_grid(x0 as int, y0 as int, w as int, h as int, cur as int);
        }
        rev.push(state_point(cur, x0, y0, w, h));
        proof {
            assert forall|k: int| 0 <= k < rev@.len() implies in_grid(x0 as int, y0 as int, w as int, h as int, (#[trigger] rev@[k]).x as int, rev@[k].y as int) by {
                if k < old_rev.len() {
                    assert(rev@[k] == old_rev[k]);
                }
            }
            assert forall|k: int| 0 <= k < rev@.len() - 1 implies #[trigger] route_step(blocked, avoid, rev@[k + 1], rev@[k]) by {
                if k == old_rev.len() - 1 {
                    assert(rev@[k] == st_pt(x0 as int, y0 as int, w as int, c0 as int));
                    assert(link_ok(x0 as int, y0 as int, w as int, blocked, avoid, p as int, c0 as int));
                } else {
                    assert(rev@[k] == old_rev[k] && rev@[k + 1] == old_rev[k + 1]);
                }
            }
        }
    }
    assert(cur == start);
    let mut raw: Vec<Point> = Vec::new();
    let mut i = rev.len();
    while i > 0
        invariant
            i <= rev@.len(),
            raw@.len() == rev@.len() - i,
            forall|j: int| 0 <= j < raw@.len() ==> raw@[j] == rev@[rev@.len() - 1 - j],
            rev@.len() >= 1,
            rev@[0] == st_pt(x0 as int, y0 as int, w as int, goal as int),
            rev@.last() == st_pt(x0 as int, y0 as int, w as int, start as int),
            forall|k: int| 0 <= k < rev@.len() - 1 ==> #[trigger] route_step(blocked, avoid, rev@[k + 1], rev@[k]),
            forall|k: int| 0 <= k < rev@.len() ==> in_grid(x0 as int, y0 as int, w as int, h as int, (#[trigger] rev@[k]).x as int, rev@[k].y as int),
        decreases i,
    {
        i = i - 1;
        raw.push(rev[i]);
    }
    proof {
        assert forall|k: int| 0 <= k < raw@.len() implies in_grid(x0 as int, y0 as int, w as int, h as int, (#[trigger] raw@[k]).x as int, raw@[k].y as int) by {
            assert(raw@[k] == rev@[rev@.len() - 1 - k]);
        }
        let L = rev@.len();
        assert forall|k: int| 0 <= k < raw@.len() - 1 implies #[trigger] route_step(blocked, avoid, raw@[k], raw@[k + 1]) by {
            let j = L - 2 - k;
            assert(raw@[k] == rev@[L - 1 - k]);
            assert(raw@[k + 1] == rev@[L - 1 - (k + 1)]);
            assert(raw@[k] == rev@[j + 1] && raw@[k + 1] == rev@[j]);
            assert(route_step(blocked, avoid, rev@[j + 1], rev@[j]));
        }
    }
    raw
}

/// All segments of the polyline are horizontal or vertical.
pub open spec fn aligned(pts: Seq<Point>) -> bool {
    forall|k: int| 0 <= k < pts.len() - 1 ==> #[trigger] pts[k].x == pts[k + 1].x || pts[k].y == pts[k + 1].y
}

/// Simplifying keeps a polyline axis-aligned.
pub proof fn lemma_simplified_aligned(pts: Seq<Point>)
    requires
        aligned(pts),
    ensures
        aligned(simplified(pts)),
    decreases pts.len(),
{
    if pts.len() > 0 {
        let init = pts.drop_last();
        assert(aligned(init)) by {
            assert forall|k: int| 0 <= k < init.len() - 1 implies #[trigger] init[k].x == init[k + 1].x || init[k].y
                == init[k + 1].y by {
                assert(init[k] == pts[k] && init[k + 1] == pts[k + 1]);
            }
        }
        lemma_simplified_aligned(init);
        let s = simplified(init);
        let p = pts.last();
        let r = simplified(pts);
        if s.len() > 0 && s.last() == p {
        } else if s.len() >= 2 && collinear(s[s.len() - 2], s[s.len() - 1], p) {
            assert forall|k: int| 0 <= k < r.len() - 1 implies #[trigger] r[k].x == r[k + 1].x || r[k].y == r[k
                + 1].y by {
                if k < s.len() - 2 {
                    assert(r[k] == s[k] && r[k + 1] == s[k + 1]);
                }
            }
        } else if s.len() > 0 {
            lemma_simplified_last(init);
            assert forall|k: int| 0 <= k < r.len() - 1 implies #[trigger] r[k].x == r[k + 1].x || r[k].y == r[k
                + 1].y by {
                if k < s.len() - 1 {
                    assert(r[k] == s[k] && r[k + 1] == s[k + 1]);
                } else {
                    assert(r[k] == init.last() && r[k + 1] == p);
                    assert(pts[pts.len() - 2] == init.last());
                }
            }
        }
    }
}

/// What a found route looks like: at least two points from `from` to `to`,
/// horizontal and vertical segments only, and no blocked point on it except
/// its start.
pub open spec fn route_shape(pts: Seq<Point>, from: Point, to: Point, blocked: Seq<Point>) -> bool {
    &&& pts.len() >= 2
    &&& pts[0] == from
    &&& pts.last() == to
    &&& aligned(pts)
    &&& forall|q: Point| #[trigger] on_ortho(pts, q) ==> q == from || !blocked.contains(q)
}

/// A route found on the grid, once simplified, has the shape of a wire that
/// touches no blocked point.
pub proof fn lemma_route_shape(raw: Seq<Point>, from: Point, to: Point, blocked: Seq<Point>, avoid: Seq<Wire>)
    requires
        route_ok(raw, from, to, blocked, avoid),
        from != to,
    ensures
        route_shape(simplified(raw), from, to, blocked),
{
    lemma_simplified_first(raw);
    lemma_simplified_last(raw);
    assert(aligned(raw)) by {
        assert forall|k: int| 0 <= k < raw.len() - 1 implies #[trigger] raw[k].x == raw[k + 1].x || raw[k].y
            == raw[k + 1].y by {
            assert(route_step(blocked, avoid, raw[k], raw[k + 1]));
        }
    }
    lemma_simplified_aligned(raw);
    let s = simplified(raw);
    if s.len() < 2 {
        assert(s[0] == s.last());
    }
    assert forall|q: Point| #[trigger] on_ortho(s, q) implies q == from || !blocked.contains(q) by {
        lemma_simplified_covers(raw, q);
        let k = choose|k: int| 0 <= k < raw.len() - 1 && #[trigger] ortho_hit(q, raw[k], raw[k + 1]);
        assert(route_step(blocked, avoid, raw[k], raw[k + 1]));
        if q == raw[k + 1] {
        } else {
            assert(q == raw[k]);
            if k > 0 {
                assert(route_step(blocked, avoid, raw[k - 1], raw[(k - 1) + 1]));
            }
        }
    }
}

/// Each side of a search box whose cells fit is below `0x4000_0000`.
proof fn lemma_box_sides(wi: int, hi: int)
    requires
        wi * hi * 3 < 0xFFFF_FFFF,
        wi >= 33,
        hi >= 33,
    ensures
        wi < 0x4000_0000,
        hi < 0x4000_0000,
{
    assert(wi < 0x4000_0000 && hi < 0x4000_0000) by (nonlinear_arith)
        requires
            wi * hi * 3 < 0xFFFF_FFFF,
            wi >= 33,
            hi >= 33,
    ;
}

/// The point lies in the search area of a route from `from` to `to`: their
/// bounding box widened by `ROUTE_PAD` on every side.
pub open spec fn in_route_box(from: Point, to: Point, p: Point) -> bool {
    let lx = if from.x <= to.x { from.x as int } else { to.x as int };
    let hx = if from.x <= to.x { to.x as int } else { from.x as int };
    let ly = if from.y <= to.y { from.y as int } else { to.y as int };
    let hy = if from.y <= to.y { to.y as int } else { from.y as int };
    &&& lx - ROUTE_PAD <= p.x <= hx + ROUTE_PAD
    &&& ly - ROUTE_PAD <= p.y <= hy + ROUTE_PAD
}

/// A route from `from` to `to` (see `route_ok`) that stays inside the search area.
pub open spec fn boxed_route(raw: Seq<Point>, from: Point, to: Point, blocked: Seq<Point>, avoid: Seq<Wire>) -> bool {
    &&& route_ok(raw, from, to, blocked, avoid)
    &&& forall|k: int| 0 <= k < raw.len() ==> in_route_box(from, to, #[trigger] raw[k])
}

/// Orthogonal route between two points: a grid search with a cost for each
/// turn, inside the bounding box of the two points widened by `ROUTE_PAD`. It
/// never enters a point of `blocked` (other pins, corners and ends of existing
/// wires) and never runs along an existing wire; plain crossings are allowed.
/// `None` means that the two points coincide or that no such route exists
/// inside that area.
pub fn route_orthogonal(from: Point, to: Point, blocked: &Vec<Point>, avoid: &Vec<Wire>) -> (r: Option<Vec<Point>>)
    requires
        route_fits(from, to),
    ensures
        from == to ==> r is None,
        r is None ==> from == to || forall|raw: Seq<Point>| !#[trigger] boxed_route(raw, from, to, blocked@, avoid@),
        r is Some ==> exists|raw: Seq<Point>| #[trigger] boxed_route(raw, from, to, blocked@, avoid@) && r->0@ == simplified(raw),
        r is Some ==> exists|raw: Seq<Point>| #[trigger] route_ok(raw, from, to, blocked@, avoid@) && r->0@ == simplified(raw),
        r is Some ==> route_shape(r->0@, from, to, blocked@),
{
    if from == to {
        return None;
    }
    let x0 = (if from.x < to.x { from.x } else { to.x }) - ROUTE_PAD;
    let x1 = (if from.x < to.x { to.x } else { from.x }) + ROUTE_PAD;
    let y0 = (if from.y < to.y { from.y } else { to.y }) - ROUTE_PAD;
    let y1 = (if from.y < to.y { to.y } else { from.y }) + ROUTE_PAD;
    proof {
        lemma_box_sides(x1 - x0 + 1, y1 - y0 + 1);
    }
    let w = (x1 as i64 - x0 as i64 + 1) as usize;
    let h = (y1 as i64 - y0 as i64 + 1) as usize;
    assert(w * h * 3 < NONE);
    assert(0 < w < 0x4000_0000);
    assert(0 < h < 0x4000_0000);
    let bg = blocked_grid(blocked, x0, y0, w, h);
    proof {
        lemma_cell(x0 as int, y0 as int, w as int, h as int, from.x as int, from.y as int);
        assert(w * h * 3 == (w * h) * 3);
    }
    let start = ((from.y - y0) as usize * w + (from.x - x0) as usize) * 3;
    proof {
        vstd::arithmetic::div_mod::lemma_fundamental_div_mod_converse(start as int, 3, start as int / 3, 0);
        assert(st_pt(x0 as int, y0 as int, w as int, start as int) == from);
    }
    let (dist, prev, goal) = search(to, start, x0, y0, w, h, &bg, avoid, Ghost(blocked@));
    match goal {
        None => {
            proof {
                assert forall|raw: Seq<Point>| !#[trigger] boxed_route(raw, from, to, blocked@, avoid@) by {
                    if boxed_route(raw, from, to, blocked@, avoid@) {
                        assert forall|k: int| 0 <= k < raw.len() implies in_grid(
                            x0 as int,
                            y0 as int,
                            w as int,
                            h as int,
                            (#[trigger] raw[k]).x as int,
                            raw[k].y as int,
                        ) by {
                            assert(in_route_box(from, to, raw[k]));
                        }
                        assert(grid_route(x0 as int, y0 as int, w as int, h as int, raw, from, to, blocked@, avoid@));
                    }
                }
            }
            None
        },
        Some(g) => {
            let raw = trace_back(&dist, &prev, g, start, x0, y0, w, h, Ghost(blocked@), Ghost(avoid@));
            proof {
                assert(route_ok(raw@, from, to, blocked@, avoid@));
                assert forall|k: int| 0 <= k < raw@.len() implies in_route_box(from, to, #[trigger] raw@[k]) by {
                    assert(in_grid(x0 as int, y0 as int, w as int, h as int, raw@[k].x as int, raw@[k].y as int));
                }
                assert(boxed_route(raw@, from, to, blocked@, avoid@));
                lemma_route_shape(raw@, from, to, blocked@, avoid@);
            }
            let pts = simplify_path(raw);
            Some(pts)
        },
    }
}

/// All corner and end points of the wires, wire by wire.
pub open spec fn wire_points(ws: Seq<Wire>) -> Seq<Point>
    decreases ws.len(),
{
    if ws.len() == 0 {
        Seq::empty()
    } else {
        wire_points(ws.drop_last()) + ws.last().points@
    }
}

/// Points a new route between `a` and `c` must keep clear of: every pin and
/// every wire point of the board except the two end points.
pub open spec fn route_blockers(b: Board, a: Point, c: Point) -> Seq<Point> {
    (flat_points(b.instances@) + wire_points(b.wires@)).filter(other_than(a, c))
}

/// Points other than `a` and `c`.
pub open spec fn other_than(a: Point, c: Point) -> spec_fn(Point) -> bool {
    |p: Point| p != a && p != c
}

/// The points of `v` other than `a` and `c`.
fn without(v: &Vec<Point>, a: Point, c: Point) -> (r: Vec<Point>)
    ensures
        r@ == v@.filter(other_than(a, c)),
{
    let ghost keep = other_than(a, c);
    let mut out: Vec<Point> = Vec::new();
    let mut i: usize = 0;
    while i < v.len()
        invariant
            i <= v@.len(),
            out@ == v@.subrange(0, i as int).filter(keep),
            keep == other_than(a, c),
        decreases v@.len() - i,
    {
        proof {
            reveal(Seq::filter);
            let t = v@.subrange(0, i as int + 1);
            assert(t.drop_last() =~= v@.subrange(0, i as int));
        }
        let p = v[i];
        if p != a && p != c {
            out.push(p);
        }
        i = i + 1;
    }
    assert(v@.subrange(0, i as int) =~= v@);
    out
}

/// Drawing `b1` is `b0` after connecting pin `from` to pin `to` with outcome
/// `r`: when both pins exist and a route between them exists inside the
/// search area (clear of the other pins and wire points, along no wire) the
/// connection succeeds and a routed wire is added; when it fails on existing
/// pins, the plain fallback wire (along the row of `from`, then down the
/// column of `to`) is added unless it has fewer than two points; when a pin
/// is missing nothing changes.
pub open spec fn pins_connected(b0: Board, b1: Board, from: (u32, usize), to: (u32, usize), r: bool) -> bool {
    let pins = is_pin(b0.instances@, from.0 as int, from.1 as int) && is_pin(b0.instances@, to.0 as int, to.1 as int);
    &&& b1.instances@ == b0.instances@
    &&& b1.annotations@ == b0.annotations@
    &&& b1.labels@ == b0.labels@
    &&& b1.name@ == b0.name@
    &&& b1.name_en@ == b0.name_en@
    &&& !pins ==> !r && b1.wires@ == b0.wires@
    &&& pins ==> {
        let a = b0.instances@[from.0 as int].pin_point(from.1 as int);
        let c = b0.instances@[to.0 as int].pin_point(to.1 as int);
        let blk = route_blockers(b0, a, c);
        let fb = simplified(seq![a, Point { x: c.x, y: a.y }, c]);
        &&& (route_fits(a, c) && a != c && exists|raw: Seq<Point>| #[trigger] boxed_route(raw, a, c, blk, b0.wires@)) ==> r
        &&& r ==> {
            let pts = b1.wires@.last().points@;
            &&& b1.wires@.len() == b0.wires@.len() + 1
            &&& b1.wires@.drop_last() == b0.wires@
            &&& route_shape(pts, a, c, blk)
            &&& exists|raw: Seq<Point>| #[trigger] route_ok(raw, a, c, blk, b0.wires@) && pts == simplified(raw)
        }
        &&& !r && fb.len() >= 2 ==> b1.wires@.len() == b0.wires@.len() + 1 && b1.wires@.drop_last() == b0.wires@
            && b1.wires@.last().points@ == fb
        &&& !r && fb.len() < 2 ==> b1.wires@ == b0.wires@
    }
}

impl Board {
    /// Every corner and end point of every wire.
    fn all_wire_points(&self) -> (r: Vec<Point>)
        ensures
            r@ == wire_points(self.wires@),
    {
        let mut v: Vec<Point> = Vec::new();
        let mut i: usize = 0;
        while i < self.wires.len()
            invariant
                i <= self.wires@.len(),
                v@ == wire_points(self.wires@.subrange(0, i as int)),
            decreases self.wires@.len() - i,
        {
            proof {
                let t = self.wires@.subrange(0, i as int + 1);
                assert(t.drop_last() =~= self.wires@.subrange(0, i as int));
            }
            let ghost before = v@;
            let mut more = copy_points(&self.wires[i].points);
            v.append(&mut more);
            assert(v@ =~= before + self.wires@[i as int].points@);
            i = i + 1;
        }
        assert(self.wires@.subrange(0, i as int) =~= self.wires@);
        v
    }

    #[verifier::rlimit(40)]
    /// Wires one pin to another, routed clear of the other pins and of the
    /// existing wires. `false` means no such route was found; a plain fallback
    /// wire (first along the row of `from`, then down the column of `to`) is
    /// then still added so that the editor can show it. Nothing is added when
    /// either pin does not exist.
    pub fn connect_pins(&mut self, from: (u32, usize), to: (u32, usize)) -> (r: bool)
        requires
            old(self).wf(),
            old(self).wires@.len() < MAX_WIRES,
        ensures
            final(self).wf(),
            final(self).instances@ == old(self).instances@,
            final(self).annotations@ == old(self).annotations@,
            final(self).labels@ == old(self).labels@,
            final(self).name@ == old(self).name@,
            final(self).name_en@ == old(self).name_en@,
            !is_pin(old(self).instances@, from.0 as int, from.1 as int) || !is_pin(
                old(self).instances@,
                to.0 as int,
                to.1 as int,
            ) ==> !r && final(self).wires@ == old(self).wires@,
            r ==> ({
                let a = old(self).instances@[from.0 as int].pin_point(from.1 as int);
                let c = old(self).instances@[to.0 as int].pin_point(to.1 as int);
                let pts = final(self).wires@.last().points@;
                &&& final(self).wires@.len() == old(self).wires@.len() + 1
                &&& final(self).wires@.drop_last() == old(self).wires@
                &&& route_shape(pts, a, c, route_blockers(*old(self), a, c))
                &&& exists|raw: Seq<Point>|
                    #[trigger] route_ok(raw, a, c, route_blockers(*old(self), a, c), old(self).wires@)
                        && pts == simplified(raw)
            }),
            !r ==> final(self).wires@.len() <= old(self).wires@.len() + 1 && final(self).wires@.subrange(
                0,
                old(self).wires@.len() as int,
            ) == old(self).wires@,
            pins_connected(*old(self), *final(self), from, to, r),
    {
        if (from.0 as usize) >= self.instances.len() || (to.0 as usize) >= self.instances.len() {
            return false;
        }
        let ia = &self.instances[from.0 as usize];
        let ic = &self.instances[to.0 as usize];
        assert(ia.wf() && ic.wf());
        let a = match ia.pin_world(from.1) {
            Some(p) => p,
            None => return false,
        };
        let c = match ic.pin_world(to.1) {
            Some(p) => p,
            None => return false,
        };
        proof {
            assert(pin_offset_ok(ia.pins@[from.1 as int]));
            assert(pin_offset_ok(ic.pins@[to.1 as int]));
        }
        let mut all = self.all_pin_points();
        let mut wp = self.all_wire_points();
        all.append(&mut wp);
        let blocked = without(&all, a, c);
        let dx: i64 = if a.x <= c.x { c.x as i64 - a.x as i64 } else { a.x as i64 - c.x as i64 };
        let dy: i64 = if a.y <= c.y { c.y as i64 - a.y as i64 } else { a.y as i64 - c.y as i64 };
        proof {
            assert(point_in_reach(a) && point_in_reach(c));
        }
        let fits = if dx + 33 < 0x2000_0000 && dy + 33 < 0x2000_0000 {
            assert(0 <= (dx + 33) * (dy + 33) <= 0x2000_0000 * 0x2000_0000) by (nonlinear_arith)
                requires
                    0 <= dx + 33 < 0x2000_0000,
                    0 <= dy + 33 < 0x2000_0000,
            ;
            (dx + 33) * (dy + 33) * 3 < 0xFFFF_FFFF
        } else {
            assert((dx + 33) * (dy + 33) * 3 >= 0xFFFF_FFFF) by (nonlinear_arith)
                requires
                    dx + 33 >= 0x2000_0000 || dy + 33 >= 0x2000_0000,
                    dx >= 0,
                    dy >= 0,
            ;
            false
        };
        proof {
            assert(blocked@ == route_blockers(*old(self), a, c));
            assert(fits == route_fits(a, c));
        }
        let routed = if fits {
            route_orthogonal(a, c, &blocked, &self.wires)
        } else {
            None
        };
        match routed {
            Some(pts) => {
                proof {
                    assert(blocked@ == route_blockers(*old(self), a, c));
                }
                self.wires.push(Wire::new(pts));
                proof {
                    assert(self.wires@.drop_last() =~= old(self).wires@);
                }
                true
            },
            None => {
                let mut raw: Vec<Point> = Vec::new();
                raw.push(a);
                raw.push(Point::new(c.x, a.y));
                raw.push(c);
                assert(raw@ =~= seq![a, Point { x: c.x, y: a.y }, c]);
                let fallback = simplify_path(raw);
                if fallback.len() >= 2 {
                    self.wires.push(Wire::new(fallback));
                    assert(self.wires@.drop_last() =~= old(self).wires@);
                }
                assert(self.wires@.subrange(0, old(self).wires@.len() as int) =~= old(self).wires@);
                false
            },
        }
    }

    /// Repairs a board after loading: pin layouts are rebuilt and missing
    /// instance names become `inst_<index>`.
    pub fn fixup(&mut self)
        requires
            forall|i: int|
                0 <= i < old(self).instances@.len() ==> coord_ok((#[trigger] old(self).instances@[i]).x as int)
                    && coord_ok(old(self).instances@[i].y as int),
            old(self).instances@.len() <= MAX_INSTANCES,
            old(self).wires@.len() <= MAX_WIRES,
            old(self).annotations@.len() <= MAX_WIRES,
            old(self).labels@.len() <= MAX_WIRES,
        ensures
            final(self).wf(),
            final(self).instances@.len() == old(self).instances@.len(),
            forall|i: int|
                0 <= i < old(self).instances@.len() ==> {
                    let a = old(self).instances@[i];
                    let b = #[trigger] final(self).instances@[i];
                    &&& b.def == a.def && b.params == a.params && b.x == a.x && b.y == a.y
                    &&& b.rot == a.rot && b.mem_init@ == a.mem_init@ && b.sub == a.sub
                    &&& b.display_name@ == (if a.display_name@.len() == 0 {
                        auto_name_spec(i as u32)
                    } else {
                        a.display_name@
                    })
                    &&& pins_rebuilt(a, b)
                },
            final(self).wires@ == old(self).wires@,
            final(self).annotations@ == old(self).annotations@,
            final(self).labels@ == old(self).labels@,
            final(self).name@ == old(self).name@,
            final(self).name_en@ == old(self).name_en@,
    {
        let mut i: usize = 0;
        while i < self.instances.len()
            invariant
                i <= self.instances@.len(),
                self.instances@.len() == old(self).instances@.len(),
                self.instances@.len() <= MAX_INSTANCES,
                forall|j: int| i <= j < self.instances@.len() ==> #[trigger] self.instances@[j] == old(self).instances@[j],
                forall|j: int|
                    0 <= j < old(self).instances@.len() ==> coord_ok((#[trigger] old(self).instances@[j]).x as int)
                        && coord_ok(old(self).instances@[j].y as int),
                forall|j: int|
                    0 <= j < i ==> {
                        let a = old(self).instances@[j];
                        let b = #[trigger] self.instances@[j];
                        &&& b.wf()
                        &&& b.def == a.def && b.params == a.params && b.x == a.x && b.y == a.y
                        &&& b.rot == a.rot && b.mem_init@ == a.mem_init@ && b.sub == a.sub
                        &&& b.display_name@ == (if a.display_name@.len() == 0 {
                            auto_name_spec(j as u32)
                        } else {
                            a.display_name@
                        })
                        &&& pins_rebuilt(a, b)
                    },
                self.wires@ == old(self).wires@,
                self.annotations@ == old(self).annotations@,
                self.labels@ == old(self).labels@,
                self.name@ == old(self).name@,
                self.name_en@ == old(self).name_en@,
                old(self).wires@.len() <= MAX_WIRES,
                old(self).annotations@.len() <= MAX_WIRES,
                old(self).labels@.len() <= MAX_WIRES,
            decreases self.instances@.len() - i,
        {
            let ghost a = self.instances@[i as int];
            assert(a == old(self).instances@[i as int]);
            self.instances[i].rebuild_pins();
            let ghost b1 = self.instances@[i as int];
            assert(pins_rebuilt(a, b1));
            if self.instances[i].display_name.as_str().unicode_len() == 0 {
                self.instances[i].display_name = auto_name(i as u32);
            }
            assert(self.instances@[i as int].pins@ == b1.pins@);
            assert(pins_rebuilt(a, self.instances@[i as int]));
            i = i + 1;
        }
    }

    /// A copy of the board.
    pub fn duplicate(&self) -> (r: Board)
        ensures
            r@ == self@,
            self.wf() ==> r.wf(),
    {
        let mut insts: Vec<Instance> = Vec::new();
        let mut i: usize = 0;
        while i < self.instances.len()
            invariant
                i <= self.instances@.len(),
                insts@.len() == i,
                forall|j: int| 0 <= j < i ==> (#[trigger] insts@[j])@ == self.instances@[j]@ && (self.instances@[j].wf()
                    ==> insts@[j].wf()),
            decreases self.instances@.len() - i,
        {
            insts.push(self.instances[i].duplicate());
            i = i + 1;
        }
        let mut wires: Vec<Wire> = Vec::new();
        let mut k: usize = 0;
        while k < self.wires.len()
            invariant
                k <= self.wires@.len(),
                wires@.len() == k,
                forall|j: int| 0 <= j < k ==> (#[trigger] wires@[j]).points@ == self.wires@[j].points@,
            decreases self.wires@.len() - k,
        {
            wires.push(self.wires[k].duplicate());
            k = k + 1;
        }
        let mut notes: Vec<Annotation> = Vec::new();
        let mut m: usize = 0;
        while m < self.annotations.len()
            invariant
                m <= self.annotations@.len(),
                notes@.len() == m,
                forall|j: int| 0 <= j < m ==> annotation_view(#[trigger] notes@[j]) == annotation_view(self.annotations@[j]),
            decreases self.annotations@.len() - m,
        {
            let a = &self.annotations[m];
            notes.push(Annotation { x: a.x, y: a.y, text: a.text.clone(), color: a.color });
            m = m + 1;
        }
        let mut labels: Vec<NetLabel> = Vec::new();
        let mut q: usize = 0;
        while q < self.labels.len()
            invariant
                q <= self.labels@.len(),
                labels@.len() == q,
                forall|j: int| 0 <= j < q ==> label_view(#[trigger] labels@[j]) == label_view(self.labels@[j]),
            decreases self.labels@.len() - q,
        {
            let l = &self.labels[q];
            labels.push(NetLabel { x: l.x, y: l.y, name: l.name.clone() });
            q = q + 1;
        }
        let r = Board {
            name: self.name.clone(),
            name_en: self.name_en.clone(),
            instances: insts,
            wires,
            annotations: notes,
            labels,
        };
        proof {
            assert(r.instances@.map_values(|i: Instance| instance_view(i)) =~= self.instances@.map_values(
                |i: Instance| instance_view(i),
            ));
            assert(r.wires@.map_values(|w: Wire| wire_view(w)) =~= self.wires@.map_values(|w: Wire| wire_view(w)));
            assert(r.annotations@.map_values(|a: Annotation| annotation_view(a)) =~= self.annotations@.map_values(
                |a: Annotation| annotation_view(a),
            ));
            assert(r.labels@.map_values(|l: NetLabel| label_view(l)) =~= self.labels@.map_values(
                |l: NetLabel| label_view(l),
            ));
        }
        r
    }
}

} // verus!
