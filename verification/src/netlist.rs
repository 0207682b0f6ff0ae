//! Netlist derivation: which pins and wires share a net.
//!
//! Nodes are numbered pins first (board order), then wires. Two nodes are
//! linked when
//!   - an end point or corner of one wire lies on a horizontal or vertical
//!     segment of another wire;
//!   - a pin lies on such a segment of a wire;
//!   - two pins sit at the same point;
//!   - two labels with the same non-empty name are attached to them (a label
//!     attaches to the first wire running horizontally through its point,
//!     else the first wire running vertically through it, else the first pin
//!     at its point).
//! Nets are the classes of the smallest equivalence holding all links. A pin
//! alone in its class gets no net if it is an input, and a private net if it
//! is an output.
use vstd::prelude::*;
use crate::board::{
    Board, Point, Wire, Instance, NO_NET, MAX_INSTANCES, MAX_PINS, MAX_WIRES, between, on_ortho,
    ortho_hit, flat_points, pin_count, inst_pin_points, lemma_pin_count_bound,
};
use crate::defs::{Dir, PinDef};
use crate::values::Width;
use crate::text::str_eq;

verus! {

/// What the engine needs of a board: pin -> net.
#[derive(Debug)]
pub struct Netlist {
    /// Global pin -> net (`NO_NET` = unconnected).
    pub pin_net: Vec<u32>,
    /// Global pin -> owning instance.
    pub pin_owner: Vec<u32>,
    /// Global pin -> slot inside its instance.
    pub pin_slot: Vec<u16>,
    /// Instance -> its first global pin.
    pub pin_start: Vec<u32>,
    /// Global pin -> width.
    pub pin_width: Vec<Width>,
    /// Global pin -> whether it is an output.
    pub pin_is_out: Vec<bool>,
    /// Wire -> net (`NO_NET` = a wire that reaches no pin).
    pub wire_net: Vec<u32>,
    pub net_count: u32,
}

/// Number of pins of the board.
pub open spec fn npins(b: Board) -> int {
    pin_count(b.instances@) as int
}

/// Number of nodes (pins, then wires).
pub open spec fn nnodes(b: Board) -> int {
    npins(b) + b.wires@.len()
}

/// World position of global pin `g`.
pub open spec fn pin_pos(b: Board, g: int) -> Point {
    flat_points(b.instances@)[g]
}

pub open spec fn wpts(b: Board, j: int) -> Seq<Point> {
    b.wires@[j].points@
}

/// A corner or end point of wire `i` lies on wire `j`.
pub open spec fn wire_touches(b: Board, i: int, j: int) -> bool {
    exists|k: int| 0 <= k < wpts(b, i).len() && #[trigger] on_ortho(wpts(b, j), wpts(b, i)[k])
}

/// `p` lies on a horizontal segment `ab`.
pub open spec fn row_seg_hit(a: Point, b: Point, p: Point) -> bool {
    a.y == b.y && p.y == a.y && between(p.x as int, a.x as int, b.x as int)
}

/// `p` lies on a vertical (not horizontal) segment `ab`.
pub open spec fn col_seg_hit(a: Point, b: Point, p: Point) -> bool {
    a.y != b.y && a.x == b.x && p.x == a.x && between(p.y as int, a.y as int, b.y as int)
}

pub open spec fn row_hit(pts: Seq<Point>, p: Point) -> bool {
    exists|k: int| 0 <= k < pts.len() - 1 && #[trigger] row_seg_hit(pts[k], pts[k + 1], p)
}

pub open spec fn col_hit(pts: Seq<Point>, p: Point) -> bool {
    exists|k: int| 0 <= k < pts.len() - 1 && #[trigger] col_seg_hit(pts[k], pts[k + 1], p)
}

/// First wire from `j` on running horizontally through `p` (-1: none).
pub open spec fn first_row_wire(b: Board, p: Point, j: int) -> int
    decreases b.wires@.len() - j,
{
    if j < 0 || j >= b.wires@.len() {
        -1
    } else if row_hit(wpts(b, j), p) {
        j
    } else {
        first_row_wire(b, p, j + 1)
    }
}

/// First wire from `j` on running vertically through `p` (-1: none).
pub open spec fn first_col_wire(b: Board, p: Point, j: int) -> int
    decreases b.wires@.len() - j,
{
    if j < 0 || j >= b.wires@.len() {
        -1
    } else if col_hit(wpts(b, j), p) {
        j
    } else {
        first_col_wire(b, p, j + 1)
    }
}

/// First pin from `g` on sitting at `p` (-1: none).
pub open spec fn first_pin_at(b: Board, p: Point, g: int) -> int
    decreases npins(b) - g,
{
    if g < 0 || g >= npins(b) {
        -1
    } else if pin_pos(b, g) == p {
        g
    } else {
        first_pin_at(b, p, g + 1)
    }
}

pub open spec fn label_point(b: Board, l: int) -> Point {
    Point { x: b.labels@[l].x, y: b.labels@[l].y }
}

/// Node a label attaches to (-1: none).
pub open spec fn label_node(b: Board, l: int) -> int {
    let p = label_point(b, l);
    let r = first_row_wire(b, p, 0);
    let c = first_col_wire(b, p, 0);
    if r >= 0 {
        npins(b) + r
    } else if c >= 0 {
        npins(b) + c
    } else {
        first_pin_at(b, p, 0)
    }
}

/// Label `l` has a name and is attached to a node.
pub open spec fn label_live(b: Board, l: int) -> bool {
    0 <= l < b.labels@.len() && b.labels@[l].name@.len() > 0 && label_node(b, l) >= 0
}

/// Nodes joined by two labels of one name.
pub open spec fn label_linked(b: Board, u: int, v: int) -> bool {
    exists|l1: int, l2: int|
        #![trigger label_node(b, l1), label_node(b, l2)]
        label_live(b, l1) && label_live(b, l2) && b.labels@[l1].name@ == b.labels@[l2].name@
            && label_node(b, l1) == u && label_node(b, l2) == v
}

/// The connection rules of the board, as links between nodes.
pub open spec fn linked(b: Board, u: int, v: int) -> bool {
    let np = npins(b);
    &&& 0 <= u < nnodes(b)
    &&& 0 <= v < nnodes(b)
    &&& {
        ||| (u >= np && v >= np && u != v && wire_touches(b, u - np, v - np))
        ||| (u < np && v >= np && on_ortho(wpts(b, v - np), pin_pos(b, u)))
        ||| (u < np && v < np && u != v && pin_pos(b, u) == pin_pos(b, v))
        ||| label_linked(b, u, v)
    }
}

/// `f` gives linked nodes the same value.
pub open spec fn respects(b: Board, f: spec_fn(int) -> int) -> bool {
    forall|u: int, v: int| #[trigger] linked(b, u, v) ==> f(u) == f(v)
}

/// Nodes with the same label have the same value under `f`.
pub open spec fn refines(lab: Seq<u32>, f: spec_fn(int) -> int) -> bool {
    forall|i: int, j: int|
        0 <= i < lab.len() && 0 <= j < lab.len() && #[trigger] lab[i] == #[trigger] lab[j] ==> f(i) == f(j)
}

/// The labelling is no coarser than the connection rules allow.
pub open spec fn uf_inv(b: Board, lab: Seq<u32>) -> bool {
    &&& lab.len() == nnodes(b)
    &&& forall|i: int| 0 <= i < lab.len() ==> (#[trigger] lab[i]) < lab.len()
    &&& forall|f: spec_fn(int) -> int| #[trigger] respects(b, f) ==> refines(lab, f)
}

/// Merges the classes of two linked nodes: every node labelled like `y` takes
/// the label of `x`.
fn union(lab: &mut Vec<u32>, x: usize, y: usize, Ghost(b): Ghost<Board>)
    requires
        uf_inv(b, old(lab)@),
        x < old(lab)@.len(),
        y < old(lab)@.len(),
        linked(b, x as int, y as int) || x == y,
    ensures
        uf_inv(b, final(lab)@),
        final(lab)@[x as int] == final(lab)@[y as int],
        forall|i: int|
            0 <= i < final(lab)@.len() ==> #[trigger] final(lab)@[i] == (if old(lab)@[i] == old(lab)@[y as int] {
                old(lab)@[x as int]
            } else {
                old(lab)@[i]
            }),
{
    let lx = lab[x];
    let ly = lab[y];
    if lx == ly {
        return;
    }
    let ghost before = lab@;
    let mut i: usize = 0;
    while i < lab.len()
        invariant
            lab@.len() == before.len(),
            i <= lab@.len(),
            lx == before[x as int],
            ly == before[y as int],
            lx != ly,
            forall|j: int| 0 <= j < before.len() ==> (#[trigger] before[j]) < before.len(),
            forall|j: int|
                0 <= j < i ==> #[trigger] lab@[j] == (if before[j] == ly { lx } else { before[j] }),
            forall|j: int| i <= j < lab@.len() ==> #[trigger] lab@[j] == before[j],
        decreases lab@.len() - i,
    {
        if lab[i] == ly {
            lab.set(i, lx);
        }
        i = i + 1;
    }
    proof {
        assert forall|f: spec_fn(int) -> int| #[trigger] respects(b, f) implies refines(lab@, f) by {
            assert(refines(before, f));
            if x != y {
                assert(linked(b, x as int, y as int));
            }
            assert forall|i: int, j: int|
                0 <= i < lab@.len() && 0 <= j < lab@.len() && #[trigger] lab@[i] == #[trigger] lab@[j] implies f(i)
                == f(j) by {
                if before[i] == ly && before[j] != ly {
                    assert(before[x as int] == before[j]);
                    assert(before[y as int] == before[i]);
                } else if before[i] != ly && before[j] == ly {
                    assert(before[x as int] == before[i]);
                    assert(before[y as int] == before[j]);
                }
            }
        }
    }
}

/// Whether `p` lies on a horizontal or vertical segment of the polyline.
fn on_wire(pts: &Vec<Point>, p: Point) -> (r: bool)
    ensures
        r == on_ortho(pts@, p),
{
    let n = pts.len();
    let last: usize = if n >= 1 { n - 1 } else { 0 };
    let mut k: usize = 0;
    while k < last
        invariant
            n == pts@.len(),
            last == if n >= 1 { n - 1 } else { 0 },
            k <= last,
            forall|j: int| 0 <= j < k ==> !#[trigger] ortho_hit(p, pts@[j], pts@[j + 1]),
        decreases last - k,
    {
        let a = pts[k];
        let c = pts[k + 1];
        let hit = (a.y == c.y && p.y == a.y && ((a.x <= c.x && a.x <= p.x && p.x <= c.x) || (c.x < a.x
            && c.x <= p.x && p.x <= a.x))) || (a.x == c.x && p.x == a.x && ((a.y <= c.y && a.y <= p.y
            && p.y <= c.y) || (c.y < a.y && c.y <= p.y && p.y <= a.y)));
        if hit {
            assert(ortho_hit(p, pts@[k as int], pts@[k as int + 1]));
            return true;
        }
        k = k + 1;
    }
    false
}

/// Whether `p` lies on a horizontal segment (`rows`) or a vertical,
/// not horizontal, segment (`!rows`) of the polyline.
fn on_wire_dir(pts: &Vec<Point>, p: Point, rows: bool) -> (r: bool)
    ensures
        rows ==> r == row_hit(pts@, p),
        !rows ==> r == col_hit(pts@, p),
{
    let n = pts.len();
    let last: usize = if n >= 1 { n - 1 } else { 0 };
    let mut k: usize = 0;
    while k < last
        invariant
            n == pts@.len(),
            last == if n >= 1 { n - 1 } else { 0 },
            k <= last,
            rows ==> forall|j: int| 0 <= j < k ==> !#[trigger] row_seg_hit(pts@[j], pts@[j + 1], p),
            !rows ==> forall|j: int| 0 <= j < k ==> !#[trigger] col_seg_hit(pts@[j], pts@[j + 1], p),
        decreases last - k,
    {
        let a = pts[k];
        let c = pts[k + 1];
        let hit = if rows {
            a.y == c.y && p.y == a.y && ((a.x <= c.x && a.x <= p.x && p.x <= c.x) || (c.x < a.x && c.x
                <= p.x && p.x <= a.x))
        } else {
            a.y != c.y && a.x == c.x && p.x == a.x && ((a.y <= c.y && a.y <= p.y && p.y <= c.y) || (c.y
                < a.y && c.y <= p.y && p.y <= a.y))
        };
        if hit {
            assert(rows ==> row_seg_hit(pts@[k as int], pts@[k as int + 1], p));
            assert(!rows ==> col_seg_hit(pts@[k as int], pts@[k as int + 1], p));
            return true;
        }
        k = k + 1;
    }
    false
}

/// Touching wires share a label.
pub open spec fn wires_joined(b: Board, lab: Seq<u32>) -> bool {
    forall|i: int, j: int|
        0 <= i < b.wires@.len() && 0 <= j < b.wires@.len() && i != j && #[trigger] wire_touches(b, i, j)
            ==> lab[npins(b) + i] == lab[npins(b) + j]
}

/// A pin lying on a wire shares its label.
pub open spec fn pins_joined(b: Board, lab: Seq<u32>) -> bool {
    forall|g: int, j: int|
        0 <= g < npins(b) && 0 <= j < b.wires@.len() && #[trigger] on_ortho(wpts(b, j), pin_pos(b, g))
            ==> lab[g] == lab[npins(b) + j]
}

/// First live label from `m` on named like label `l` (-1: none).
pub open spec fn first_same(b: Board, l: int, m: int) -> int
    decreases b.labels@.len() - m,
{
    if m < 0 || m >= b.labels@.len() {
        -1
    } else if label_live(b, m) && b.labels@[m].name@ == b.labels@[l].name@ {
        m
    } else {
        first_same(b, l, m + 1)
    }
}

/// Every live label's node shares the label of the first live label of that name.
pub open spec fn labels_joined(b: Board, lab: Seq<u32>) -> bool {
    forall|l: int|
        #[trigger] label_live(b, l) ==> lab[label_node(b, l)] == lab[label_node(b, first_same(b, l, 0))]
}

/// Every pin shares the label of the first pin at its point.
pub open spec fn coincident_joined(b: Board, lab: Seq<u32>) -> bool {
    forall|g: int| 0 <= g < npins(b) ==> #[trigger] lab[g] == lab[first_pin_at(b, pin_pos(b, g), 0)]
}

proof fn lemma_first_pin_at(b: Board, p: Point, g: int, h: int)
    requires
        0 <= g <= h < npins(b),
        pin_pos(b, h) == p,
    ensures
        g <= first_pin_at(b, p, g) <= h,
        pin_pos(b, first_pin_at(b, p, g)) == p,
        forall|m: int| g <= m < first_pin_at(b, p, g) ==> pin_pos(b, m) != p,
    decreases h - g,
{
    if pin_pos(b, g) != p {
        lemma_first_pin_at(b, p, g + 1, h);
    }
}

/// Joins wires whose corner or end point lies on another wire.
fn join_wires(lab: &mut Vec<u32>, b: &Board, np: usize)
    requires
        uf_inv(*b, old(lab)@),
        np == npins(*b),
    ensures
        uf_inv(*b, final(lab)@),
        wires_joined(*b, final(lab)@),
        forall|u: int, v: int|
            0 <= u < old(lab)@.len() && 0 <= v < old(lab)@.len() && old(lab)@[u] == old(lab)@[v]
                ==> #[trigger] final(lab)@[u] == #[trigger] final(lab)@[v],
{
    let nw = b.wires.len();
    let ghost lab0 = lab@;
    let total = lab.len();
    let mut i: usize = 0;
    while i < nw
        invariant
            nw == b.wires@.len(),
            np == npins(*b),
            uf_inv(*b, lab@),
            lab0.len() == lab@.len(),
            lab@.len() == np + nw,
                total == np + nw,
            i <= nw,
            forall|i2: int, j2: int|
                0 <= i2 < i && 0 <= j2 < nw && i2 != j2 && #[trigger] wire_touches(*b, i2, j2) ==> lab@[np
                    + i2] == lab@[np + j2],
            forall|u: int, v: int|
                0 <= u < lab0.len() && 0 <= v < lab0.len() && lab0[u] == lab0[v] ==> #[trigger] lab@[u]
                    == #[trigger] lab@[v],
        decreases nw - i,
    {
        let pts = &b.wires[i].points;
        let mut k: usize = 0;
        while k < pts.len()
            invariant
                nw == b.wires@.len(),
                np == npins(*b),
                i < nw,
                *pts == b.wires@[i as int].points,
                uf_inv(*b, lab@),
                lab0.len() == lab@.len(),
                lab@.len() == np + nw,
                total == np + nw,
                k <= pts@.len(),
                forall|i2: int, j2: int|
                    0 <= i2 < i && 0 <= j2 < nw && i2 != j2 && #[trigger] wire_touches(*b, i2, j2) ==> lab@[np
                        + i2] == lab@[np + j2],
                forall|k2: int, j2: int|
                    0 <= k2 < k && 0 <= j2 < nw && j2 != i && #[trigger] on_ortho(wpts(*b, j2), pts@[k2])
                        ==> lab@[np + i] == lab@[np + j2],
                forall|u: int, v: int|
                    0 <= u < lab0.len() && 0 <= v < lab0.len() && lab0[u] == lab0[v] ==> #[trigger] lab@[u]
                        == #[trigger] lab@[v],
            decreases pts@.len() - k,
        {
            let p = pts[k];
            let mut j: usize = 0;
            while j < nw
                invariant
                    nw == b.wires@.len(),
                    np == npins(*b),
                    i < nw,
                    k < pts@.len(),
                    p == pts@[k as int],
                    *pts == b.wires@[i as int].points,
                    uf_inv(*b, lab@),
                lab0.len() == lab@.len(),
                lab@.len() == np + nw,
                total == np + nw,
                    j <= nw,
                    forall|i2: int, j2: int|
                        0 <= i2 < i && 0 <= j2 < nw && i2 != j2 && #[trigger] wire_touches(*b, i2, j2)
                            ==> lab@[np + i2] == lab@[np + j2],
                    forall|k2: int, j2: int|
                        0 <= k2 < k && 0 <= j2 < nw && j2 != i && #[trigger] on_ortho(wpts(*b, j2), pts@[k2])
                            ==> lab@[np + i] == lab@[np + j2],
                    forall|j2: int|
                        0 <= j2 < j && j2 != i && #[trigger] on_ortho(wpts(*b, j2), p) ==> lab@[np + i]
                            == lab@[np + j2],
                    forall|u: int, v: int|
                        0 <= u < lab0.len() && 0 <= v < lab0.len() && lab0[u] == lab0[v] ==> #[trigger] lab@[u]
                            == #[trigger] lab@[v],
                decreases nw - j,
            {
                if j != i && on_wire(&b.wires[j].points, p) {
                    proof {
                        assert(on_ortho(wpts(*b, j as int), wpts(*b, i as int)[k as int]));
                        assert(wire_touches(*b, i as int, j as int));
                        assert(lab@.len() == np + nw);
                        assert(linked(*b, (np + i) as int, (np + j) as int));
                    }
                    let ua = np + i;
                    let ub = np + j;
                    union(lab, ua, ub, Ghost(*b));
                }
                j = j + 1;
            }
            k = k + 1;
        }
        proof {
            assert forall|j2: int|
                0 <= j2 < nw && i != j2 && #[trigger] wire_touches(*b, i as int, j2) implies lab@[np + i]
                == lab@[np + j2] by {
                let k2 = choose|k2: int| 0 <= k2 < wpts(*b, i as int).len() && #[trigger] on_ortho(
                    wpts(*b, j2),
                    wpts(*b, i as int)[k2],
                );
                assert(on_ortho(wpts(*b, j2), pts@[k2]));
            }
        }
        i = i + 1;
    }
}

/// Labels equal before stay equal after.
pub open spec fn keeps(l1: Seq<u32>, l2: Seq<u32>) -> bool {
    &&& l1.len() == l2.len()
    &&& forall|u: int, v: int|
        0 <= u < l1.len() && 0 <= v < l1.len() && l1[u] == l1[v] ==> #[trigger] l2[u] == #[trigger] l2[v]
}

proof fn lemma_keeps(b: Board, l1: Seq<u32>, l2: Seq<u32>)
    requires
        keeps(l1, l2),
        l1.len() == nnodes(b),
        forall|g: int| 0 <= g < npins(b) ==> 0 <= #[trigger] first_pin_at(b, pin_pos(b, g), 0) < npins(b),
        forall|l: int| #[trigger] label_live(b, l) ==> 0 <= label_node(b, l) < nnodes(b) && 0 <= label_node(
            b,
            first_same(b, l, 0),
        ) < nnodes(b),
    ensures
        wires_joined(b, l1) ==> wires_joined(b, l2),
        pins_joined(b, l1) ==> pins_joined(b, l2),
        labels_joined(b, l1) ==> labels_joined(b, l2),
        coincident_joined(b, l1) ==> coincident_joined(b, l2),
{
    let np = npins(b);
    if wires_joined(b, l1) {
        assert forall|i: int, j: int|
            0 <= i < b.wires@.len() && 0 <= j < b.wires@.len() && i != j && #[trigger] wire_touches(b, i, j)
                implies l2[np + i] == l2[np + j] by {
            assert(l1[np + i] == l1[np + j]);
        }
    }
    if pins_joined(b, l1) {
        assert forall|g: int, j: int|
            0 <= g < np && 0 <= j < b.wires@.len() && #[trigger] on_ortho(wpts(b, j), pin_pos(b, g)) implies l2[g]
                == l2[np + j] by {
            assert(l1[g] == l1[np + j]);
        }
    }
    if labels_joined(b, l1) {
        assert forall|l: int| #[trigger] label_live(b, l) implies l2[label_node(b, l)] == l2[label_node(
            b,
            first_same(b, l, 0),
        )] by {
            assert(l1[label_node(b, l)] == l1[label_node(b, first_same(b, l, 0))]);
        }
    }
    if coincident_joined(b, l1) {
        assert forall|g: int| 0 <= g < np implies #[trigger] l2[g] == l2[first_pin_at(b, pin_pos(b, g), 0)] by {
            assert(l1[g] == l1[first_pin_at(b, pin_pos(b, g), 0)]);
        }
    }
}

/// Joins each pin with the wires it lies on.
fn join_pins(lab: &mut Vec<u32>, b: &Board, pos: &Vec<Point>, np: usize)
    requires
        uf_inv(*b, old(lab)@),
        np == npins(*b),
        pos@ == flat_points(b.instances@),
        pos@.len() == np,
    ensures
        uf_inv(*b, final(lab)@),
        pins_joined(*b, final(lab)@),
        keeps(old(lab)@, final(lab)@),
{
    let nw = b.wires.len();
    let ghost lab0 = lab@;
    let total = lab.len();
    let mut g: usize = 0;
    while g < np
        invariant
            nw == b.wires@.len(),
            np == npins(*b),
            pos@ == flat_points(b.instances@),
            pos@.len() == np,
            uf_inv(*b, lab@),
            total == np + nw,
            lab@.len() == total,
            g <= np,
            forall|g2: int, j2: int|
                0 <= g2 < g && 0 <= j2 < nw && #[trigger] on_ortho(wpts(*b, j2), pin_pos(*b, g2)) ==> lab@[g2]
                    == lab@[np + j2],
            keeps(lab0, lab@),
        decreases np - g,
    {
        let p = pos[g];
        let mut j: usize = 0;
        while j < nw
            invariant
                nw == b.wires@.len(),
                np == npins(*b),
                pos@ == flat_points(b.instances@),
                pos@.len() == np,
                g < np,
                p == pin_pos(*b, g as int),
                uf_inv(*b, lab@),
                total == np + nw,
                lab@.len() == total,
                j <= nw,
                forall|g2: int, j2: int|
                    0 <= g2 < g && 0 <= j2 < nw && #[trigger] on_ortho(wpts(*b, j2), pin_pos(*b, g2)) ==> lab@[g2]
                        == lab@[np + j2],
                forall|j2: int| 0 <= j2 < j && #[trigger] on_ortho(wpts(*b, j2), p) ==> lab@[g as int] == lab@[np + j2],
                keeps(lab0, lab@),
            decreases nw - j,
        {
            if on_wire(&b.wires[j].points, p) {
                proof {
                    assert(linked(*b, g as int, (np + j) as int));
                }
                let ub = np + j;
                union(lab, g, ub, Ghost(*b));
            }
            j = j + 1;
        }
        g = g + 1;
    }
}

/// Joins each pin with the first pin at its point.
fn join_coincident(lab: &mut Vec<u32>, b: &Board, pos: &Vec<Point>, np: usize)
    requires
        uf_inv(*b, old(lab)@),
        np == npins(*b),
        pos@ == flat_points(b.instances@),
        pos@.len() == np,
    ensures
        uf_inv(*b, final(lab)@),
        coincident_joined(*b, final(lab)@),
        keeps(old(lab)@, final(lab)@),
{
    let ghost lab0 = lab@;
    let mut g: usize = 0;
    while g < np
        invariant
            np == npins(*b),
            pos@ == flat_points(b.instances@),
            pos@.len() == np,
            uf_inv(*b, lab@),
            g <= np,
            forall|g2: int| 0 <= g2 < g ==> #[trigger] lab@[g2] == lab@[first_pin_at(*b, pin_pos(*b, g2), 0)],
            keeps(lab0, lab@),
        decreases np - g,
    {
        let p = pos[g];
        let mut h: usize = 0;
        while h < g && pos[h] != p
            invariant
                h <= g,
                g < np,
                pos@.len() == np,
                p == pos@[g as int],
                forall|m: int| 0 <= m < h ==> pos@[m] != p,
            decreases g - h,
        {
            h = h + 1;
        }
        proof {
            lemma_first_pin_at(*b, p, 0, g as int);
            let f = first_pin_at(*b, p, 0);
            assert(pos@[h as int] == p);
            if f < h {
                assert(pos@[f] != p);
            }
            if h < f {
                assert(pin_pos(*b, h as int) != p);
            }
            assert(f == h);
        }
        if h < g {
            proof {
                assert(linked(*b, g as int, h as int));
            }
            union(lab, g, h, Ghost(*b));
        }
        proof {
            assert forall|g2: int| 0 <= g2 <= g implies #[trigger] lab@[g2] == lab@[first_pin_at(*b, pin_pos(*b, g2), 0)] by {
                if g2 < g {
                    lemma_first_pin_at(*b, pin_pos(*b, g2), 0, g2);
                }
            }
        }
        g = g + 1;
    }
}

proof fn lemma_first_row_wire(b: Board, p: Point, j: int)
    requires
        0 <= j,
    ensures
        first_row_wire(b, p, j) == -1 || (j <= first_row_wire(b, p, j) < b.wires@.len() && row_hit(
            wpts(b, first_row_wire(b, p, j)),
            p,
        )),
    decreases b.wires@.len() - j,
{
    if j < b.wires@.len() && !row_hit(wpts(b, j), p) {
        lemma_first_row_wire(b, p, j + 1);
    }
}

proof fn lemma_first_col_wire(b: Board, p: Point, j: int)
    requires
        0 <= j,
    ensures
        first_col_wire(b, p, j) == -1 || (j <= first_col_wire(b, p, j) < b.wires@.len() && col_hit(
            wpts(b, first_col_wire(b, p, j)),
            p,
        )),
    decreases b.wires@.len() - j,
{
    if j < b.wires@.len() && !col_hit(wpts(b, j), p) {
        lemma_first_col_wire(b, p, j + 1);
    }
}

proof fn lemma_first_pin_any(b: Board, p: Point, g: int)
    requires
        0 <= g,
    ensures
        first_pin_at(b, p, g) == -1 || (g <= first_pin_at(b, p, g) < npins(b) && pin_pos(
            b,
            first_pin_at(b, p, g),
        ) == p),
    decreases npins(b) - g,
{
    if g < npins(b) && pin_pos(b, g) != p {
        lemma_first_pin_any(b, p, g + 1);
    }
}

proof fn lemma_label_node_bounds(b: Board, l: int)
    ensures
        -1 <= label_node(b, l) < nnodes(b),
{
    let p = label_point(b, l);
    lemma_first_row_wire(b, p, 0);
    lemma_first_col_wire(b, p, 0);
    lemma_first_pin_any(b, p, 0);
}

proof fn lemma_first_same_skip(b: Board, l: int, m0: int, m: int)
    requires
        0 <= m0 <= m,
        forall|k: int| m0 <= k < m ==> !(label_live(b, k) && b.labels@[k].name@ == b.labels@[l].name@),
    ensures
        first_same(b, l, m0) == first_same(b, l, m),
    decreases m - m0,
{
    if m0 < m {
        lemma_first_same_skip(b, l, m0 + 1, m);
    }
}

proof fn lemma_first_same_live(b: Board, l: int)
    requires
        label_live(b, l),
    ensures
        0 <= first_same(b, l, 0) <= l,
        label_live(b, first_same(b, l, 0)),
        b.labels@[first_same(b, l, 0)].name@ == b.labels@[l].name@,
{
    lemma_first_same_upto(b, l, 0);
}

proof fn lemma_first_same_upto(b: Board, l: int, m: int)
    requires
        label_live(b, l),
        0 <= m <= l,
    ensures
        m <= first_same(b, l, m) <= l,
        label_live(b, first_same(b, l, m)),
        b.labels@[first_same(b, l, m)].name@ == b.labels@[l].name@,
    decreases l - m,
{
    if !(label_live(b, m) && b.labels@[m].name@ == b.labels@[l].name@) {
        lemma_first_same_upto(b, l, m + 1);
    }
}

impl Board {
    /// Node a label attaches to (-1: none), see `label_node`.
    fn label_node_exec(&self, l: usize, pos: &Vec<Point>, np: usize) -> (r: i64)
        requires
            self.wf(),
            l < self.labels@.len(),
            pos@ == flat_points(self.instances@),
            np == npins(*self),
        ensures
            r == label_node(*self, l as int),
    {
        proof {
            lemma_pin_count_bound(self.instances@);
            assert(self.instances@.len() * MAX_PINS <= 0x8000_0000) by (nonlinear_arith)
                requires
                    self.instances@.len() <= MAX_INSTANCES,
            ;
        }
        let p = Point::new(self.labels[l].x, self.labels[l].y);
        let nw = self.wires.len();
        let mut j: usize = 0;
        while j < nw
            invariant
                nw == self.wires@.len(),
                nw <= MAX_WIRES,
                np <= 0x8000_0000,
                np == npins(*self),
                j <= nw,
                p == label_point(*self, l as int),
                first_row_wire(*self, p, 0) == first_row_wire(*self, p, j as int),
            decreases nw - j,
        {
            if on_wire_dir(&self.wires[j].points, p, true) {
                proof {
                    assert(first_row_wire(*self, p, j as int) == j);
                }
                return np as i64 + j as i64;
            }
            j = j + 1;
        }
        let mut k: usize = 0;
        while k < nw
            invariant
                nw == self.wires@.len(),
                nw <= MAX_WIRES,
                np <= 0x8000_0000,
                np == npins(*self),
                k <= nw,
                p == label_point(*self, l as int),
                first_row_wire(*self, p, 0) == -1,
                first_col_wire(*self, p, 0) == first_col_wire(*self, p, k as int),
            decreases nw - k,
        {
            if on_wire_dir(&self.wires[k].points, p, false) {
                proof {
                    assert(first_col_wire(*self, p, k as int) == k);
                }
                return np as i64 + k as i64;
            }
            k = k + 1;
        }
        let mut g: usize = 0;
        while g < np
            invariant
                pos@ == flat_points(self.instances@),
                pos@.len() == np,
                np == npins(*self),
                np <= 0x8000_0000,
                g <= np,
                p == label_point(*self, l as int),
                first_row_wire(*self, p, 0) == -1,
                first_col_wire(*self, p, 0) == -1,
                first_pin_at(*self, p, 0) == first_pin_at(*self, p, g as int),
            decreases np - g,
        {
            if pos[g] == p {
                return g as i64;
            }
            g = g + 1;
        }
        -1
    }
}

/// Joins every named label with the first label of that name.
fn join_labels(lab: &mut Vec<u32>, b: &Board, nodes: &Vec<i64>)
    requires
        uf_inv(*b, old(lab)@),
        nodes@.len() == b.labels@.len(),
        forall|l: int| 0 <= l < nodes@.len() ==> #[trigger] nodes@[l] == label_node(*b, l),
    ensures
        uf_inv(*b, final(lab)@),
        labels_joined(*b, final(lab)@),
        keeps(old(lab)@, final(lab)@),
{
    let ghost lab0 = lab@;
    let nl = b.labels.len();
    let total = lab.len();
    let mut l: usize = 0;
    while l < nl
        invariant
            total == lab@.len(),
            nl == b.labels@.len(),
            nodes@.len() == nl,
            forall|k: int| 0 <= k < nodes@.len() ==> #[trigger] nodes@[k] == label_node(*b, k),
            uf_inv(*b, lab@),
            l <= nl,
            forall|k: int|
                0 <= k < l && #[trigger] label_live(*b, k) ==> lab@[label_node(*b, k)] == lab@[label_node(
                    *b,
                    first_same(*b, k, 0),
                )],
            keeps(lab0, lab@),
        decreases nl - l,
    {
        proof {
            lemma_label_node_bounds(*b, l as int);
        }
        if nodes[l] >= 0 && b.labels[l].name.as_str().unicode_len() > 0 {
            assert(label_live(*b, l as int));
            let mut m: usize = 0;
            while m < l && !(nodes[m] >= 0 && b.labels[m].name.as_str().unicode_len() > 0 && str_eq(
                b.labels[m].name.as_str(),
                b.labels[l].name.as_str(),
            ))
                invariant
                    m <= l,
                    l < nl,
                    nl == b.labels@.len(),
                    nodes@.len() == nl,
                    forall|k: int| 0 <= k < nodes@.len() ==> #[trigger] nodes@[k] == label_node(*b, k),
                    forall|k: int|
                        0 <= k < m ==> !(label_live(*b, k) && b.labels@[k].name@ == b.labels@[l as int].name@),
                decreases l - m,
            {
                m = m + 1;
            }
            proof {
                lemma_first_same_skip(*b, l as int, 0, m as int);
                lemma_label_node_bounds(*b, m as int);
            }
            if m < l {
                proof {
                    assert(label_live(*b, m as int));
                    assert(first_same(*b, l as int, 0) == m);
                    assert(label_linked(*b, label_node(*b, l as int), label_node(*b, m as int)));
                    assert(lab@.len() == nnodes(*b));
                }
                let u = nodes[l] as usize;
                let v = nodes[m] as usize;
                proof {
                    assert(u as int == label_node(*b, l as int));
                    assert(v as int == label_node(*b, m as int));
                    assert(linked(*b, u as int, v as int));
                }
                union(lab, u, v, Ghost(*b));
            } else {
                proof {
                    assert(first_same(*b, l as int, 0) == l);
                }
            }
        }
        proof {
            assert forall|k: int|
                0 <= k < l + 1 && #[trigger] label_live(*b, k) implies lab@[label_node(*b, k)] == lab@[label_node(
                *b,
                first_same(*b, k, 0),
            )] by {
                if k < l {
                    lemma_first_same_live(*b, k);
                    lemma_label_node_bounds(*b, k);
                    lemma_label_node_bounds(*b, first_same(*b, k, 0));
                }
            }
        }
        l = l + 1;
    }
}

/// Net of node `u` (pins first, then wires).
pub open spec fn node_net(nl: &Netlist, np: int, u: int) -> u32 {
    if u < np {
        nl.pin_net@[u]
    } else {
        nl.wire_net@[u - np]
    }
}

/// Pin `g` is linked to no other node.
pub open spec fn isolated(b: Board, g: int) -> bool {
    forall|v: int|
        #![trigger linked(b, g, v)]
        #![trigger linked(b, v, g)]
        (linked(b, g, v) || linked(b, v, g)) ==> v == g
}

/// Some pin is on net `n`.
pub open spec fn net_used(nl: &Netlist, np: int, n: int) -> bool {
    exists|g: int| 0 <= g < np && #[trigger] nl.pin_net@[g] == n
}

/// First global pin of instance `i`.
pub open spec fn pin_base(b: Board, i: int) -> int {
    pin_count(b.instances@.subrange(0, i)) as int
}

/// The per-pin tables describe the board's pins in board order.
pub open spec fn tables_ok(b: Board, nl: &Netlist) -> bool {
    let np = npins(b);
    &&& nl.pin_net@.len() == np
    &&& nl.pin_owner@.len() == np
    &&& nl.pin_slot@.len() == np
    &&& nl.pin_width@.len() == np
    &&& nl.pin_is_out@.len() == np
    &&& nl.pin_start@.len() == b.instances@.len()
    &&& nl.wire_net@.len() == b.wires@.len()
    &&& forall|i: int| 0 <= i < b.instances@.len() ==> #[trigger] nl.pin_start@[i] == pin_base(b, i)
        && pin_base(b, i) + b.instances@[i].pins@.len() <= np
    &&& forall|i: int, s: int|
        #![trigger b.instances@[i].pins@[s], nl.pin_start@[i]]
        0 <= i < b.instances@.len() && 0 <= s < b.instances@[i].pins@.len() ==> {
            let g = nl.pin_start@[i] + s;
            &&& nl.pin_owner@[g] == i
            &&& nl.pin_slot@[g] == s
            &&& nl.pin_width@[g] == b.instances@[i].pins@[s].width
            &&& nl.pin_is_out@[g] == (b.instances@[i].pins@[s].dir == Dir::Out)
            &&& pin_pos(b, g) == b.instances@[i].pin_point(s)
        }
}

/// What `compile` guarantees: the pin tables, and nets that are exactly the
/// classes of the connection rules.
pub open spec fn netlist_ok(b: Board, nl: &Netlist) -> bool {
    let np = npins(b);
    &&& tables_ok(b, nl)
    &&& forall|g: int| 0 <= g < np ==> (#[trigger] nl.pin_net@[g] == NO_NET || nl.pin_net@[g] < nl.net_count)
    &&& forall|w: int| 0 <= w < b.wires@.len() ==> (#[trigger] nl.wire_net@[w] == NO_NET || nl.wire_net@[w]
        < nl.net_count)
    &&& forall|n: int| 0 <= n < nl.net_count ==> #[trigger] net_used(nl, np, n)
    // linked nodes share a net
    &&& forall|u: int, v: int| #[trigger] linked(b, u, v) ==> node_net(nl, np, u) == node_net(nl, np, v)
    // nodes share a net only where the rules join them
    &&& forall|f: spec_fn(int) -> int|
        #[trigger] respects(b, f) ==> forall|u: int, v: int|
            0 <= u < nnodes(b) && 0 <= v < nnodes(b) && #[trigger] node_net(nl, np, u) == #[trigger] node_net(nl, np, v)
                && node_net(nl, np, u) != NO_NET ==> f(u) == f(v)
    // a pin has no net exactly when it is an input linked to nothing
    &&& forall|g: int| 0 <= g < np ==> (#[trigger] nl.pin_net@[g] == NO_NET <==> (!nl.pin_is_out@[g] && isolated(b, g)))
}

proof fn lemma_linked_same(b: Board, lab: Seq<u32>, u: int, v: int)
    requires
        lab.len() == nnodes(b),
        wires_joined(b, lab),
        pins_joined(b, lab),
        labels_joined(b, lab),
        coincident_joined(b, lab),
        linked(b, u, v),
    ensures
        lab[u] == lab[v],
{
    let np = npins(b);
    if u >= np && v >= np && u != v && wire_touches(b, u - np, v - np) {
        assert(lab[np + (u - np)] == lab[np + (v - np)]);
    } else if u < np && v >= np && on_ortho(wpts(b, v - np), pin_pos(b, u)) {
        assert(lab[u] == lab[np + (v - np)]);
    } else if u < np && v < np && u != v && pin_pos(b, u) == pin_pos(b, v) {
        assert(lab[u] == lab[first_pin_at(b, pin_pos(b, u), 0)]);
        assert(lab[v] == lab[first_pin_at(b, pin_pos(b, v), 0)]);
    } else {
        let (l1, l2) = choose|l1: int, l2: int|
            #![trigger label_node(b, l1), label_node(b, l2)]
            label_live(b, l1) && label_live(b, l2) && b.labels@[l1].name@ == b.labels@[l2].name@
                && label_node(b, l1) == u && label_node(b, l2) == v;
        assert(label_live(b, l1));
        assert(label_live(b, l2));
        lemma_first_same_skip_equal(b, l1, l2, 0);
    }
}

proof fn lemma_first_same_skip_equal(b: Board, l1: int, l2: int, m: int)
    requires
        b.labels@[l1].name@ == b.labels@[l2].name@,
        0 <= m,
    ensures
        first_same(b, l1, m) == first_same(b, l2, m),
    decreases b.labels@.len() - m,
{
    if m < b.labels@.len() {
        lemma_first_same_skip_equal(b, l1, l2, m + 1);
    }
}

/// Per-pin tables of a board: first pin of each instance, owner, slot, width,
/// direction and position of each pin.
struct Tables {
    pin_start: Vec<u32>,
    pin_owner: Vec<u32>,
    pin_slot: Vec<u16>,
    pin_width: Vec<Width>,
    pin_is_out: Vec<bool>,
    pos: Vec<Point>,
}

spec fn tables_match(b: Board, t: Tables) -> bool {
    let np = npins(b);
    &&& t.pin_owner@.len() == np
    &&& t.pin_slot@.len() == np
    &&& t.pin_width@.len() == np
    &&& t.pin_is_out@.len() == np
    &&& t.pin_start@.len() == b.instances@.len()
    &&& t.pos@ == flat_points(b.instances@)
    &&& t.pos@.len() == np
    &&& forall|i: int| 0 <= i < b.instances@.len() ==> #[trigger] t.pin_start@[i] == pin_base(b, i)
        && pin_base(b, i) + b.instances@[i].pins@.len() <= np
    &&& forall|i: int, s: int|
        #![trigger b.instances@[i].pins@[s], t.pin_start@[i]]
        0 <= i < b.instances@.len() && 0 <= s < b.instances@[i].pins@.len() ==> {
            let g = t.pin_start@[i] + s;
            &&& t.pin_owner@[g] == i
            &&& t.pin_slot@[g] == s
            &&& t.pin_width@[g] == b.instances@[i].pins@[s].width
            &&& t.pin_is_out@[g] == (b.instances@[i].pins@[s].dir == Dir::Out)
            &&& t.pos@[g] == b.instances@[i].pin_point(s)
        }
}

impl Board {
    fn tables(&self) -> (t: Tables)
        requires
            self.wf(),
        ensures
            tables_match(*self, t),
            npins(*self) <= 0x7FFF_8000,
    {
        proof {
            lemma_pin_count_bound(self.instances@);
            assert(self.instances@.len() * MAX_PINS <= 0x7FFF_8000) by (nonlinear_arith)
                requires
                    self.instances@.len() <= MAX_INSTANCES,
            ;
        }
        let mut pin_start: Vec<u32> = Vec::new();
        let mut owner: Vec<u32> = Vec::new();
        let mut slot: Vec<u16> = Vec::new();
        let mut width: Vec<Width> = Vec::new();
        let mut is_out: Vec<bool> = Vec::new();
        let mut pos: Vec<Point> = Vec::new();
        let n = self.instances.len();
        let mut ii: usize = 0;
        while ii < n
            invariant
                self.wf(),
                n == self.instances@.len(),
                ii <= n,
                npins(*self) <= 0x8000_0000,
                pin_start@.len() == ii,
                pos@ == flat_points(self.instances@.subrange(0, ii as int)),
                owner@.len() == pos@.len(),
                slot@.len() == pos@.len(),
                width@.len() == pos@.len(),
                is_out@.len() == pos@.len(),
                pos@.len() == pin_count(self.instances@.subrange(0, ii as int)),
                pos@.len() <= npins(*self),
                forall|i: int| 0 <= i < ii ==> #[trigger] pin_start@[i] == pin_base(*self, i)
                    && pin_base(*self, i) + self.instances@[i].pins@.len() <= pos@.len(),
                forall|i: int, s: int|
                    #![trigger self.instances@[i].pins@[s], pin_start@[i]]
                    0 <= i < ii && 0 <= s < self.instances@[i].pins@.len() ==> {
                        let g = pin_start@[i] + s;
                        &&& owner@[g] == i
                        &&& slot@[g] == s
                        &&& width@[g] == self.instances@[i].pins@[s].width
                        &&& is_out@[g] == (self.instances@[i].pins@[s].dir == Dir::Out)
                        &&& pos@[g] == self.instances@[i].pin_point(s)
                    },
            decreases n - ii,
        {
            let inst = &self.instances[ii];
            assert(inst.wf());
            proof {
                let sub = self.instances@.subrange(0, ii as int + 1);
                assert(sub.drop_last() =~= self.instances@.subrange(0, ii as int));
                assert(sub.last() == self.instances@[ii as int]);
                lemma_pin_count_mono(self.instances@, ii as int + 1);
            }
            let base = pos.len();
            assert(base <= 0x8000_0000);
            let ghost ps0 = pin_start@;
            pin_start.push(base as u32);
            assert forall|i: int| 0 <= i < ii implies #[trigger] pin_start@[i] == pin_base(*self, i)
                && pin_base(*self, i) + self.instances@[i].pins@.len() <= base by {
                assert(pin_start@[i] == ps0[i]);
            }
            assert(pin_start@[ii as int] == pin_base(*self, ii as int));
            let ghost pos0 = pos@;
            let ghost own0 = owner@;
            let ghost slot0 = slot@;
            let ghost width0 = width@;
            let ghost out0 = is_out@;
            let mut s: usize = 0;
            while s < inst.pins.len()
                invariant
                    inst.wf(),
                    ii < n,
                    n == self.instances@.len(),
                    *inst == self.instances@[ii as int],
                    ii < MAX_INSTANCES,
                    pin_start@.len() == ii + 1,
                    pin_start@[ii as int] == base,
                    base == pin_base(*self, ii as int),
                    forall|i: int| 0 <= i < ii ==> #[trigger] pin_start@[i] == pin_base(*self, i)
                        && pin_base(*self, i) + self.instances@[i].pins@.len() <= base,
                    base == pos0.len(),
                    base == own0.len(),
                    base == slot0.len(),
                    base == width0.len(),
                    base == out0.len(),
                    base + inst.pins@.len() <= 0x8000_0000,
                    s <= inst.pins@.len(),
                    pos@ == pos0 + inst_pin_points(*inst).subrange(0, s as int),
                    owner@.len() == base + s,
                    slot@.len() == base + s,
                    width@.len() == base + s,
                    is_out@.len() == base + s,
                    forall|k: int| 0 <= k < base ==> #[trigger] owner@[k] == own0[k],
                    forall|k: int| 0 <= k < base ==> #[trigger] slot@[k] == slot0[k],
                    forall|k: int| 0 <= k < base ==> #[trigger] width@[k] == width0[k],
                    forall|k: int| 0 <= k < base ==> #[trigger] is_out@[k] == out0[k],
                    forall|k: int| base <= k < base + s ==> #[trigger] owner@[k] == ii,
                    forall|k: int| base <= k < base + s ==> #[trigger] slot@[k] == k - base,
                    forall|k: int| base <= k < base + s ==> #[trigger] width@[k] == inst.pins@[k - base].width,
                    forall|k: int| base <= k < base + s ==> #[trigger] is_out@[k] == (inst.pins@[k - base].dir == Dir::Out),
                decreases inst.pins@.len() - s,
            {
                assert(crate::board::pin_offset_ok(inst.pins@[s as int]));
                owner.push(ii as u32);
                slot.push(s as u16);
                width.push(inst.pins[s].width);
                is_out.push(inst.pins[s].dir == Dir::Out);
                pos.push(Point::new(inst.x + inst.pins[s].dx, inst.y + inst.pins[s].dy));
                proof {
                    assert(pos@ =~= pos0 + inst_pin_points(*inst).subrange(0, s as int + 1));
                    assert(owner@[base + s as int] == ii);
                    assert(slot@[base + s as int] == s);
                    assert(width@[base + s as int] == inst.pins@[s as int].width);
                    assert(is_out@[base + s as int] == (inst.pins@[s as int].dir == Dir::Out));
                }
                s = s + 1;
            }
            proof {
                assert(inst_pin_points(*inst).subrange(0, s as int) =~= inst_pin_points(*inst));
                assert forall|i: int, k: int|
                    #![trigger self.instances@[i].pins@[k], pin_start@[i]]
                    0 <= i < ii + 1 && 0 <= k < self.instances@[i].pins@.len() implies {
                    let g = pin_start@[i] + k;
                    &&& owner@[g] == i
                    &&& slot@[g] == k
                    &&& width@[g] == self.instances@[i].pins@[k].width
                    &&& is_out@[g] == (self.instances@[i].pins@[k].dir == Dir::Out)
                    &&& pos@[g] == self.instances@[i].pin_point(k)
                } by {
                    if i < ii {
                        assert(pin_start@[i] + k < base);
                        assert(owner@[pin_start@[i] + k] == own0[pin_start@[i] + k]);
                        assert(slot@[pin_start@[i] + k] == slot0[pin_start@[i] + k]);
                        assert(width@[pin_start@[i] + k] == width0[pin_start@[i] + k]);
                        assert(is_out@[pin_start@[i] + k] == out0[pin_start@[i] + k]);
                    } else {
                        assert(pin_start@[i] == base);
                        assert(owner@[base + k] == ii);
                        assert(slot@[base + k] == k);
                        assert(width@[base + k] == inst.pins@[k].width);
                        assert(is_out@[base + k] == (inst.pins@[k].dir == Dir::Out));
                    }
                }
            }
            proof {
                assert(pos@.len() == base + inst.pins@.len());
                assert forall|i: int| 0 <= i < ii + 1 implies #[trigger] pin_start@[i] == pin_base(*self, i)
                    && pin_base(*self, i) + self.instances@[i].pins@.len() <= pos@.len() by {
                    if i == ii {
                        assert(pin_start@[i] == base);
                        assert(self.instances@[i] == *inst);
                        assert(pin_base(*self, i) == base);
                    } else {
                        assert(pin_start@[i] == pin_base(*self, i));
                        assert(pin_base(*self, i) + self.instances@[i].pins@.len() <= base);
                    }
                }
            }
            ii = ii + 1;
        }
        proof {
            assert(self.instances@.subrange(0, n as int) =~= self.instances@);
        }
        Tables { pin_start, pin_owner: owner, pin_slot: slot, pin_width: width, pin_is_out: is_out, pos }
    }
}

proof fn lemma_pin_count_mono(insts: Seq<Instance>, i: int)
    requires
        0 <= i <= insts.len(),
    ensures
        pin_count(insts.subrange(0, i)) <= pin_count(insts),
    decreases insts.len() - i,
{
    if i < insts.len() {
        lemma_pin_count_mono(insts, i + 1);
        let a = insts.subrange(0, i + 1);
        assert(a.drop_last() =~= insts.subrange(0, i));
    } else {
        assert(insts.subrange(0, i) =~= insts);
    }
}

/// Some wire carries label `r`.
spec fn has_wire_lab(lab: Seq<u32>, np: int, nw: int, r: int) -> bool {
    exists|w: int| 0 <= w < nw && #[trigger] lab[np + w] == r
}

/// Two different pins carry label `r`.
spec fn multi_lab(lab: Seq<u32>, np: int, r: int) -> bool {
    exists|g1: int, g2: int| 0 <= g1 < g2 < np && #[trigger] lab[g1] == r && #[trigger] lab[g2] == r
}

spec fn conn_lab(lab: Seq<u32>, np: int, nw: int, r: int) -> bool {
    has_wire_lab(lab, np, nw, r) || multi_lab(lab, np, r)
}

/// Result of numbering: class nets `net_of`, private nets from `base` on.
spec fn numbered(
    lab: Seq<u32>,
    np: int,
    nw: int,
    is_out: Seq<bool>,
    pin_net: Seq<u32>,
    wire_net: Seq<u32>,
    count: u32,
    net_of: Seq<u32>,
    base: int,
) -> bool {
    let n = np + nw;
    &&& pin_net.len() == np
    &&& wire_net.len() == nw
    &&& net_of.len() == n
    &&& 0 <= base <= count
    &&& forall|r: int| 0 <= r < n ==> (#[trigger] net_of[r] == NO_NET || net_of[r] < base)
    &&& forall|r1: int, r2: int|
        0 <= r1 < n && 0 <= r2 < n && r1 != r2 && #[trigger] net_of[r1] != NO_NET ==> net_of[r1] != #[trigger] net_of[r2]
    &&& forall|g: int|
        0 <= g < np && conn_lab(lab, np, nw, lab[g] as int) ==> #[trigger] pin_net[g] == net_of[lab[g] as int]
            && net_of[lab[g] as int] != NO_NET
    &&& forall|g: int|
        0 <= g < np && !conn_lab(lab, np, nw, lab[g] as int) && !is_out[g] ==> #[trigger] pin_net[g] == NO_NET
    &&& forall|g: int|
        0 <= g < np && !conn_lab(lab, np, nw, lab[g] as int) && is_out[g] ==> base <= #[trigger] pin_net[g] < count
    &&& forall|g1: int, g2: int|
        0 <= g1 < np && 0 <= g2 < np && g1 != g2 && base <= #[trigger] pin_net[g1] < count ==> pin_net[g1]
            != #[trigger] pin_net[g2]
    &&& forall|w: int| 0 <= w < nw ==> #[trigger] wire_net[w] == net_of[lab[np + w] as int]
    &&& forall|m: int| 0 <= m < count ==> #[trigger] used_in(pin_net, np, m)
}

/// Some entry below `upto` equals `m`.
spec fn used_in(s: Seq<u32>, upto: int, m: int) -> bool {
    exists|g: int| 0 <= g < upto && #[trigger] s[g] == m
}

/// Numbers the nets: one per class holding a wire or two pins, in order of
/// first pin; then one private net for each output pin left alone.
fn number_nets(lab: &Vec<u32>, np: usize, nw: usize, is_out: &Vec<bool>) -> (r: (Vec<u32>, Vec<u32>, u32, Ghost<Seq<u32>>, Ghost<int>))
    requires
        lab@.len() == np + nw,
        np < 0x7FFF_FFFF,
        is_out@.len() == np,
        forall|i: int| 0 <= i < lab@.len() ==> (#[trigger] lab@[i]) < lab@.len(),
    ensures
        numbered(lab@, np as int, nw as int, is_out@, r.0@, r.1@, r.2, r.3@, r.4@),
{
    let n = lab.len();
    // which classes hold a wire
    let mut has_wire: Vec<bool> = Vec::new();
    let mut i: usize = 0;
    while i < n
        invariant
            i <= n,
            has_wire@.len() == i,
            forall|r: int| 0 <= r < i ==> !#[trigger] has_wire@[r],
        decreases n - i,
    {
        has_wire.push(false);
        i = i + 1;
    }
    let mut w: usize = 0;
    while w < nw
        invariant
            n == np + nw,
            lab@.len() == n,
            forall|i: int| 0 <= i < lab@.len() ==> (#[trigger] lab@[i]) < lab@.len(),
            has_wire@.len() == n,
            w <= nw,
            forall|r: int| 0 <= r < n ==> (#[trigger] has_wire@[r] <==> exists|w2: int| 0 <= w2 < w && #[trigger] lab@[np + w2] == r),
        decreases nw - w,
    {
        let r = lab[np + w] as usize;
        has_wire.set(r, true);
        proof {
            assert forall|r2: int| 0 <= r2 < n implies (#[trigger] has_wire@[r2] <==> exists|w2: int| 0 <= w2 < w + 1 && #[trigger] lab@[np + w2] == r2) by {
                if r2 == r {
                    assert(lab@[np + w as int] == r2);
                }
            }
        }
        w = w + 1;
    }
    // which classes hold two pins
    let mut first: Vec<u32> = Vec::new();
    let mut multi: Vec<bool> = Vec::new();
    let mut i2: usize = 0;
    while i2 < n
        invariant
            i2 <= n,
            first@.len() == i2,
            multi@.len() == i2,
            forall|r: int| 0 <= r < i2 ==> #[trigger] first@[r] == NO_NET,
            forall|r: int| 0 <= r < i2 ==> !#[trigger] multi@[r],
        decreases n - i2,
    {
        first.push(NO_NET);
        multi.push(false);
        i2 = i2 + 1;
    }
    let mut g: usize = 0;
    while g < np
        invariant
            n == np + nw,
            np < 0x7FFF_FFFF,
            lab@.len() == n,
            forall|i: int| 0 <= i < lab@.len() ==> (#[trigger] lab@[i]) < lab@.len(),
            first@.len() == n,
            multi@.len() == n,
            g <= np,
            forall|r: int|
                0 <= r < n ==> (#[trigger] first@[r] == NO_NET <==> forall|g2: int| 0 <= g2 < g ==> lab@[g2] != r),
            forall|r: int| 0 <= r < n && #[trigger] first@[r] != NO_NET ==> first@[r] < g && lab@[first@[r] as int] == r,
            forall|r: int|
                0 <= r < n ==> (#[trigger] multi@[r] <==> exists|g1: int, g2: int|
                    0 <= g1 < g2 < g && #[trigger] lab@[g1] == r && #[trigger] lab@[g2] == r),
        decreases np - g,
    {
        let r = lab[g] as usize;
        if first[r] == NO_NET {
            first.set(r, g as u32);
        } else {
            let f = first[r];
            multi.set(r, true);
            proof {
                assert(lab@[f as int] == r && lab@[g as int] == r);
            }
        }
        proof {
            assert forall|r2: int| 0 <= r2 < n implies (#[trigger] multi@[r2] <==> exists|g1: int, g3: int|
                0 <= g1 < g3 < g + 1 && #[trigger] lab@[g1] == r2 && #[trigger] lab@[g3] == r2) by {
                if r2 == r && multi@[r2] && first@[r2] != g {
                    let f = first@[r2];
                    assert(lab@[f as int] == r2 && lab@[g as int] == r2);
                }
                if (exists|g1: int, g3: int| 0 <= g1 < g3 < g + 1 && #[trigger] lab@[g1] == r2 && #[trigger] lab@[g3] == r2) {
                    let (g1, g3) = choose|g1: int, g3: int| 0 <= g1 < g3 < g + 1 && #[trigger] lab@[g1] == r2 && #[trigger] lab@[g3] == r2;
                    if g3 == g {
                        assert(lab@[g1] == r2);
                    }
                }
            }
        }
        g = g + 1;
    }
    let ghost conn = |r: int| conn_lab(lab@, np as int, nw as int, r);
    assert forall|r: int| 0 <= r < n implies (#[trigger] has_wire@[r] || multi@[r]) == conn_lab(lab@, np as int, nw as int, r) by {
        if has_wire@[r] {
            let w2 = choose|w2: int| 0 <= w2 < nw && #[trigger] lab@[np + w2] == r;
        }
        if has_wire_lab(lab@, np as int, nw as int, r) {
            let w2 = choose|w2: int| 0 <= w2 < nw && #[trigger] lab@[np + w2] == r;
        }
    }
    // class nets, in order of first pin
    let mut net_of: Vec<u32> = Vec::new();
    let mut i3: usize = 0;
    while i3 < n
        invariant
            i3 <= n,
            net_of@.len() == i3,
            forall|r: int| 0 <= r < i3 ==> #[trigger] net_of@[r] == NO_NET,
        decreases n - i3,
    {
        net_of.push(NO_NET);
        i3 = i3 + 1;
    }
    let mut pin_net: Vec<u32> = Vec::new();
    let mut next: u32 = 0;
    let mut g2: usize = 0;
    while g2 < np
        invariant
            n == np + nw,
            np < 0x7FFF_FFFF,
            lab@.len() == n,
            forall|i: int| 0 <= i < lab@.len() ==> (#[trigger] lab@[i]) < lab@.len(),
            has_wire@.len() == n,
            multi@.len() == n,
            forall|r: int| 0 <= r < n ==> (#[trigger] has_wire@[r] || multi@[r]) == conn_lab(lab@, np as int, nw as int, r),
            net_of@.len() == n,
            g2 <= np,
            next <= g2,
            pin_net@.len() == g2,
            forall|r: int| 0 <= r < n ==> (#[trigger] net_of@[r] == NO_NET || net_of@[r] < next),
            forall|r1: int, r2: int|
                0 <= r1 < n && 0 <= r2 < n && r1 != r2 && #[trigger] net_of@[r1] != NO_NET ==> net_of@[r1]
                    != #[trigger] net_of@[r2],
            forall|g: int|
                0 <= g < g2 && conn_lab(lab@, np as int, nw as int, lab@[g] as int) ==> #[trigger] pin_net@[g]
                    == net_of@[lab@[g] as int] && net_of@[lab@[g] as int] != NO_NET,
            forall|g: int|
                0 <= g < g2 && !conn_lab(lab@, np as int, nw as int, lab@[g] as int) ==> #[trigger] pin_net@[g] == NO_NET,
            forall|m: int| 0 <= m < next ==> #[trigger] used_in(pin_net@, g2 as int, m),
        decreases np - g2,
    {
        let r = lab[g2] as usize;
        let ghost pn0 = pin_net@;
        let ghost no0 = net_of@;
        if has_wire[r] || multi[r] {
            if net_of[r] == NO_NET {
                proof {
                    assert forall|g: int|
                        0 <= g < g2 && conn_lab(lab@, np as int, nw as int, lab@[g] as int) implies no0[lab@[g] as int]
                        != NO_NET && lab@[g] != r by {
                        assert(pin_net@[g] == no0[lab@[g] as int]);
                    }
                }
                net_of.set(r, next);
                next = next + 1;
            }
            pin_net.push(net_of[r]);
            proof {
                assert(pin_net@[g2 as int] == net_of@[r as int]);
            }
        } else {
            pin_net.push(NO_NET);
        }
        proof {
            assert forall|m: int| 0 <= m < next implies #[trigger] used_in(pin_net@, g2 as int + 1, m) by {
                if m == next - 1 && pin_net@[g2 as int] == m {
                } else {
                    assert(used_in(pn0, g2 as int, m));
                    let g = choose|g: int| 0 <= g < g2 && #[trigger] pn0[g] == m;
                    assert(pin_net@[g] == m);
                }
            }
        }
        g2 = g2 + 1;
    }
    // private nets of outputs left alone
    let base = next;
    let mut g3: usize = 0;
    while g3 < np
        invariant
            n == np + nw,
            np < 0x7FFF_FFFF,
            lab@.len() == n,
            is_out@.len() == np,
            net_of@.len() == n,
            pin_net@.len() == np,
            forall|i: int| 0 <= i < lab@.len() ==> (#[trigger] lab@[i]) < lab@.len(),
            base <= next,
            next <= base + g3,
            base <= np,
            g3 <= np,
            forall|r: int| 0 <= r < n ==> (#[trigger] net_of@[r] == NO_NET || net_of@[r] < base),
            forall|r1: int, r2: int|
                0 <= r1 < n && 0 <= r2 < n && r1 != r2 && #[trigger] net_of@[r1] != NO_NET ==> net_of@[r1]
                    != #[trigger] net_of@[r2],
            forall|g: int|
                0 <= g < np && conn_lab(lab@, np as int, nw as int, lab@[g] as int) ==> #[trigger] pin_net@[g]
                    == net_of@[lab@[g] as int] && net_of@[lab@[g] as int] != NO_NET,
            forall|g: int|
                g3 <= g < np && !conn_lab(lab@, np as int, nw as int, lab@[g] as int) ==> #[trigger] pin_net@[g] == NO_NET,
            forall|g: int|
                0 <= g < g3 && !conn_lab(lab@, np as int, nw as int, lab@[g] as int) && !is_out@[g] ==> #[trigger] pin_net@[g] == NO_NET,
            forall|g: int|
                0 <= g < g3 && !conn_lab(lab@, np as int, nw as int, lab@[g] as int) && is_out@[g] ==> base <= #[trigger] pin_net@[g] < next,
            forall|g: int| g3 <= g < np ==> !(base <= #[trigger] pin_net@[g] < next),
            forall|g1: int, g4: int|
                0 <= g1 < np && 0 <= g4 < np && g1 != g4 && base <= #[trigger] pin_net@[g1] < next ==> pin_net@[g1]
                    != #[trigger] pin_net@[g4],
            forall|m: int| 0 <= m < next ==> #[trigger] used_in(pin_net@, np as int, m),
        decreases np - g3,
    {
        if pin_net[g3] == NO_NET && is_out[g3] {
            let ghost pn0 = pin_net@;
            proof {
                assert(!conn_lab(lab@, np as int, nw as int, lab@[g3 as int] as int));
            }
            pin_net.set(g3, next);
            next = next + 1;
            proof {
                assert(pin_net@[g3 as int] == next - 1);
                assert forall|g: int|
                    0 <= g < np && conn_lab(lab@, np as int, nw as int, lab@[g] as int) implies #[trigger] pin_net@[g]
                    == net_of@[lab@[g] as int] && net_of@[lab@[g] as int] != NO_NET by {
                    assert(pn0[g] == net_of@[lab@[g] as int]);
                }
                assert forall|m: int| 0 <= m < next implies #[trigger] used_in(pin_net@, np as int, m) by {
                    if m < next - 1 {
                        assert(used_in(pn0, np as int, m));
                        let g = choose|g: int| 0 <= g < np && #[trigger] pn0[g] == m;
                        assert(pin_net@[g] == m);
                    } else {
                        assert(pin_net@[g3 as int] == m);
                    }
                }
            }
        }
        g3 = g3 + 1;
    }
    // wire nets
    let mut wire_net: Vec<u32> = Vec::new();
    let mut w2: usize = 0;
    while w2 < nw
        invariant
            n == np + nw,
            lab@.len() == n,
            forall|i: int| 0 <= i < lab@.len() ==> (#[trigger] lab@[i]) < lab@.len(),
            net_of@.len() == n,
            w2 <= nw,
            wire_net@.len() == w2,
            forall|w: int| 0 <= w < w2 ==> #[trigger] wire_net@[w] == net_of@[lab@[np + w] as int],
        decreases nw - w2,
    {
        wire_net.push(net_of[lab[np + w2] as usize]);
        w2 = w2 + 1;
    }
    (pin_net, wire_net, next, Ghost(net_of@), Ghost(base as int))
}

proof fn lemma_conn_if_other(lab: Seq<u32>, np: int, nw: int, u: int, v: int)
    requires
        lab.len() == np + nw,
        0 <= u < np + nw,
        0 <= v < np + nw,
        u != v,
        lab[u] == lab[v],
    ensures
        conn_lab(lab, np, nw, lab[u] as int),
{
    let r = lab[u] as int;
    if u >= np {
        assert(lab[np + (u - np)] == r);
    } else if v >= np {
        assert(lab[np + (v - np)] == r);
    } else if u < v {
        assert(lab[u] == r && lab[v] == r);
    } else {
        assert(lab[v] == r && lab[u] == r);
    }
}

proof fn lemma_node_ranges(b: Board)
    ensures
        forall|g: int| 0 <= g < npins(b) ==> 0 <= #[trigger] first_pin_at(b, pin_pos(b, g), 0) < npins(b),
        forall|l: int| #[trigger] label_live(b, l) ==> 0 <= label_node(b, l) < nnodes(b) && 0 <= label_node(
            b,
            first_same(b, l, 0),
        ) < nnodes(b),
{
    assert forall|g: int| 0 <= g < npins(b) implies 0 <= #[trigger] first_pin_at(b, pin_pos(b, g), 0) < npins(b) by {
        lemma_first_pin_at(b, pin_pos(b, g), 0, g);
    }
    assert forall|l: int| #[trigger] label_live(b, l) implies 0 <= label_node(b, l) < nnodes(b) && 0 <= label_node(
        b,
        first_same(b, l, 0),
    ) < nnodes(b) by {
        lemma_label_node_bounds(b, l);
        lemma_first_same_live(b, l);
        lemma_label_node_bounds(b, first_same(b, l, 0));
    }
}

proof fn lemma_compile_ok(b: Board, lab: Seq<u32>, nl: &Netlist, net_of: Seq<u32>, base: int)
    requires
        uf_inv(b, lab),
        wires_joined(b, lab),
        pins_joined(b, lab),
        labels_joined(b, lab),
        coincident_joined(b, lab),
        tables_ok(b, nl),
        numbered(lab, npins(b), b.wires@.len() as int, nl.pin_is_out@, nl.pin_net@, nl.wire_net@, nl.net_count, net_of, base),
    ensures
        netlist_ok(b, nl),
{
    let np = npins(b);
    let nw = b.wires@.len() as int;
    assert forall|n: int| 0 <= n < nl.net_count implies #[trigger] net_used(nl, np, n) by {
        assert(used_in(nl.pin_net@, np, n));
        let g = choose|g: int| 0 <= g < np && #[trigger] nl.pin_net@[g] == n;
    }
    assert forall|g: int| 0 <= g < np implies (#[trigger] nl.pin_net@[g] == NO_NET || nl.pin_net@[g] < nl.net_count) by {
    }
    assert forall|w: int| 0 <= w < nw implies (#[trigger] nl.wire_net@[w] == NO_NET || nl.wire_net@[w] < nl.net_count) by {
        assert(lab[np + w] < lab.len());
    }
    // a node whose class is connected carries the class net
    assert forall|u: int| 0 <= u < np + nw && (u >= np || conn_lab(lab, np, nw, lab[u] as int)) implies node_net(nl, np, u)
        == net_of[lab[u] as int] by {
        if u >= np {
            assert(nl.wire_net@[u - np] == net_of[lab[np + (u - np)] as int]);
        }
    }
    assert forall|u: int, v: int| #[trigger] linked(b, u, v) implies node_net(nl, np, u) == node_net(nl, np, v) by {
        lemma_linked_same(b, lab, u, v);
        if u != v {
            lemma_conn_if_other(lab, np, nw, u, v);
        }
    }
    assert forall|f: spec_fn(int) -> int| #[trigger] respects(b, f) implies forall|u: int, v: int|
        0 <= u < nnodes(b) && 0 <= v < nnodes(b) && #[trigger] node_net(nl, np, u) == #[trigger] node_net(nl, np, v)
            && node_net(nl, np, u) != NO_NET ==> f(u) == f(v) by {
        assert(refines(lab, f));
        assert forall|u: int, v: int|
            0 <= u < nnodes(b) && 0 <= v < nnodes(b) && #[trigger] node_net(nl, np, u) == #[trigger] node_net(nl, np, v)
                && node_net(nl, np, u) != NO_NET implies f(u) == f(v) by {
            let pu = u < np && !conn_lab(lab, np, nw, lab[u] as int);
            let pv = v < np && !conn_lab(lab, np, nw, lab[v] as int);
            if pu || pv {
                if u != v {
                    if pu && pv {
                    } else if pu {
                        assert(lab[v] < lab.len());
                        assert(node_net(nl, np, v) == net_of[lab[v] as int]);
                    } else {
                        assert(lab[u] < lab.len());
                        assert(node_net(nl, np, u) == net_of[lab[u] as int]);
                    }
                }
            } else {
                assert(lab[u] < lab.len() && lab[v] < lab.len());
                assert(node_net(nl, np, u) == net_of[lab[u] as int]);
                assert(node_net(nl, np, v) == net_of[lab[v] as int]);
                assert(lab[u] == lab[v]);
            }
        }
    }
    assert forall|g: int| 0 <= g < np implies (#[trigger] nl.pin_net@[g] == NO_NET <==> (!nl.pin_is_out@[g]
        && isolated(b, g))) by {
        if nl.pin_net@[g] == NO_NET {
            assert(!conn_lab(lab, np, nw, lab[g] as int));
            assert forall|v: int| #![trigger linked(b, g, v)] #![trigger linked(b, v, g)]
                (linked(b, g, v) || linked(b, v, g)) implies v == g by {
                if linked(b, g, v) {
                    lemma_linked_same(b, lab, g, v);
                } else {
                    lemma_linked_same(b, lab, v, g);
                }
                if v != g {
                    lemma_conn_if_other(lab, np, nw, g, v);
                }
            }
        }
        if !nl.pin_is_out@[g] && isolated(b, g) {
            let f = |x: int| if x == g { 0int } else { 1int };
            assert(respects(b, f)) by {
                assert forall|u: int, v: int| #[trigger] linked(b, u, v) implies f(u) == f(v) by {
                    if u == g {
                        assert(linked(b, g, v));
                    } else if v == g {
                        assert(linked(b, u, g));
                    }
                }
            }
            assert(refines(lab, f));
            if conn_lab(lab, np, nw, lab[g] as int) {
                if has_wire_lab(lab, np, nw, lab[g] as int) {
                    let w = choose|w: int| 0 <= w < nw && #[trigger] lab[np + w] == lab[g] as int;
                    assert(f(np + w) == f(g));
                } else {
                    let (g1, g2) = choose|g1: int, g2: int| 0 <= g1 < g2 < np && #[trigger] lab[g1] == lab[g] as int
                        && #[trigger] lab[g2] == lab[g] as int;
                    assert(f(g1) == f(g));
                    assert(f(g2) == f(g));
                }
            }
        }
    }
}

impl Board {
    /// Derives the netlist: nets are the classes of the connection rules
    /// (see `netlist_ok`).
    pub fn compile(&self) -> (nl: Netlist)
        requires
            self.wf(),
        ensures
            netlist_ok(*self, &nl),
    {
        let t = self.tables();
        let np = t.pos.len();
        let nw = self.wires.len();
        proof {
            assert(nw <= MAX_WIRES);
        }
        let n = np + nw;
        let mut lab: Vec<u32> = Vec::new();
        let mut i: usize = 0;
        while i < n
            invariant
                i <= n,
                n < 0xFFFF_FFFF,
                lab@.len() == i,
                forall|j: int| 0 <= j < i ==> #[trigger] lab@[j] == j,
            decreases n - i,
        {
            lab.push(i as u32);
            i = i + 1;
        }
        proof {
            assert forall|f: spec_fn(int) -> int| #[trigger] respects(*self, f) implies refines(lab@, f) by {
            }
            lemma_node_ranges(*self);
        }
        join_wires(&mut lab, self, np);
        join_pins(&mut lab, self, &t.pos, np);
        let ghost l1 = lab@;
        let mut nodes: Vec<i64> = Vec::new();
        let mut l: usize = 0;
        while l < self.labels.len()
            invariant
                self.wf(),
                l <= self.labels@.len(),
                np == npins(*self),
                t.pos@ == flat_points(self.instances@),
                nodes@.len() == l,
                forall|k: int| 0 <= k < l ==> #[trigger] nodes@[k] == label_node(*self, k),
            decreases self.labels@.len() - l,
        {
            nodes.push(self.label_node_exec(l, &t.pos, np));
            l = l + 1;
        }
        join_labels(&mut lab, self, &nodes);
        proof {
            lemma_keeps(*self, l1, lab@);
        }
        let ghost l2 = lab@;
        join_coincident(&mut lab, self, &t.pos, np);
        proof {
            lemma_keeps(*self, l2, lab@);
        }
        let (pin_net, wire_net, count, Ghost(net_of), Ghost(base)) = number_nets(&lab, np, nw, &t.pin_is_out);
        let nl = Netlist {
            pin_net,
            pin_owner: t.pin_owner,
            pin_slot: t.pin_slot,
            pin_start: t.pin_start,
            pin_width: t.pin_width,
            pin_is_out: t.pin_is_out,
            wire_net,
            net_count: count,
        };
        proof {
            lemma_compile_ok(*self, lab@, &nl, net_of, base);
        }
        nl
    }
}

} // verus!
