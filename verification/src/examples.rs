//! Built-in example circuits: starting points a user loads with one click,
//! and fixed fixtures for the checks.
use vstd::prelude::*;
use crate::board::{Board, MAX_WIRES, MAX_INSTANCES, pins_connected};
use crate::defs::{DefId, Params, default_params_spec};
use crate::values::normalized;
use crate::text::str_eq;

verus! {

/// One built-in example.
pub struct Example {
    pub id: &'static str,
    pub name: &'static str,
    pub note: &'static str,
}

/// Ids of the examples, in menu order.
pub open spec fn example_ids() -> Seq<Seq<char>> {
    seq!["half_adder"@, "sr_latch"@, "shift_reg"@, "counter4"@, "mux2"@]
}

/// Every example, in menu order.
pub fn all() -> (r: Vec<Example>)
    ensures
        r@.len() == 5,
        forall|i: int| 0 <= i < 5 ==> (#[trigger] r@[i]).id@ == example_ids()[i],
{
    let v = vec![
        Example { id: "half_adder", name: "NAND 半加器", note: "5 个 NAND 搭出 S=A⊕B 与 C=A·B；拨动两个开关看真值表" },
        Example { id: "sr_latch", name: "NAND 锁存器", note: "低有效置位/复位，松开后自锁保持（组合反馈，导出 Verilog 前需改造）" },
        Example { id: "shift_reg", name: "三级移位寄存器", note: "每个时钟上升沿把数据往后推一级" },
        Example { id: "counter4", name: "4 位计数器", note: "计数器 + 级联 Splitter 逐位拆开 + 四个探针" },
        Example { id: "mux2", name: "2 选 1 数据选择器", note: "MUX 用选择脚在两个字节间切换" },
    ];
    proof {
        assert(v@[0].id@ == example_ids()[0]);
        assert(v@[1].id@ == example_ids()[1]);
        assert(v@[2].id@ == example_ids()[2]);
        assert(v@[3].id@ == example_ids()[3]);
        assert(v@[4].id@ == example_ids()[4]);
    }
    v
}

/// The ids of every example (for listing).
pub fn ids() -> (r: Vec<&'static str>)
    ensures
        r@.len() == 5,
        forall|i: int| 0 <= i < 5 ==> (#[trigger] r@[i])@ == example_ids()[i],
{
    let all = all();
    let mut r: Vec<&'static str> = Vec::new();
    let mut i: usize = 0;
    while i < all.len()
        invariant
            all@.len() == 5,
            forall|j: int| 0 <= j < 5 ==> (#[trigger] all@[j]).id@ == example_ids()[j],
            i <= 5,
            r@.len() == i,
            forall|j: int| 0 <= j < i ==> (#[trigger] r@[j])@ == example_ids()[j],
        decreases 5 - i,
    {
        r.push(all[i].id);
        i = i + 1;
    }
    r
}

/// Kind, parameters and position of instance `i`.
pub open spec fn part(b: Board, i: int) -> (DefId, Params, i32, i32) {
    let it = b.instances@[i];
    (it.def, it.params, it.x, it.y)
}

pub open spec fn parts(b: Board) -> Seq<(DefId, Params, i32, i32)> {
    Seq::new(b.instances@.len(), |i: int| part(b, i))
}

pub open spec fn w(n: u32) -> Params {
    Params { width: normalized(n), ..default_params_spec() }
}

pub open spec fn nand2() -> Params {
    Params { inputs: 2, ..w(1) }
}

pub open spec fn reg1() -> Params {
    Params { opts: 0, ..w(1) }
}

/// The instances each example is made of, in order.
pub open spec fn example_parts(id: Seq<char>) -> Option<Seq<(DefId, Params, i32, i32)>> {
    if id == "half_adder"@ {
        Some(seq![
            (DefId::Switch, w(1), 0i32, 0i32),
            (DefId::Switch, w(1), 0i32, 8i32),
            (DefId::Nand, nand2(), 7i32, 0i32),
            (DefId::Nand, nand2(), 7i32, 4i32),
            (DefId::Nand, nand2(), 7i32, 8i32),
            (DefId::Nand, nand2(), 14i32, 3i32),
            (DefId::Nand, nand2(), 14i32, 10i32),
            (DefId::Led, w(1), 22i32, 3i32),
            (DefId::Led, w(1), 22i32, 10i32),
        ])
    } else if id == "sr_latch"@ {
        Some(seq![
            (DefId::Switch, w(1), 0i32, 0i32),
            (DefId::Switch, w(1), 0i32, 8i32),
            (DefId::Nand, nand2(), 7i32, 0i32),
            (DefId::Nand, nand2(), 7i32, 8i32),
            (DefId::Led, w(1), 16i32, 1i32),
            (DefId::Led, w(1), 16i32, 9i32),
        ])
    } else if id == "shift_reg"@ {
        Some(seq![
            (DefId::Clock, w(1), 0i32, 0i32),
            (DefId::Switch, w(1), 0i32, 8i32),
            (DefId::Register, reg1(), 8i32, 0i32),
            (DefId::Register, reg1(), 16i32, 0i32),
            (DefId::Register, reg1(), 24i32, 0i32),
            (DefId::Led, w(1), 32i32, 1i32),
        ])
    } else if id == "counter4"@ {
        Some(seq![
            (DefId::Clock, w(1), 0i32, 0i32),
            (DefId::Counter, Params { opts: 0, ..w(4) }, 8i32, 0i32),
            (DefId::Splitter, Params { value: 1, ..w(4) }, 16i32, 0i32),
            (DefId::Led, w(1), 24i32, 0i32),
            (DefId::Splitter, Params { width: 3, value: 1, ..default_params_spec() }, 22i32, 4i32),
            (DefId::Led, w(1), 28i32, 4i32),
            (DefId::Splitter, Params { width: 2, value: 1, ..default_params_spec() }, 28i32, 8i32),
            (DefId::Led, w(1), 34i32, 8i32),
            (DefId::Led, w(1), 34i32, 12i32),
        ])
    } else if id == "mux2"@ {
        Some(seq![
            (DefId::Switch, w(8), 0i32, 0i32),
            (DefId::Switch, w(8), 0i32, 6i32),
            (DefId::Switch, w(1), 0i32, 12i32),
            (DefId::Mux, Params { inputs: 2, ..w(8) }, 10i32, 0i32),
            (DefId::Led, w(8), 20i32, 0i32),
        ])
    } else {
        None
    }
}

proof fn lemma_ids_distinct()
    ensures
        "half_adder"@ != "sr_latch"@,
        "half_adder"@ != "shift_reg"@,
        "half_adder"@ != "counter4"@,
        "half_adder"@ != "mux2"@,
        "sr_latch"@ != "shift_reg"@,
        "sr_latch"@ != "counter4"@,
        "sr_latch"@ != "mux2"@,
        "shift_reg"@ != "counter4"@,
        "shift_reg"@ != "mux2"@,
        "counter4"@ != "mux2"@,
{
    reveal_strlit("half_adder");
    reveal_strlit("sr_latch");
    reveal_strlit("shift_reg");
    reveal_strlit("counter4");
    reveal_strlit("mux2");
    assert("half_adder"@[0] != "sr_latch"@[0]);
    assert("half_adder"@[0] != "shift_reg"@[0]);
    assert("half_adder"@[0] != "counter4"@[0]);
    assert("half_adder"@[0] != "mux2"@[0]);
    assert("sr_latch"@[1] != "shift_reg"@[1]);
    assert("sr_latch"@[0] != "counter4"@[0]);
    assert("sr_latch"@[0] != "mux2"@[0]);
    assert("shift_reg"@[0] != "counter4"@[0]);
    assert("shift_reg"@[0] != "mux2"@[0]);
    assert("counter4"@[0] != "mux2"@[0]);
}

/// Connects two pins (with the board's automatic routing), whatever the
/// outcome.
fn wire(b: &mut Board, from: (u32, usize), to: (u32, usize))
    requires
        old(b).wf(),
        old(b).wires@.len() < MAX_WIRES,
    ensures
        final(b).wf(),
        final(b).instances@ == old(b).instances@,
        final(b).wires@.len() <= old(b).wires@.len() + 1,
        exists|r: bool| #[trigger] pins_connected(*old(b), *final(b), from, to, r),
{
    let r = b.connect_pins(from, to);
    assert(pins_connected(*old(b), *b, from, to, r));
}

fn sw1() -> (p: Params)
    ensures
        p == w(1),
{
    Params::default().width(1)
}

fn nand() -> (p: Params)
    ensures
        p == nand2(),
{
    Params::default().width(1).inputs(2)
}

fn half_adder() -> (b: Board)
    ensures
        b.wf(),
        Some(parts(b)) == example_parts("half_adder"@),
{
    let mut b = Board::new();
    let a = b.add_instance(DefId::Switch, sw1(), 0, 0);
    let c = b.add_instance(DefId::Switch, sw1(), 0, 8);
    let n1 = b.add_instance(DefId::Nand, nand(), 7, 0);
    let n2 = b.add_instance(DefId::Nand, nand(), 7, 4);
    let n3 = b.add_instance(DefId::Nand, nand(), 7, 8);
    let xor = b.add_instance(DefId::Nand, nand(), 14, 3);
    let and_g = b.add_instance(DefId::Nand, nand(), 14, 10);
    let led_s = b.add_instance(DefId::Led, sw1(), 22, 3);
    let led_c = b.add_instance(DefId::Led, sw1(), 22, 10);
    let ghost insts = b.instances@;
    wire(&mut b, (a, 0), (n1, 0));
    wire(&mut b, (c, 0), (n1, 1));
    wire(&mut b, (a, 0), (n2, 0));
    wire(&mut b, (n1, 2), (n2, 1));
    wire(&mut b, (c, 0), (n3, 0));
    wire(&mut b, (n1, 2), (n3, 1));
    wire(&mut b, (n2, 2), (xor, 0));
    wire(&mut b, (n3, 2), (xor, 1));
    wire(&mut b, (n1, 2), (and_g, 0));
    wire(&mut b, (n1, 2), (and_g, 1));
    wire(&mut b, (xor, 2), (led_s, 0));
    wire(&mut b, (and_g, 2), (led_c, 0));
    proof {
        lemma_ids_distinct();
        assert(parts(b) =~= example_parts("half_adder"@).unwrap());
    }
    b
}

fn sr_latch() -> (b: Board)
    ensures
        b.wf(),
        Some(parts(b)) == example_parts("sr_latch"@),
{
    let mut b = Board::new();
    let sbar = b.add_instance(DefId::Switch, sw1(), 0, 0);
    let rbar = b.add_instance(DefId::Switch, sw1(), 0, 8);
    let g1 = b.add_instance(DefId::Nand, nand(), 7, 0);
    let g2 = b.add_instance(DefId::Nand, nand(), 7, 8);
    let led_q = b.add_instance(DefId::Led, sw1(), 16, 1);
    let led_qb = b.add_instance(DefId::Led, sw1(), 16, 9);
    wire(&mut b, (sbar, 0), (g1, 0));
    wire(&mut b, (g2, 2), (g1, 1));
    wire(&mut b, (rbar, 0), (g2, 0));
    wire(&mut b, (g1, 2), (g2, 1));
    wire(&mut b, (g1, 2), (led_q, 0));
    wire(&mut b, (g2, 2), (led_qb, 0));
    proof {
        lemma_ids_distinct();
        assert(parts(b) =~= example_parts("sr_latch"@).unwrap());
    }
    b
}

fn shift_reg() -> (b: Board)
    ensures
        b.wf(),
        Some(parts(b)) == example_parts("shift_reg"@),
{
    let mut b = Board::new();
    let clk = b.add_instance(DefId::Clock, sw1(), 0, 0);
    let d = b.add_instance(DefId::Switch, sw1(), 0, 8);
    let r1 = b.add_instance(DefId::Register, Params::default().width(1).opts(0), 8, 0);
    let r2 = b.add_instance(DefId::Register, Params::default().width(1).opts(0), 16, 0);
    let r3 = b.add_instance(DefId::Register, Params::default().width(1).opts(0), 24, 0);
    let out = b.add_instance(DefId::Led, sw1(), 32, 1);
    wire(&mut b, (clk, 0), (r1, 1));
    wire(&mut b, (clk, 0), (r2, 1));
    wire(&mut b, (clk, 0), (r3, 1));
    wire(&mut b, (d, 0), (r1, 0));
    wire(&mut b, (r1, 2), (r2, 0));
    wire(&mut b, (r2, 2), (r3, 0));
    wire(&mut b, (r3, 2), (out, 0));
    proof {
        lemma_ids_distinct();
        assert(parts(b) =~= example_parts("shift_reg"@).unwrap());
    }
    b
}

fn counter4() -> (b: Board)
    ensures
        b.wf(),
        Some(parts(b)) == example_parts("counter4"@),
{
    let mut b = Board::new();
    let clk = b.add_instance(DefId::Clock, sw1(), 0, 0);
    let cnt = b.add_instance(DefId::Counter, Params::default().width(4).opts(0), 8, 0);
    let sp = b.add_instance(DefId::Splitter, Params { value: 1, ..Params::default().width(4) }, 16, 0);
    let l0 = b.add_instance(DefId::Led, sw1(), 24, 0);
    let sp2 = b.add_instance(DefId::Splitter, Params { width: 3, value: 1, ..Params::default() }, 22, 4);
    let l1 = b.add_instance(DefId::Led, sw1(), 28, 4);
    let sp3 = b.add_instance(DefId::Splitter, Params { width: 2, value: 1, ..Params::default() }, 28, 8);
    let l2 = b.add_instance(DefId::Led, sw1(), 34, 8);
    let l3 = b.add_instance(DefId::Led, sw1(), 34, 12);
    wire(&mut b, (clk, 0), (cnt, 0));
    wire(&mut b, (cnt, 1), (sp, 0));
    wire(&mut b, (sp, 1), (l0, 0));
    wire(&mut b, (sp, 2), (sp2, 0));
    wire(&mut b, (sp2, 1), (l1, 0));
    wire(&mut b, (sp2, 2), (sp3, 0));
    wire(&mut b, (sp3, 1), (l2, 0));
    wire(&mut b, (sp3, 2), (l3, 0));
    proof {
        lemma_ids_distinct();
        assert(parts(b) =~= example_parts("counter4"@).unwrap());
    }
    b
}

fn mux2() -> (b: Board)
    ensures
        b.wf(),
        Some(parts(b)) == example_parts("mux2"@),
{
    let mut b = Board::new();
    let d0 = b.add_instance(DefId::Switch, Params::default().width(8), 0, 0);
    let d1 = b.add_instance(DefId::Switch, Params::default().width(8), 0, 6);
    let sel = b.add_instance(DefId::Switch, sw1(), 0, 12);
    let mux = b.add_instance(DefId::Mux, Params::default().width(8).inputs(2), 10, 0);
    let out = b.add_instance(DefId::Led, Params::default().width(8), 20, 0);
    wire(&mut b, (d0, 0), (mux, 0));
    wire(&mut b, (d1, 0), (mux, 1));
    wire(&mut b, (sel, 0), (mux, 2));
    wire(&mut b, (mux, 3), (out, 0));
    proof {
        lemma_ids_distinct();
        assert(parts(b) =~= example_parts("mux2"@).unwrap());
    }
    b
}

/// Builds the example with id `id`; `None` for an unknown id.
pub fn build(id: &str) -> (r: Option<Board>)
    ensures
        r is Some <==> example_parts(id@) is Some,
        r is Some ==> r->0.wf() && Some(parts(r->0)) == example_parts(id@),
{
    proof {
        lemma_ids_distinct();
    }
    if str_eq(id, "half_adder") {
        Some(half_adder())
    } else if str_eq(id, "sr_latch") {
        Some(sr_latch())
    } else if str_eq(id, "shift_reg") {
        Some(shift_reg())
    } else if str_eq(id, "counter4") {
        Some(counter4())
    } else if str_eq(id, "mux2") {
        Some(mux2())
    } else {
        None
    }
}

} // verus!
