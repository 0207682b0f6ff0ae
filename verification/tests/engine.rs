use logiclab::board::{Board, NO_NET};
use logiclab::defs::{DefId, Params, OPT_CARRY};
use logiclab::engine::Engine;
use logiclab::values::Bit;

fn connect(b: &mut Board, from: (u32, usize), to: (u32, usize)) {
    assert!(b.connect_pins(from, to), "link failed: {from:?} -> {to:?}");
}

#[test]
fn nand_gate_propagates_in_one_tick() {
    let mut b = Board::new();
    let a = b.add_instance(DefId::Switch, Params::default().width(1), 0, 0);
    let c = b.add_instance(DefId::Switch, Params::default().width(1), 0, 2);
    let g = b.add_instance(DefId::Nand, Params::default().width(1).inputs(2), 4, 0);
    let out = b.add_instance(DefId::Led, Params::default().width(1), 8, 0);
    connect(&mut b, (a, 0), (g, 0));
    connect(&mut b, (c, 0), (g, 1));
    connect(&mut b, (g, 2), (out, 0));

    let mut e = Engine::new();
    e.load_board(&b);
    e.set_input(a, 1);
    e.set_input(c, 1);
    e.tick();
    assert_eq!(e.instance_output(g, 0).get(1), 1, "the first tick reads the power-on zeros");
    e.tick();
    assert_eq!(e.instance_output(g, 0).get(1), 0, "the second tick reads A=1, B=1");
    e.set_input(c, 0);
    e.tick();
    assert_eq!(e.instance_output(g, 0).get(1), 0, "a change does not propagate within its tick");
    e.tick();
    assert_eq!(e.instance_output(g, 0).get(1), 1, "one tick later the NAND output flips");
}

#[test]
fn nand_sr_latch_holds_state() {
    let mut b = Board::new();
    let sbar = b.add_instance(DefId::Switch, Params::default().width(1), 0, 0);
    let rbar = b.add_instance(DefId::Switch, Params::default().width(1), 0, 6);
    let p = Params::default().width(1).inputs(2);
    let g1 = b.add_instance(DefId::Nand, p, 6, 0);
    let g2 = b.add_instance(DefId::Nand, p, 6, 6);
    connect(&mut b, (sbar, 0), (g1, 0));
    connect(&mut b, (g2, 2), (g1, 1));
    connect(&mut b, (rbar, 0), (g2, 0));
    connect(&mut b, (g1, 2), (g2, 1));

    let mut e = Engine::new();
    e.load_board(&b);
    e.set_input(sbar, 0);
    e.set_input(rbar, 1);
    e.run_for(6);
    assert_eq!(e.instance_output(g1, 0).get(1), 1, "Q=1 after set");
    assert_eq!(e.instance_output(g2, 0).get(1), 0, "Qbar=0");

    e.set_input(sbar, 1);
    e.run_for(6);
    assert_eq!(e.instance_output(g1, 0).get(1), 1, "holds Q=1");
    assert_eq!(e.instance_output(g2, 0).get(1), 0, "holds Qbar=0");

    e.set_input(rbar, 0);
    e.run_for(6);
    assert_eq!(e.instance_output(g1, 0).get(1), 0, "Q=0 after reset");
    assert_eq!(e.instance_output(g2, 0).get(1), 1, "Qbar=1 after reset");
}

#[test]
fn ring_oscillator_oscillates() {
    let mut b = Board::new();
    let g1 = b.add_instance(DefId::Not, Params::default().width(1), 0, 0);
    let g2 = b.add_instance(DefId::Not, Params::default().width(1), 4, 0);
    let g3 = b.add_instance(DefId::Not, Params::default().width(1), 8, 0);
    connect(&mut b, (g1, 1), (g2, 0));
    connect(&mut b, (g2, 1), (g3, 0));
    connect(&mut b, (g3, 1), (g1, 0));

    let mut e = Engine::new();
    e.load_board(&b);
    let mut seq = Vec::new();
    for _ in 0..8 {
        e.tick();
        seq.push(e.instance_output(g1, 0).get(1));
    }
    assert_eq!(seq, vec![1, 0, 1, 0, 1, 0, 1, 0], "from the symmetric start every stage flips each tick");
}

fn shifter_board() -> Board {
    let mut b = Board::new();
    let clk = b.add_instance(DefId::Clock, Params::default().width(1), 0, 0);
    let d = b.add_instance(DefId::Switch, Params::default().width(1), 0, 4);
    let r1 = b.add_instance(DefId::Register, Params::default().width(1).opts(0), 4, 0);
    let r2 = b.add_instance(DefId::Register, Params::default().width(1).opts(0), 8, 0);
    connect(&mut b, (clk, 0), (r1, 1));
    connect(&mut b, (d, 0), (r1, 0));
    connect(&mut b, (clk, 0), (r2, 1));
    connect(&mut b, (r1, 2), (r2, 0));
    b
}

fn out_at(b: &Board, e: &Engine, x: i32, y: i32, slot: usize) -> u32 {
    let idx = b.instances.iter().position(|it| it.x == x && it.y == y).expect("no component there");
    e.instance_output(idx as u32, slot).get(1)
}

fn trace(b: &Board, shuffle: bool) -> Vec<(u32, u32)> {
    let mut board = shifter_board();
    if shuffle {
        board.instances.reverse();
    }
    let mut e = Engine::new();
    e.load_board(&board);
    let (dx, dy) = (0, 4);
    let mut out = Vec::new();
    for i in 0..40 {
        if i == 5 {
            e.set_input(board.instances.iter().position(|it| it.x == dx && it.y == dy).unwrap() as u32, 1);
        }
        if i == 25 {
            e.set_input(board.instances.iter().position(|it| it.x == dx && it.y == dy).unwrap() as u32, 0);
        }
        e.tick();
        out.push((out_at(&board, &e, 4, 0, 0), out_at(&board, &e, 8, 0, 0)));
    }
    let _ = b;
    out
}

#[test]
fn same_circuit_replays_identically() {
    let a = trace(&shifter_board(), false);
    let b = trace(&shifter_board(), false);
    assert_eq!(a, b, "the same circuit and inputs replay tick for tick");
    assert!(a.iter().any(|&(q1, _)| q1 == 1), "the wave is not all zero");
}

#[test]
fn instance_order_does_not_affect_behaviour() {
    let normal = trace(&shifter_board(), false);
    let shuffled = trace(&shifter_board(), true);
    assert_eq!(normal, shuffled, "instance order must not change the result");
}

#[test]
fn dirty_propagation_skips_idle_components() {
    let mut b = Board::new();
    let sw = b.add_instance(DefId::Switch, Params::default().width(1), 0, 0);
    let g = b.add_instance(DefId::And, Params::default().width(1).inputs(2), 4, 0);
    connect(&mut b, (sw, 0), (g, 0));

    let mut e = Engine::new();
    e.load_board(&b);
    e.tick();
    assert_eq!(e.last_eval_count(), 2, "the first tick evaluates everything");
    e.tick();
    e.tick();
    assert_eq!(e.last_eval_count(), 0, "nothing changed, nothing evaluated");

    e.set_input(sw, 1);
    e.tick();
    assert_eq!(e.last_eval_count(), 1, "only the switch that was set");
    e.tick();
    assert_eq!(e.last_eval_count(), 1, "the change reaches the AND");
    e.tick();
    assert_eq!(e.last_eval_count(), 0, "quiet again once it has spread");
}

#[test]
fn clock_drives_register_chain() {
    let mut b = Board::new();
    let clk = b.add_instance(DefId::Clock, Params::default().width(1), 0, 0);
    let d = b.add_instance(DefId::Switch, Params::default().width(1), 0, 4);
    let r1 = b.add_instance(DefId::Register, Params::default().width(1).opts(0), 4, 0);
    let r2 = b.add_instance(DefId::Register, Params::default().width(1).opts(0), 8, 0);
    connect(&mut b, (clk, 0), (r1, 1));
    connect(&mut b, (d, 0), (r1, 0));
    connect(&mut b, (clk, 0), (r2, 1));
    connect(&mut b, (r1, 2), (r2, 0));

    let mut e = Engine::new();
    e.load_board(&b);
    e.set_input(d, 1);
    e.run_for(40);
    assert_eq!(e.instance_output(r1, 0).get(1), 1);
    assert_eq!(e.instance_output(r2, 0).get(1), 1);
}

#[test]
fn multi_bit_adder_end_to_end() {
    let mut b = Board::new();
    let a = b.add_instance(DefId::Constant, Params { width: 8, value: 200, ..Default::default() }, 0, 0);
    let c = b.add_instance(DefId::Constant, Params { width: 8, value: 100, ..Default::default() }, 0, 4);
    let add = b.add_instance(DefId::Adder, Params::default().width(8).opts(OPT_CARRY), 4, 0);
    connect(&mut b, (a, 0), (add, 0));
    connect(&mut b, (c, 0), (add, 1));

    let mut e = Engine::new();
    e.load_board(&b);
    e.run_for(3);
    assert_eq!(e.instance_output(add, 0).get(8), 44, "200+100 wraps to 44");
    assert_eq!(e.instance_output(add, 1).get(1), 1, "carry is 1");
}

#[test]
fn unconnected_input_reads_zero() {
    let mut b = Board::new();
    let g = b.add_instance(DefId::And, Params::default().width(1).inputs(2), 0, 0);
    let mut e = Engine::new();
    e.load_board(&b);
    e.run_for(3);
    assert_eq!(e.instance_output(g, 0).get(1), 0);
}

#[test]
fn nets_are_derived_from_wires_and_values_flow() {
    let mut b = Board::new();
    let sw = b.add_instance(DefId::Switch, Params::default().width(1), 0, 0);
    let buf = b.add_instance(DefId::Buffer, Params::default().width(1), 6, 0);
    connect(&mut b, (sw, 0), (buf, 0));
    let mut e = Engine::new();
    e.load_board(&b);
    assert_ne!(e.net_of_pin(0), NO_NET);
    assert_eq!(e.net_of_pin(0), e.net_of_pin(1), "switch output and buffer input share a net");
    e.set_input(sw, 1);
    e.run_for(3);
    assert_eq!(e.instance_output(buf, 0).get(1), 1);
}

#[test]
fn reset_returns_to_power_on_state() {
    let mut b = Board::new();
    let sw = b.add_instance(DefId::Switch, Params::default().width(1), 0, 0);
    let buf = b.add_instance(DefId::Buffer, Params::default().width(1), 6, 0);
    connect(&mut b, (sw, 0), (buf, 0));
    let mut e = Engine::new();
    e.load_board(&b);
    e.set_input(sw, 1);
    e.run_for(3);
    assert_eq!(e.instance_output(buf, 0).bit(0), Bit::One);
    e.reset();
    assert_eq!(e.tick_count(), 0);
    assert_eq!(e.instance_output(buf, 0).get(1), 0);
}

#[test]
fn ram_round_trip_through_engine() {
    let mut b = Board::new();
    let addr = b.add_instance(DefId::Constant, Params { width: 4, value: 5, ..Default::default() }, 0, 0);
    let din = b.add_instance(DefId::Constant, Params { width: 8, value: 0x5A, ..Default::default() }, 0, 4);
    let we = b.add_instance(DefId::Switch, Params::default().width(1), 0, 8);
    let clk = b.add_instance(DefId::Clock, Params::default().width(1), 0, 12);
    let ram = b.add_instance(DefId::Ram, Params::default().width(8).depth(16), 6, 0);
    connect(&mut b, (addr, 0), (ram, 0));
    connect(&mut b, (din, 0), (ram, 1));
    connect(&mut b, (we, 0), (ram, 2));
    connect(&mut b, (clk, 0), (ram, 3));

    let mut e = Engine::new();
    e.load_board(&b);
    e.set_input(we, 1);
    e.run_for(10);
    e.set_input(we, 0);
    e.run_for(4);
    assert_eq!(e.instance_output(ram, 0).get(8), 0x5A);
}

// Further checks of the simulation.

#[test]
fn tick_count_saturates_by_steps() {
    let mut e = Engine::new();
    e.load_board(&Board::new());
    e.run_for(5);
    assert_eq!(e.tick_count(), 5);
    e.tick();
    assert_eq!(e.tick_count(), 6);
}

#[test]
fn load_counts_components_and_nets() {
    let mut b = Board::new();
    let sw = b.add_instance(DefId::Switch, Params::default().width(1), 0, 0);
    let led = b.add_instance(DefId::Led, Params::default().width(1), 10, 0);
    connect(&mut b, (sw, 0), (led, 0));
    let mut e = Engine::new();
    e.load_board(&b);
    assert_eq!(e.component_count(), 1, "an LED only observes");
    assert_eq!(e.net_count(), 1);
    assert_eq!(e.pin_count(), 2);
}
