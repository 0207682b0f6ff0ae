use logiclab::defs::{eval, CompState, DefId, Dir, ParamKind, Params, OPT_CARRY, OPT_ENABLE, OPT_RESET};
use logiclab::values::{normalize_width, Bit, NetValue};

#[test]
fn pin_layout_matches_counts() {
    for def in DefId::all() {
        let p = def.default_params();
        let pins = def.pins(&p);
        let ins = pins.iter().filter(|x| x.dir == Dir::In).count();
        let outs = pins.iter().filter(|x| x.dir == Dir::Out).count();
        assert_eq!(ins, def.in_count(&p), "{def:?} input count differs");
        assert_eq!(outs, def.out_count(&p), "{def:?} output count differs");
    }
}

#[test]
fn pin_layout_matches_counts_for_variants() {
    let widths = [1u8, 4, 8, 16, 32];
    for def in DefId::all() {
        for &w in &widths {
            let mut p = def.default_params();
            p.width = normalize_width(w as u32);
            let pins = def.pins(&p);
            assert_eq!(pins.iter().filter(|x| x.dir == Dir::In).count(), def.in_count(&p), "{def:?} w={w} input count differs");
            assert_eq!(pins.iter().filter(|x| x.dir == Dir::Out).count(), def.out_count(&p), "{def:?} w={w} output count differs");
        }
        if def.has_input_count() {
            for n in 2u8..=8 {
                let mut p = def.default_params();
                p.inputs = n;
                let pins = def.pins(&p);
                assert_eq!(pins.iter().filter(|x| x.dir == Dir::In).count(), def.in_count(&p), "{def:?} n={n} input count differs");
            }
        }
    }
}

fn one(def: DefId, p: &Params, ins: &[NetValue]) -> NetValue {
    let mut st = CompState::default();
    let mut outs = vec![NetValue::zero(); def.out_count(p)];
    eval(def, p, ins, &mut st, &mut outs);
    outs[0]
}

#[test]
fn gates_cover_all_input_combinations() {
    for n in 2..=3u8 {
        let p = DefId::And.default_params().inputs(n).width(1);
        for mask in 0u32..(1 << n) {
            let ins: Vec<NetValue> = (0..n).map(|i| NetValue::from_bit(mask & (1 << i) != 0)).collect();
            let bit = |i: usize| ins[i].get(1) != 0;
            let all = (0..n as usize).all(bit);
            let any = (0..n as usize).any(bit);
            let odd = (0..n as usize).filter(|&i| bit(i)).count() % 2 == 1;
            for (def, want) in [
                (DefId::And, all),
                (DefId::Nand, !all),
                (DefId::Or, any),
                (DefId::Nor, !any),
                (DefId::Xor, odd),
                (DefId::Xnor, !odd),
            ] {
                assert_eq!(one(def, &p, &ins).get(1), u32::from(want), "{def:?} wrong at n={n} mask={mask:b}");
            }
            assert_eq!(one(DefId::Not, &p, &ins[..1]).get(1), u32::from(!bit(0)));
            assert_eq!(one(DefId::Buffer, &p, &ins[..1]).get(1), u32::from(bit(0)));
        }
    }
}

#[test]
fn multi_bit_gates_are_bitwise() {
    let p = DefId::And.default_params().width(8);
    let a = NetValue::from_u32(0xF0, 8);
    let b = NetValue::from_u32(0x3C, 8);
    assert_eq!(one(DefId::And, &p, &[a, b]).get(8), 0x30);
    assert_eq!(one(DefId::Or, &p, &[a, b]).get(8), 0xFC);
    assert_eq!(one(DefId::Xor, &p, &[a, b]).get(8), 0xCC);
}

#[test]
fn splitter_merger_are_inverse() {
    let ps = Params { value: 4, ..DefId::Splitter.default_params().width(8) };
    let pm = Params { value: 4, ..DefId::Merger.default_params().width(8) };
    let v = NetValue::from_u32(0xB7, 8);
    let mut st = CompState::default();
    let mut parts = vec![NetValue::zero(); 2];
    eval(DefId::Splitter, &ps, &[v], &mut st, &mut parts);
    assert_eq!(parts[0].get(4), 0x7, "LO is the low 4 bits");
    assert_eq!(parts[1].get(4), 0xB, "HI is the high 4 bits");
    let mut merged = vec![NetValue::zero(); 1];
    eval(DefId::Merger, &pm, &parts, &mut st, &mut merged);
    assert_eq!(merged[0].get(8), 0xB7, "split then merged gives the value back");
}

#[test]
fn splitter_supports_uneven_segments() {
    let ps = Params { value: 3, ..DefId::Splitter.default_params().width(8) };
    let pm = Params { value: 3, ..DefId::Merger.default_params().width(8) };
    let v = NetValue::from_u32(0b1011_0101, 8);
    let mut st = CompState::default();
    let mut parts = vec![NetValue::zero(); 2];
    eval(DefId::Splitter, &ps, &[v], &mut st, &mut parts);
    assert_eq!(parts[0].get(3), 0b101);
    assert_eq!(parts[1].get(5), 0b10110);
    let mut merged = vec![NetValue::zero(); 1];
    eval(DefId::Merger, &pm, &parts, &mut st, &mut merged);
    assert_eq!(merged[0].get(8), 0b1011_0101);
}

#[test]
fn mux_selects_channel() {
    let p = DefId::Mux.default_params().width(8).inputs(4);
    let ins = [
        NetValue::from_u32(10, 8),
        NetValue::from_u32(20, 8),
        NetValue::from_u32(30, 8),
        NetValue::from_u32(40, 8),
        NetValue::from_u32(2, 8),
    ];
    assert_eq!(one(DefId::Mux, &p, &ins).get(8), 30);
}

#[test]
fn adder_carries_out_and_wraps() {
    let p = DefId::Adder.default_params().width(8).opts(OPT_CARRY);
    let mut st = CompState::default();
    let mut outs = vec![NetValue::zero(); 2];
    eval(DefId::Adder, &p, &[NetValue::from_u32(200, 8), NetValue::from_u32(100, 8), NetValue::zero()], &mut st, &mut outs);
    assert_eq!(outs[0].get(8), 44);
    assert_eq!(outs[1].get(1), 1);
}

#[test]
fn comparator_distinguishes_signed_and_unsigned() {
    let p = DefId::Comparator.default_params().width(8);
    let mut st = CompState::default();
    let mut outs = vec![NetValue::zero(); 3];
    eval(DefId::Comparator, &p, &[NetValue::from_u32(0xFF, 8), NetValue::from_u32(1, 8)], &mut st, &mut outs);
    assert_eq!(outs[0].get(1), 0, "EQ is 0");
    assert_eq!(outs[1].get(1), 1, "signed -1 < 1");
    assert_eq!(outs[2].get(1), 0, "unsigned 255 < 1 is false");
}

#[test]
fn alu_ops() {
    let p = DefId::Alu.default_params().width(8);
    let run = |op: u32| {
        one(DefId::Alu, &p, &[NetValue::from_u32(12, 8), NetValue::from_u32(10, 8), NetValue::from_u32(op, 4)]).get(8)
    };
    assert_eq!(run(0), 22);
    assert_eq!(run(1), 2);
    assert_eq!(run(2), 8);
    assert_eq!(run(3), 14);
    assert_eq!(run(4), 6);
    assert_eq!(run(5), 243);
    assert_eq!(run(8), 12u32.wrapping_shl(10) & 0xFF);
}

#[test]
fn register_latches_on_rising_edge_only() {
    let p = DefId::Register.default_params().width(8).opts(0);
    let mut st = CompState::default();
    let mut outs = vec![NetValue::zero(); 1];
    let d = NetValue::from_u32(0x5A, 8);
    eval(DefId::Register, &p, &[d, NetValue::zero()], &mut st, &mut outs);
    assert_eq!(outs[0].get(8), 0);
    eval(DefId::Register, &p, &[d, NetValue::one()], &mut st, &mut outs);
    assert_eq!(outs[0].get(8), 0x5A);
    eval(DefId::Register, &p, &[NetValue::from_u32(0x11, 8), NetValue::one()], &mut st, &mut outs);
    assert_eq!(outs[0].get(8), 0x5A);
    eval(DefId::Register, &p, &[d, NetValue::zero()], &mut st, &mut outs);
    assert_eq!(outs[0].get(8), 0x5A);
    eval(DefId::Register, &p, &[NetValue::from_u32(0x11, 8), NetValue::one()], &mut st, &mut outs);
    assert_eq!(outs[0].get(8), 0x11);
}

#[test]
fn register_enable_gates_latch() {
    let p = DefId::Register.default_params().width(8).opts(OPT_ENABLE);
    let mut st = CompState::default();
    let mut outs = vec![NetValue::zero(); 1];
    let d = NetValue::from_u32(0x77, 8);
    eval(DefId::Register, &p, &[d, NetValue::one(), NetValue::zero()], &mut st, &mut outs);
    assert_eq!(outs[0].get(8), 0);
    eval(DefId::Register, &p, &[d, NetValue::zero(), NetValue::one()], &mut st, &mut outs);
    eval(DefId::Register, &p, &[d, NetValue::one(), NetValue::one()], &mut st, &mut outs);
    assert_eq!(outs[0].get(8), 0x77);
}

#[test]
fn reset_beats_clock_edge() {
    let p = DefId::Register.default_params().width(8).opts(OPT_ENABLE | OPT_RESET);
    let mut st = CompState::default();
    let mut outs = vec![NetValue::zero(); 1];
    let d = NetValue::from_u32(0x99, 8);
    eval(DefId::Register, &p, &[d, NetValue::zero(), NetValue::one(), NetValue::zero()], &mut st, &mut outs);
    eval(DefId::Register, &p, &[d, NetValue::one(), NetValue::one(), NetValue::zero()], &mut st, &mut outs);
    assert_eq!(outs[0].get(8), 0x99);
    eval(DefId::Register, &p, &[d, NetValue::zero(), NetValue::one(), NetValue::zero()], &mut st, &mut outs);
    eval(DefId::Register, &p, &[d, NetValue::one(), NetValue::one(), NetValue::one()], &mut st, &mut outs);
    assert_eq!(outs[0].get(8), 0);
}

#[test]
fn counter_increments_on_edge_and_wraps() {
    let p = DefId::Counter.default_params().width(4).opts(0);
    let mut st = CompState::default();
    let mut outs = vec![NetValue::zero(); 1];
    let mut ticks = 0u32;
    for _ in 0..15 {
        eval(DefId::Counter, &p, &[NetValue::zero()], &mut st, &mut outs);
        eval(DefId::Counter, &p, &[NetValue::one()], &mut st, &mut outs);
        ticks += 1;
    }
    assert_eq!(outs[0].get(4), 15, "ticks={ticks}");
    eval(DefId::Counter, &p, &[NetValue::zero()], &mut st, &mut outs);
    eval(DefId::Counter, &p, &[NetValue::one()], &mut st, &mut outs);
    assert_eq!(outs[0].get(4), 0);
}

#[test]
fn ram_write_then_read() {
    let p = DefId::Ram.default_params().width(8).depth(16);
    let mut st = CompState::with_mem(&[], 16);
    let mut outs = vec![NetValue::zero(); 1];
    eval(
        DefId::Ram,
        &p,
        &[NetValue::from_u32(3, 4), NetValue::from_u32(0xAB, 8), NetValue::one(), NetValue::zero()],
        &mut st,
        &mut outs,
    );
    eval(
        DefId::Ram,
        &p,
        &[NetValue::from_u32(3, 4), NetValue::from_u32(0xAB, 8), NetValue::one(), NetValue::one()],
        &mut st,
        &mut outs,
    );
    eval(DefId::Ram, &p, &[NetValue::from_u32(3, 4), NetValue::zero(), NetValue::zero(), NetValue::zero()], &mut st, &mut outs);
    assert_eq!(outs[0].get(8), 0xAB);
}

#[test]
fn clock_phase_starts_low() {
    let p = Params { width: 1, inputs: 2, value: 0, opts: 0, high: 2, low: 3, depth: 256 };
    let mut st = CompState::default();
    let mut outs = vec![NetValue::zero(); 1];
    let mut seq = Vec::new();
    for _ in 0..10 {
        eval(DefId::Clock, &p, &[], &mut st, &mut outs);
        seq.push(outs[0].get(1));
    }
    assert_eq!(seq, vec![0, 0, 0, 1, 1, 0, 0, 0, 1, 1]);
}

#[test]
fn decoder_and_priority_encoder() {
    let pd = DefId::Decoder.default_params().width(4);
    let mut st = CompState::default();
    let mut outs = vec![NetValue::zero(); 4];
    eval(DefId::Decoder, &pd, &[NetValue::from_u32(2, 2)], &mut st, &mut outs);
    assert_eq!(outs.iter().map(|v| v.get(1)).collect::<Vec<_>>(), vec![0, 0, 1, 0]);

    let pe = DefId::PriorityEncoder.default_params().inputs(4);
    let mut outs2 = vec![NetValue::zero(); 2];
    eval(
        DefId::PriorityEncoder,
        &pe,
        &[NetValue::zero(), NetValue::zero(), NetValue::one(), NetValue::one()],
        &mut st,
        &mut outs2,
    );
    assert_eq!(outs2[0].get(2), 2);
    assert_eq!(outs2[1].get(1), 1);
}

#[test]
fn unknown_propagates_through_gates() {
    let p = DefId::And.default_params().width(4);
    let x = NetValue::new(0b0000, 0b0010);
    let one_v = NetValue::from_u32(0b1111, 4);
    let r = one(DefId::And, &p, &[x, one_v]);
    assert_eq!(r.bit(1), Bit::X);
    assert_eq!(r.bit(0), Bit::Zero);
    assert_eq!(r.bit(3), Bit::Zero);
}

#[test]
fn pins_group_inputs_before_outputs() {
    for def in DefId::all() {
        let mut variants = vec![def.default_params()];
        let mut p = def.default_params();
        p.opts |= OPT_ENABLE | OPT_RESET | OPT_CARRY;
        variants.push(p);
        for p in variants {
            let pins = def.pins(&p);
            let first_out = pins.iter().position(|x| x.dir == Dir::Out);
            let last_in = pins.iter().rposition(|x| x.dir == Dir::In);
            if let (Some(fo), Some(li)) = (first_out, last_in) {
                assert!(li < fo, "{def:?} pins are not grouped inputs first");
            }
        }
    }
}

// Further checks of the component catalogue.

#[test]
fn named_parameters_round_trip() {
    let mut p = DefId::And.default_params();
    assert!(p.set_named("inputs", 5));
    assert_eq!(p.get_named("inputs"), 5);
    assert!(p.set_named("inputs", 99));
    assert_eq!(p.get_named("inputs"), 8, "input counts are clamped");
    assert!(!p.set_named("no_such_key", 1));
}

#[test]
fn ids_round_trip() {
    for def in DefId::all() {
        assert_eq!(DefId::from_id(def.id()), Some(def));
    }
    assert_eq!(DefId::from_id("no_such_part"), None);
}

#[test]
fn parameter_controls_per_kind() {
    let ps = DefId::Shifter.params();
    assert_eq!(ps.iter().map(|p| p.key).collect::<Vec<_>>(), vec!["width", "mode"]);
    assert_eq!(ps[1].kind, ParamKind::Choice { values: vec![0, 1, 2], labels: vec!["左移", "逻辑右移", "算术右移"] });
    assert!(DefId::HalfAdder.params().is_empty());
    assert_eq!(DefId::Dff.params()[0].kind, ParamKind::Bool { bit: OPT_ENABLE });
    assert_eq!(DefId::And.params()[1].kind, ParamKind::Int { min: 2, max: 8 });
    assert_eq!(DefId::Clock.params()[0].label, "高电平拍数");
}

#[test]
fn mux_pins_are_data_select_output() {
    let p = Params::default().width(8).inputs(4);
    let v = DefId::Mux.pins(&p);
    assert_eq!(v.len(), 6);
    for i in 0..4 {
        assert_eq!(v[i].name, format!("D{i}"));
        assert_eq!((v[i].dx, v[i].dy, v[i].width, v[i].dir), (0, i as i32, 8, Dir::In));
    }
    assert_eq!(v[4].name, "S");
    assert_eq!((v[4].dx, v[4].dy, v[4].width, v[4].dir), (0, 4, 2, Dir::In));
    assert_eq!(v[5].name, "Y");
    assert_eq!((v[5].dx, v[5].dy, v[5].width, v[5].dir), (2, 1, 8, Dir::Out));
}
