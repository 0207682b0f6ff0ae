use logiclab::board::{Point, NO_NET};
use logiclab::defs::{DefId, Dir, Params};
use logiclab::drc::IssueKind;
use logiclab::session::Session;

/// The saved state of a session, as text (every drawing, field by field).
fn saved(s: &Session) -> String {
    format!("{:?}", s.project())
}

fn two_pin_circuit() -> Session {
    let mut s = Session::new();
    let sw = s.add_component(DefId::Switch, 0, 0);
    let led = s.add_component(DefId::Led, 8, 0);
    assert!(s.connect_pins((sw, 0), (led, 0)));
    s
}

#[test]
fn edit_resets_simulation_to_power_on() {
    let mut s = two_pin_circuit();
    s.set_input(0, 1);
    s.sim_run_for(5);
    assert_eq!(s.pin_value(1, 0).get(1), 1);
    assert_eq!(s.tick(), 5);

    s.add_component(DefId::Not, 20, 0);
    assert_eq!(s.tick(), 0, "an edit must reset the tick");
    assert_eq!(s.pin_value(1, 0).get(1), 0, "back to power-on after an edit");
}

#[test]
fn toggle_input_does_not_reset_simulation() {
    let mut s = two_pin_circuit();
    s.sim_run_for(3);
    s.toggle_input(0);
    s.sim_run_for(2);
    assert_eq!(s.tick(), 5, "flipping a switch is no edit");
}

#[test]
fn undo_redo_restores_board_exactly() {
    let mut s = Session::new();
    let initial = saved(&s);
    assert!(!s.can_undo());

    s.add_component(DefId::And, 0, 0);
    s.add_component(DefId::Or, 4, 0);
    s.add_annotation(1, 1, "注释");
    s.add_label(0, 0, "CLK");
    let after = saved(&s);
    assert_ne!(initial, after);

    for _ in 0..4 {
        assert!(s.undo());
    }
    assert!(!s.can_undo());
    assert_eq!(saved(&s), initial, "undoing everything gives the start back");
    for _ in 0..4 {
        assert!(s.redo());
    }
    assert!(!s.can_redo());
    assert_eq!(saved(&s), after, "redo gives the edited state back");
}

#[test]
fn undo_also_resets_simulation() {
    let mut s = two_pin_circuit();
    s.sim_run_for(4);
    s.add_component(DefId::Not, 20, 0);
    s.sim_run_for(3);
    assert!(s.undo());
    assert_eq!(s.tick(), 0, "an undo is an edit too and resets the simulation");
}

#[test]
fn new_edit_clears_redo_stack() {
    let mut s = Session::new();
    s.add_component(DefId::And, 0, 0);
    assert!(s.undo());
    assert!(s.can_redo());
    s.add_component(DefId::Or, 4, 0);
    assert!(!s.can_redo(), "a new edit drops the redo steps");
}

fn undo_depth(s: &mut Session) -> usize {
    let mut n = 0;
    while s.undo() {
        n += 1;
    }
    while s.redo() {}
    n
}

#[test]
fn unchanged_param_is_not_an_edit() {
    let mut s = Session::new();
    let id = s.add_component(DefId::And, 0, 0);
    let depth = undo_depth(&mut s);
    assert!(s.set_param(id, "width", 1), "writing the current value succeeds");
    assert_eq!(undo_depth(&mut s), depth, "a no-op adds no history");
    assert!(!s.set_param(id, "不存在的键", 1), "an unknown key is refused");
}

#[test]
fn instance_names_are_auto_assigned() {
    let mut s = Session::new();
    let a = s.add_component(DefId::Not, 0, 0);
    s.set_display_name(a, "我的反相器");
    assert_eq!(s.hierarchy_path(a, "Q"), "主图纸/我的反相器/Q");
}

#[test]
fn net_labels_join_by_name() {
    let mut s = Session::new();
    let sw = s.add_component(DefId::Switch, 0, 6);
    let led = s.edit(|b| b.add_instance(DefId::Led, Params::default().width(1), 28, 6));
    s.edit(|b| {
        b.add_wire(vec![Point::new(2, 6), Point::new(10, 6)]);
        b.add_wire(vec![Point::new(20, 6), Point::new(28, 6)]);
    });
    s.add_label(6, 6, "BUS");
    s.add_label(24, 6, "BUS");
    let nl = s.board().compile();
    let a = nl.pin_net[nl.pin_start[sw as usize] as usize];
    let b = nl.pin_net[nl.pin_start[led as usize] as usize];
    assert_ne!(a, NO_NET);
    assert_eq!(a, b, "labels with the same name join the two wires");
}

fn inverter_session() -> (Session, u32) {
    let mut s = Session::new();
    let sub = s.add_board("反相器");
    assert!(s.open_board(sub));
    let a = s.add_component(DefId::InputPin, 0, 0);
    let n = s.add_component(DefId::Not, 6, 0);
    let y = s.add_component(DefId::OutputPin, 12, 0);
    s.set_display_name(a, "A");
    s.set_display_name(y, "Y");
    assert!(s.connect_pins((a, 0), (n, 0)));
    assert!(s.connect_pins((n, 1), (y, 0)));

    assert!(s.open_board(0));
    let sw = s.add_component(DefId::Switch, 0, 0);
    s.add_component(DefId::Led, 24, 0);
    let inst = s.add_sub_instance(sub, 10, 0).expect("no room for the sub-circuit instance");
    assert!(s.connect_pins((sw, 0), (inst, 0)));
    assert!(s.connect_pins((inst, 1), (1, 0)));
    (s, inst)
}

#[test]
fn sub_circuit_shapes_follow_drawing_interface() {
    let (s, inst) = inverter_session();
    let it = s.board().instance(inst).unwrap();
    assert_eq!(it.def, DefId::Custom);
    assert_eq!(it.pins.len(), 2, "one input, one output");
    assert_eq!(it.pins[0].dir, Dir::In);
    assert_eq!(it.pins[0].name, "A");
    assert_eq!(it.pins[1].dir, Dir::Out);
    assert_eq!(it.pins[1].name, "Y");
}

#[test]
fn sub_circuit_drives_through_hierarchy() {
    let (mut s, _inst) = inverter_session();
    s.set_input(0, 1);
    s.sim_run_for(4);
    assert_eq!(s.pin_value(1, 0).get(1), 0, "switch 1 -> inverter -> LED 0");
    s.set_input(0, 0);
    s.sim_run_for(4);
    assert_eq!(s.pin_value(1, 0).get(1), 1, "switch 0 -> LED 1");
}

#[test]
fn hierarchy_is_visible_in_breadcrumb() {
    let (mut s, inst) = inverter_session();
    assert_eq!(s.depth(), 0);
    assert!(s.enter_sub(inst));
    assert_eq!(s.depth(), 1);
    assert_eq!(s.breadcrumb(0), vec!["主图纸", "反相器"]);
    assert_eq!(s.board().name, "反相器");
    assert!(s.goto_depth(0));
    assert_eq!(s.board().name, "主图纸");
}

#[test]
fn a_drawing_cannot_contain_itself() {
    let mut s = Session::new();
    let sub = s.add_board("环");
    assert!(s.open_board(sub));
    assert!(s.add_sub_instance(sub, 0, 0).is_none(), "a self reference is refused");
    s.edit_batch(|b| b.add_sub_instance(sub, "环", 0, 0));
    assert!(s.drc_all().iter().any(|(_, i)| i.kind == IssueKind::CircularReference));
}

#[test]
fn extract_wraps_circuit_and_keeps_behaviour() {
    let mut s = Session::new();
    let sw = s.add_component(DefId::Switch, 0, 0);
    let n1 = s.add_component(DefId::Not, 8, 0);
    let n2 = s.add_component(DefId::Not, 16, 0);
    let led = s.add_component(DefId::Led, 24, 0);
    assert!(s.connect_pins((sw, 0), (n1, 0)));
    assert!(s.connect_pins((n1, 1), (n2, 0)));
    assert!(s.connect_pins((n2, 1), (led, 0)));
    s.set_input(sw, 1);
    s.sim_run_for(4);
    assert_eq!(s.pin_value(led, 0).get(1), 1);

    let sub = s.extract_to_sub(&[n1, n2], "双反相器").expect("extraction failed");
    assert_eq!(s.project().boards.len(), 2);
    assert_eq!(s.board().instances.len(), 3, "switch + instance + LED");
    let inner = &s.project().boards[sub as usize];
    assert_eq!(inner.name, "双反相器");
    assert_eq!(inner.instances.len(), 4, "two inverters + two interface pins");

    s.set_input(0, 1);
    s.sim_run_for(6);
    assert_eq!(s.pin_value(1, 0).get(1), 1, "two inversions cancel");
    s.set_input(0, 0);
    s.sim_run_for(6);
    assert_eq!(s.pin_value(1, 0).get(1), 0);
}

#[test]
fn removing_a_drawing_drops_its_instances() {
    let (mut s, _) = inverter_session();
    assert_eq!(s.project().boards.len(), 2);
    assert!(s.remove_board(1));
    assert_eq!(s.project().boards.len(), 1);
    assert_eq!(s.board().instances.len(), 2, "the instances standing for it are gone");
}

#[test]
fn wave_records_samples_and_exports_vcd() {
    let mut s = two_pin_circuit();
    let net = s.view().wires[0].net;
    assert_ne!(net, NO_NET);
    assert!(s.wave_watch(net, "sig"));
    s.sim_run_for(4);
    s.set_input(0, 1);
    s.sim_run_for(4);

    let t = s.wave_trace(0).unwrap();
    assert_eq!(t.samples.len(), 8, "one sample per tick");
    assert_eq!(&t.samples[..4], &[0, 0, 0, 0]);
    assert_eq!(t.samples[7], 1, "high within a tick of the flip, and held");

    let vcd = s.wave_vcd();
    assert!(vcd.contains("$var wire 1 v0 sig $end"));
    assert!(vcd.contains("#7"));
}

#[test]
fn wave_watch_rejects_unknown_net() {
    let mut s = two_pin_circuit();
    assert!(!s.wave_watch(NO_NET, "x"));
    assert!(!s.wave_watch(9999, "x"));
    assert_eq!(s.wave_len(), 0);
}

#[test]
fn removing_component_also_removes_its_wires() {
    let mut s = Session::new();
    let sw = s.add_component(DefId::Switch, 0, 0);
    let led = s.add_component(DefId::Led, 8, 0);
    assert!(s.connect_pins((sw, 0), (led, 0)));
    assert_eq!(s.board().wires.len(), 1);

    s.remove_component(sw);
    assert_eq!(s.board().instances.len(), 1);
    assert_eq!(s.board().wires.len(), 0, "removing a component removes the wires on its pins");

    assert!(s.undo());
    assert_eq!(s.board().wires.len(), 1, "undo brings the wire back");
}

#[test]
fn removing_component_keeps_pass_through_wires() {
    let mut s = Session::new();
    s.add_component(DefId::Buffer, 0, 0);
    s.edit(|b| {
        b.add_wire(vec![Point::new(2, 0), Point::new(30, 0)]);
    });
    let led = s.edit(|b| b.add_instance(DefId::Led, Params::default().width(1), 10, 0));
    assert_eq!(s.board().wires.len(), 1);

    s.remove_component(led);
    assert_eq!(s.board().wires.len(), 1, "a wire only passing a pin stays");
}

#[test]
fn removing_drawing_cleans_dependent_wires() {
    let mut s = Session::new();
    let sub = s.add_board("子");
    assert!(s.open_board(sub));
    let a = s.add_component(DefId::InputPin, 0, 0);
    let y = s.add_component(DefId::OutputPin, 8, 0);
    assert!(s.connect_pins((a, 0), (y, 0)));

    assert!(s.open_board(0));
    let sw = s.add_component(DefId::Switch, 0, 0);
    let inst = s.add_sub_instance(sub, 10, 0).expect("no room for the instance");
    assert!(s.connect_pins((sw, 0), (inst, 0)));
    assert_eq!(s.board().wires.len(), 1);

    assert!(s.remove_board(sub));
    assert_eq!(s.board().instances.len(), 1, "the instance standing for it is gone");
    assert_eq!(s.board().wires.len(), 0, "and so are the wires on it");
}

#[test]
fn batch_removal_cleans_wires_too() {
    let mut s = Session::new();
    let a = s.add_component(DefId::Not, 0, 0);
    let b = s.add_component(DefId::Not, 8, 0);
    let c = s.add_component(DefId::Not, 16, 0);
    assert!(s.connect_pins((a, 1), (b, 0)));
    assert!(s.connect_pins((b, 1), (c, 0)));
    assert_eq!(s.board().wires.len(), 2);

    s.edit_batch(|bd| {
        bd.remove_instance(1);
        bd.remove_instance(0);
    });
    assert_eq!(s.board().instances.len(), 1);
    assert_eq!(s.board().wires.len(), 0, "a batch removal leaves no orphan wires");
}

// Further checks of the session.

#[test]
fn undo_after_edit_restores_the_drawings() {
    let mut s = two_pin_circuit();
    let before = saved(&s);
    s.move_component(0, 3, 3);
    assert_ne!(saved(&s), before);
    assert!(s.undo());
    assert_eq!(saved(&s), before);
    assert!(s.redo());
    assert_ne!(saved(&s), before);
}

#[test]
fn refused_coordinates_change_nothing() {
    let mut s = Session::new();
    let r = s.add_component(DefId::Not, 0x7FFF_FFFF, 0);
    assert_eq!(r, u32::MAX);
    assert!(!s.can_undo());
}

#[test]
fn revision_counts_edits_and_navigation() {
    let mut s = Session::new();
    let r0 = s.revision();
    s.add_component(DefId::Not, 0, 0);
    assert_eq!(s.revision(), r0 + 1);
    let sub = s.add_board("x");
    assert_eq!(s.revision(), r0 + 2);
    assert!(s.open_board(sub));
    assert_eq!(s.revision(), r0 + 3);
}

#[test]
fn board_labels_in_english() {
    let mut s = Session::new();
    let a = s.add_board("");
    assert_eq!(s.board_label(0, 1), "Main");
    assert_eq!(s.board_label(a, 0), "子电路1");
    assert_eq!(s.board_label(a, 1), "子电路1", "a name that is not a default is kept");
    assert!(s.set_board_name(a, "图纸7"));
    assert_eq!(s.board_label(a, 1), "Sheet 7");
    assert_eq!(s.board_names(0), vec!["主图纸", "图纸7"]);
    assert_eq!(s.board_label(9, 0), "");
}

#[test]
fn board_refs_count_instances() {
    let (s, _) = inverter_session();
    assert_eq!(s.board_refs(1), 1);
    assert_eq!(s.board_refs(0), 0);
}

#[test]
fn unknown_example_is_refused() {
    let mut s = Session::new();
    assert!(!s.load_example("nope"));
    assert!(s.load_example("half_adder"));
    assert_eq!(s.project().boards.len(), 1);
    assert!(s.board().instances.len() > 0);
    assert!(s.can_undo());
}

#[test]
fn wave_vcd_lists_values_per_tick() {
    let mut s = two_pin_circuit();
    let net = s.view().wires[0].net;
    assert!(s.wave_watch(net, ""));
    assert!(s.wave_watch(net, "again"), "watching twice is fine");
    assert_eq!(s.wave_len(), 1);
    s.sim_run_for(2);
    let vcd = s.wave_vcd();
    assert!(vcd.starts_with("$timescale 1ns $end\n$scope module logiclab $end\n"));
    assert!(vcd.contains(&format!("$var wire 1 v0 net{net} $end")));
    assert!(vcd.contains("#0\n0v0\n#1\n0v0\n"));
    s.wave_unwatch(net);
    assert_eq!(s.wave_len(), 0);
}

#[test]
fn new_trace_is_padded_for_every_tick_run() {
    let mut s = two_pin_circuit();
    let net = s.view().wires[0].net;
    s.sim_run_for(5000);
    assert!(s.wave_watch(net, "late"));
    assert_eq!(s.wave_trace(0).unwrap().samples.len(), 5000);
}

#[test]
fn toggling_an_input_keeps_the_revision() {
    let mut s = two_pin_circuit();
    let rev = s.revision();
    s.toggle_input(0);
    assert_eq!(s.revision(), rev);
}

#[test]
fn unicode_blank_trace_name_becomes_net_number() {
    let mut s = two_pin_circuit();
    let net = s.view().wires[0].net;
    assert!(s.wave_watch(net, "\u{3000} "));
    assert_eq!(s.wave_trace(0).unwrap().name, format!("net{net}"));
}

#[test]
fn loading_a_project_clears_the_watched_traces() {
    let mut s = two_pin_circuit();
    let net = s.view().wires[0].net;
    assert!(s.wave_watch(net, "sig"));
    let p = logiclab::save::Project::new("p");
    assert!(s.load_project_checked(p));
    assert_eq!(s.wave_len(), 0);
    assert!(!s.can_undo());
}

#[test]
fn run_records_the_net_value_after_each_tick() {
    let mut s = two_pin_circuit();
    let net = s.view().wires[0].net;
    s.set_input(0, 1);
    assert!(s.wave_watch(net, "sig"));
    s.sim_run_for(3);
    let t = s.wave_trace(0).unwrap();
    assert_eq!(t.samples, vec![1, 1, 1]);
}
