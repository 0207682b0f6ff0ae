use logiclab::board::Board;
use logiclab::defs::{DefId, Params};
use logiclab::engine::Engine;
use logiclab::view::{build_view, refresh_values, NetStatus};

#[test]
fn view_reports_geometry_and_values() {
    let mut b = Board::new();
    let sw = b.add_instance(DefId::Switch, Params::default().width(1), 0, 0);
    let led = b.add_instance(DefId::Led, Params::default().width(1), 6, 0);
    assert!(b.connect_pins((sw, 0), (led, 0)));

    let mut e = Engine::new();
    e.load_board(&b);
    let mut v = build_view(&b, &e);

    assert_eq!(v.components.len(), 2);
    assert_eq!(v.pins.len(), 2);
    assert_eq!(v.wires.len(), 1);
    assert_eq!(v.wires[0].status, NetStatus::Normal, "driven by the switch");
    assert_eq!(v.net_count, 1);

    let (min, max) = v.bounds().unwrap();
    assert!(min.x <= 0 && max.x >= 6);

    e.set_input(sw, 1);
    e.run_for(3);
    refresh_values(&mut v, &e);
    assert_eq!(v.pins[0].value.get(1), 1);
    assert_eq!(v.wires[0].value.get(1), 1);
    assert_eq!(v.pins[1].value.get(1), 1);
}

#[test]
fn undriven_and_conflict_are_distinguished() {
    let mut b = Board::new();
    let led = b.add_instance(DefId::Led, Params::default().width(1), 0, 0);
    let _ = led;
    let p = Params::default().width(1);
    let a = b.add_instance(DefId::Buffer, p, 0, 6);
    let c = b.add_instance(DefId::Buffer, p, 6, 6);
    assert!(b.connect_pins((a, 1), (c, 0)));

    let mut e = Engine::new();
    e.load_board(&b);
    let v = build_view(&b, &e);

    let wired: Vec<_> = v.wires.iter().filter(|w| w.status == NetStatus::Normal).collect();
    assert_eq!(wired.len(), 1);
}

// Further checks of the view.

#[test]
fn empty_board_has_empty_view() {
    let b = Board::new();
    let mut e = Engine::new();
    e.load_board(&b);
    let v = build_view(&b, &e);
    assert!(v.is_empty());
    assert!(v.bounds().is_none());
}

#[test]
fn status_codes_are_distinct() {
    assert_ne!(NetStatus::Normal.code(), NetStatus::Undriven.code());
    assert_ne!(NetStatus::Normal.code(), NetStatus::Conflict.code());
}
