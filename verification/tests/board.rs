use logiclab::board::{point_on_segment, route_orthogonal, simplify_path, Board, Instance, Point, NO_NET};
use logiclab::defs::{DefId, Params, OPT_CARRY};

#[test]
fn segment_hit_testing() {
    let a = Point::new(0, 0);
    let b = Point::new(10, 0);
    assert!(point_on_segment(Point::new(5, 0), a, b));
    assert!(point_on_segment(a, a, b));
    assert!(point_on_segment(b, a, b));
    assert!(!point_on_segment(Point::new(11, 0), a, b));
    assert!(!point_on_segment(Point::new(5, 1), a, b));
    let c = Point::new(0, 0);
    let d = Point::new(4, 4);
    assert!(point_on_segment(Point::new(2, 2), c, d));
    assert!(!point_on_segment(Point::new(2, 3), c, d));
}

#[test]
fn path_simplify_keeps_only_corners() {
    let raw = vec![
        Point::new(0, 0),
        Point::new(1, 0),
        Point::new(2, 0),
        Point::new(2, 1),
        Point::new(2, 2),
        Point::new(2, 2),
        Point::new(1, 2),
    ];
    assert_eq!(simplify_path(raw), vec![Point::new(0, 0), Point::new(2, 0), Point::new(2, 2), Point::new(1, 2)]);
}

#[test]
fn rotation_keeps_origin_at_corner() {
    let mut inst = Instance::new(DefId::And, Params::default().width(1).inputs(2), 0, 0);
    let before: Vec<(i32, i32)> = inst.pins.iter().map(|p| (p.dx, p.dy)).collect();
    inst.rot = 180;
    inst.rebuild_pins();
    let min_x = inst.pins.iter().map(|p| p.dx).min().unwrap();
    let min_y = inst.pins.iter().map(|p| p.dy).min().unwrap();
    assert_eq!((min_x, min_y), (0, 0));
    assert_ne!(before, inst.pins.iter().map(|p| (p.dx, p.dy)).collect::<Vec<_>>());
    assert_eq!(inst.pins.len(), before.len());
}

#[test]
fn switch_output_pin_sits_on_the_right_edge() {
    let it = Instance::new(DefId::Switch, Params::default().width(1), 5, 7);
    assert_eq!(it.size(), (3, 1), "a switch box is 3x1 with its output on the right edge");
    assert_eq!(it.pin_world(0), Some(Point::new(7, 7)));
}

#[test]
fn wire_connects_two_pins() {
    let mut b = Board::new();
    let sw = b.add_instance(DefId::Switch, Default::default(), 0, 0);
    let led = b.add_instance(DefId::Led, Default::default(), 10, 0);
    assert!(b.connect_pins((sw, 0), (led, 0)));
    let nl = b.compile();
    assert_ne!(nl.pin_net[0], NO_NET);
    assert_eq!(nl.pin_net[0], nl.pin_net[1]);
}

#[test]
fn crossing_wires_do_not_connect() {
    let mut b = Board::new();
    let sw = b.add_instance(DefId::Switch, Default::default(), 0, 0);
    let led = b.add_instance(DefId::Led, Default::default(), 10, 6);
    b.add_wire(vec![Point::new(2, 0), Point::new(12, 0)]);
    b.add_wire(vec![Point::new(5, -4), Point::new(5, 4)]);
    b.add_wire(vec![Point::new(5, 4), Point::new(5, 6), Point::new(10, 6)]);
    let nl = b.compile();
    let a = nl.pin_net[nl.pin_start[sw as usize] as usize];
    let led_net = nl.pin_net[nl.pin_start[led as usize] as usize];
    assert_ne!(a, NO_NET);
    assert_ne!(led_net, NO_NET);
    assert_ne!(a, led_net, "wires crossing mid-segment must not connect");
}

#[test]
fn endpoint_touching_mid_segment_connects() {
    let mut b = Board::new();
    let sw = b.add_instance(DefId::Switch, Default::default(), 0, 0);
    let led = b.add_instance(DefId::Led, Default::default(), 6, 0);
    b.add_wire(vec![Point::new(2, 0), Point::new(12, 0)]);
    b.add_wire(vec![Point::new(6, 0), Point::new(6, 6)]);
    let nl = b.compile();
    let a = nl.pin_net[nl.pin_start[sw as usize] as usize];
    let led_net = nl.pin_net[nl.pin_start[led as usize] as usize];
    assert_ne!(a, NO_NET);
    assert_eq!(a, led_net);
}

#[test]
fn dangling_pins_differ_by_direction() {
    let mut b = Board::new();
    b.add_instance(DefId::And, Params::default().width(1).inputs(2), 0, 0);
    let nl = b.compile();
    assert_eq!(nl.pin_net[0], NO_NET);
    assert_eq!(nl.pin_net[1], NO_NET);
    assert_ne!(nl.pin_net[2], NO_NET);
}

#[test]
fn coincident_pins_connect_without_wire() {
    let mut b = Board::new();
    b.add_instance(DefId::Switch, Default::default(), 0, 0);
    b.add_instance(DefId::Led, Default::default(), 2, 0);
    let nl = b.compile();
    assert_eq!(nl.net_count, 1);
}

#[test]
fn autoroute_avoids_other_pins() {
    let mut b = Board::new();
    let c = b.add_instance(DefId::Constant, Default::default(), 0, 4);
    let add = b.add_instance(DefId::Adder, Params::default().width(8).opts(OPT_CARRY), 4, 0);
    assert!(b.connect_pins((c, 0), (add, 1)));
    let w = &b.wires[0];
    assert!(!w.contains_point(Point::new(4, 0)), "must not touch A");
    assert!(!w.contains_point(Point::new(4, 2)), "must not touch CI");
    assert!(w.contains_point(Point::new(4, 1)), "must reach B");
}

#[test]
fn fanout_routing_succeeds() {
    let mut b = Board::new();
    let sw_a = b.add_instance(DefId::Switch, Params::default().width(1), 0, 0);
    let sw_b = b.add_instance(DefId::Switch, Params::default().width(1), 0, 6);
    let nand2 = || Params::default().width(1).inputs(2);
    let n1 = b.add_instance(DefId::Nand, nand2(), 6, 0);
    let n2 = b.add_instance(DefId::Nand, nand2(), 6, 3);
    let n3 = b.add_instance(DefId::Nand, nand2(), 6, 6);
    let xor = b.add_instance(DefId::Nand, nand2(), 12, 2);
    let and = b.add_instance(DefId::Nand, nand2(), 12, 8);

    let links = [
        ((sw_a, 0), (n1, 0)),
        ((sw_b, 0), (n1, 1)),
        ((sw_a, 0), (n2, 0)),
        ((n1, 2), (n2, 1)),
        ((sw_b, 0), (n3, 0)),
        ((n1, 2), (n3, 1)),
        ((n2, 2), (xor, 0)),
        ((n3, 2), (xor, 1)),
        ((n1, 2), (and, 0)),
        ((n1, 2), (and, 1)),
    ];
    for (i, (f, t)) in links.iter().enumerate() {
        assert!(b.connect_pins(*f, *t), "link {i} failed: {f:?} -> {t:?}");
    }
    for w in &b.wires {
        assert!(w.points.len() >= 2);
        for seg in w.points.windows(2) {
            assert!(seg[0].x == seg[1].x || seg[0].y == seg[1].y, "wires must be orthogonal: {:?}", w.points);
        }
    }
    let nl = b.compile();
    let net = |inst: u32, slot: usize| {
        let p = nl.pin_start[inst as usize] + slot as u32;
        nl.pin_net[p as usize]
    };
    let y1 = net(n1, 2);
    assert_ne!(net(sw_a, 0), net(sw_b, 0), "A and B must stay apart");
    assert_ne!(net(sw_a, 0), y1, "A must not short to n1.Y");
    assert_ne!(net(sw_b, 0), y1, "B must not short to n1.Y");
}

// Further checks of the editing model.

#[test]
fn removing_an_instance_drops_its_wires() {
    let mut b = Board::new();
    let sw = b.add_instance(DefId::Switch, Default::default(), 0, 0);
    let led = b.add_instance(DefId::Led, Default::default(), 10, 0);
    assert!(b.connect_pins((sw, 0), (led, 0)));
    assert!(b.remove_instance(sw));
    assert_eq!(b.instances.len(), 1);
    assert_eq!(b.wires.len(), 0);
    assert!(!b.remove_instance(5));
}

#[test]
fn connecting_a_missing_pin_fails() {
    let mut b = Board::new();
    let sw = b.add_instance(DefId::Switch, Default::default(), 0, 0);
    assert!(!b.connect_pins((sw, 0), (7, 0)));
    assert!(!b.connect_pins((sw, 3), (sw, 0)));
    assert_eq!(b.wires.len(), 0);
}

#[test]
fn instance_names_default_to_their_index() {
    let mut b = Board::new();
    let a = b.add_instance(DefId::Not, Default::default(), 0, 0);
    let c = b.add_instance(DefId::Not, Default::default(), 4, 0);
    assert_eq!(b.instance_name(a), Some("inst_0"));
    assert_eq!(b.instance_name(c), Some("inst_1"));
    assert_eq!(b.instance_name(9), None);
}

#[test]
fn notes_and_labels_are_added_and_removed() {
    let mut b = Board::new();
    let n = b.add_annotation(1, 2, "note");
    let l = b.add_label(3, 4, "CLK");
    assert_eq!(b.annotations[n as usize].text, "note");
    assert_eq!(b.labels[l as usize].name, "CLK");
    assert!(b.remove_annotation(n));
    assert!(!b.remove_annotation(n));
    assert!(b.remove_label(l));
    assert!(!b.remove_label(l));
}

#[test]
fn instance_mut_reaches_the_instance() {
    let mut b = Board::new();
    let a = b.add_instance(DefId::Not, Default::default(), 0, 0);
    if let Some(it) = b.instance_mut(a) {
        it.display_name = "x".to_string();
    }
    assert_eq!(b.instances[0].display_name, "x");
    assert!(b.instance_mut(3).is_none());
}

#[test]
fn route_found_when_the_way_is_clear() {
    let from = Point::new(0, 0);
    let to = Point::new(5, 3);
    let r = route_orthogonal(from, to, &Vec::new(), &Vec::new()).expect("an open grid has a route");
    assert_eq!(r[0], from);
    assert_eq!(r[r.len() - 1], to);
    for k in 0..r.len() - 1 {
        assert!(r[k].x == r[k + 1].x || r[k].y == r[k + 1].y);
    }
}

#[test]
fn route_refused_when_the_target_is_walled_in() {
    let from = Point::new(0, 0);
    let to = Point::new(6, 0);
    let wall = vec![Point::new(5, 0), Point::new(7, 0), Point::new(6, 1), Point::new(6, -1)];
    assert!(route_orthogonal(from, to, &wall, &Vec::new()).is_none());
    assert!(route_orthogonal(from, from, &Vec::new(), &Vec::new()).is_none());
}
