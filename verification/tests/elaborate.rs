use logiclab::board::Board;
use logiclab::defs::{DefId, Params};
use logiclab::elaborate::build;
use logiclab::engine::{board_kinds_fit, can_load, Engine};

#[test]
fn a_cycle_below_the_root_truncates() {
    let mut a = Board::new();
    let mut b = Board::new();
    let mut c = Board::new();
    a.add_sub_instance(1, "b", 0, 0);
    b.add_sub_instance(2, "c", 0, 0);
    c.add_sub_instance(1, "b", 0, 0);
    let (f, nls) = build(&vec![a, b, c], 0);
    assert!(f.truncated);
    assert_eq!(nls.len(), 3);
}

#[test]
fn a_missing_drawing_below_the_root_truncates() {
    let mut a = Board::new();
    let mut b = Board::new();
    a.add_sub_instance(1, "b", 0, 0);
    b.add_sub_instance(7, "gone", 0, 0);
    let (f, _) = build(&vec![a, b], 0);
    assert!(f.truncated);
}

#[test]
fn a_chain_deeper_than_the_limit_truncates() {
    let mut bs: Vec<Board> = Vec::new();
    for i in 0..40u32 {
        let mut b = Board::new();
        if i + 1 < 40 {
            b.add_sub_instance(i + 1, "next", 0, 0);
        }
        bs.push(b);
    }
    let (f, _) = build(&bs, 0);
    assert!(f.truncated);
    let (g, _) = build(&bs, 20);
    assert!(!g.truncated, "a chain of 20 drawings fits the depth limit");
}

#[test]
fn a_clean_hierarchy_is_not_truncated() {
    let mut a = Board::new();
    let mut b = Board::new();
    a.add_sub_instance(1, "b", 0, 0);
    a.add_sub_instance(1, "b2", 8, 0);
    b.add_instance(DefId::And, Params::default().width(1).inputs(2), 0, 0);
    let (f, _) = build(&vec![a, b], 0);
    assert!(!f.truncated);
    assert_eq!(f.comps.len(), 2, "each occurrence of the drawing brings its own gate");
}

#[test]
fn every_component_is_loaded() {
    let mut b = Board::new();
    b.add_instance(DefId::Switch, Params::default().width(1), 0, 0);
    b.add_instance(DefId::And, Params::default().width(1).inputs(2), 4, 0);
    b.add_instance(DefId::Not, Params::default().width(1), 8, 0);
    assert!(board_kinds_fit(&b));
    let (mut f, _) = build(&vec![b], 0);
    assert!(can_load(&f));
    let n = f.comps.len();
    let mut e = Engine::new();
    e.load_flat(&mut f);
    assert_eq!(e.component_count(), n);
    assert_eq!(n, 3);
    assert!(f.states.is_empty(), "the states are taken over, not copied");
}

#[test]
fn a_part_without_the_pins_of_its_kind_is_reported() {
    let mut b = Board::new();
    let g = b.add_instance(DefId::And, Params::default().width(1).inputs(2), 0, 0);
    b.instances[g as usize].pins.pop();
    assert!(!board_kinds_fit(&b));
    let (f, _) = build(&vec![b], 0);
    assert!(!can_load(&f));
}
