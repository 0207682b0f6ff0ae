use logiclab::board::{Board, Point};
use logiclab::defs::{DefId, Params, OPT_CARRY};
use logiclab::drc::{check, check_project, IssueKind, Severity};

#[test]
fn clean_circuit_has_no_errors() {
    let mut b = Board::new();
    let sw = b.add_instance(DefId::Switch, Params::default().width(1), 0, 0);
    let g = b.add_instance(DefId::And, Params::default().width(1).inputs(2), 6, 0);
    let led = b.add_instance(DefId::Led, Params::default().width(1), 12, 0);
    assert!(b.connect_pins((sw, 0), (g, 0)));
    assert!(b.connect_pins((g, 2), (led, 0)));
    let issues = check(&b);
    let errors: Vec<_> = issues.iter().filter(|i| i.severity == Severity::Error).collect();
    assert!(errors.is_empty(), "no errors expected: {errors:?}");
    assert!(issues.iter().any(|i| i.kind == IssueKind::DanglingInput));
}

#[test]
fn width_mismatch_is_an_error() {
    let mut b = Board::new();
    let c8 = b.add_instance(DefId::Constant, Params::default().width(8), 0, 0);
    let g = b.add_instance(DefId::Not, Params::default().width(1), 8, 0);
    assert!(b.connect_pins((c8, 0), (g, 0)));
    let issues = check(&b);
    assert!(
        issues.iter().any(|i| i.kind == IssueKind::WidthMismatch && i.severity == Severity::Error),
        "8 bits into 1 bit must be caught"
    );
}

#[test]
fn multi_driver_is_an_error() {
    let mut b = Board::new();
    let a = b.add_instance(DefId::Switch, Params::default().width(1), 0, 0);
    let c = b.add_instance(DefId::Switch, Params::default().width(1), 0, 6);
    let led = b.add_instance(DefId::Led, Params::default().width(1), 12, 0);
    assert!(b.connect_pins((a, 0), (led, 0)));
    assert!(b.connect_pins((c, 0), (led, 0)));
    let issues = check(&b);
    assert!(issues.iter().any(|i| i.kind == IssueKind::MultiDriver));
}

#[test]
fn pure_combinational_loop_is_flagged() {
    let mut b = Board::new();
    let p = Params::default().width(1);
    let g1 = b.add_instance(DefId::Not, p, 0, 0);
    let g2 = b.add_instance(DefId::Not, p, 6, 0);
    let g3 = b.add_instance(DefId::Not, p, 12, 0);
    assert!(b.connect_pins((g1, 1), (g2, 0)));
    assert!(b.connect_pins((g2, 1), (g3, 0)));
    assert!(b.connect_pins((g3, 1), (g1, 0)));
    let issues = check(&b);
    assert!(issues.iter().any(|i| i.kind == IssueKind::CombinationalLoop), "a pure combinational loop must be reported");
}

#[test]
fn feedback_through_register_is_legal() {
    let mut b = Board::new();
    let p = Params::default().width(1).opts(0);
    let r = b.add_instance(DefId::Register, p, 0, 0);
    let g = b.add_instance(DefId::Not, Params::default().width(1), 8, 0);
    assert!(b.connect_pins((r, 2), (g, 0)));
    assert!(b.connect_pins((g, 1), (r, 0)));
    let issues = check(&b);
    assert!(!issues.iter().any(|i| i.kind == IssueKind::CombinationalLoop), "feedback through a register is a legal design");
}

#[test]
fn adder_chain_is_clean() {
    let mut b = Board::new();
    let a = b.add_instance(DefId::Constant, Params::default().width(8), 0, 0);
    let c = b.add_instance(DefId::Constant, Params::default().width(8), 0, 4);
    let sum = b.add_instance(DefId::Adder, Params::default().width(8).opts(OPT_CARRY), 8, 0);
    assert!(b.connect_pins((a, 0), (sum, 0)));
    assert!(b.connect_pins((c, 0), (sum, 1)));
    let issues = check(&b);
    assert!(!issues.iter().any(|i| i.severity == Severity::Error));
}

// Further checks of the rules.

#[test]
fn empty_board_has_no_issues() {
    let b = Board::new();
    assert!(check(&b).is_empty());
}

#[test]
fn self_referencing_drawing_is_circular() {
    let mut main = Board::new();
    main.add_instance(DefId::Switch, Params::default().width(1), 0, 0);
    let mut sub = Board::new();
    sub.add_sub_instance(1, "self", 0, 0);
    let issues = check_project(&vec![main, sub]);
    assert!(issues.iter().any(|(b, i)| *b == 1 && i.kind == IssueKind::CircularReference));
    assert!(!issues.iter().any(|(b, i)| *b == 0 && i.kind == IssueKind::CircularReference));
}

#[test]
fn severity_and_kind_codes() {
    assert_ne!(Severity::Error.code(), Severity::Warning.code());
    assert_ne!(IssueKind::WidthMismatch.code(), IssueKind::MultiDriver.code());
}

#[test]
fn inverter_feeding_itself_is_a_loop() {
    let mut b = Board::new();
    let g = b.add_instance(DefId::Not, Params::default().width(1), 0, 0);
    b.add_wire(vec![Point::new(2, 0), Point::new(2, 1), Point::new(0, 1), Point::new(0, 0)]);
    let issues = check(&b);
    assert!(issues
        .iter()
        .any(|i| i.kind == IssueKind::CombinationalLoop && i.severity == Severity::Error && i.inst == g));
}
