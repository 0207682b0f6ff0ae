use logiclab::drc::{check, IssueKind, Severity};
use logiclab::examples::{all, build, ids};

#[test]
fn every_example_builds_with_wires() {
    for ex in all() {
        let b = build(ex.id).unwrap();
        assert!(!b.instances.is_empty(), "{} has no components", ex.id);
        assert!(!b.wires.is_empty(), "{} has no wires", ex.id);
        for w in &b.wires {
            assert!(w.points.len() >= 2, "{} has a degenerate wire", ex.id);
        }
    }
}

/// Examples that show combinational feedback on purpose.
const COMBINATIONAL_FEEDBACK_DEMOS: &[&str] = &["sr_latch"];

#[test]
fn every_example_is_drc_clean() {
    for ex in all() {
        let b = build(ex.id).unwrap();
        let errors: Vec<_> = check(&b)
            .into_iter()
            .filter(|i| i.severity == Severity::Error)
            .filter(|i| !(i.kind == IssueKind::CombinationalLoop && COMBINATIONAL_FEEDBACK_DEMOS.contains(&ex.id)))
            .collect();
        assert!(errors.is_empty(), "{} has DRC errors: {errors:?}", ex.id);
    }
}

#[test]
fn sr_latch_is_indeed_flagged_as_combinational_loop() {
    let b = build("sr_latch").unwrap();
    assert!(check(&b).iter().any(|i| i.kind == IssueKind::CombinationalLoop));
}

#[test]
fn lookup_by_id_works() {
    assert!(build("half_adder").is_some());
    assert!(build("nope").is_none());
    assert_eq!(ids().len(), all().len());
}

#[test]
fn ids_follow_the_catalogue_order() {
    assert_eq!(ids(), vec!["half_adder", "sr_latch", "shift_reg", "counter4", "mux2"]);
}

#[test]
fn counter_example_shows_every_bit() {
    let mut s = logiclab::session::Session::new();
    assert!(s.load_example("counter4"));
    let leds = [3u32, 5, 7, 8];
    let mut seen = [false; 4];
    for _ in 0..80 {
        s.sim_tick();
        for (k, &l) in leds.iter().enumerate() {
            if s.pin_value(l, 0).get(1) == 1 {
                seen[k] = true;
            }
        }
    }
    assert_eq!(seen, [true; 4], "every bit of the counter reaches its probe");
    let errors = logiclab::drc::check(s.board()).into_iter().filter(|i| i.severity == Severity::Error).count();
    assert_eq!(errors, 0);
}
