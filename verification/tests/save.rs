use logiclab::board::Board;
use logiclab::defs::{DefId, Params};
use logiclab::save::{Project, SaveError, SCHEMA_VERSION};

fn sample() -> Project {
    let mut b = Board::new();
    let sw = b.add_instance(DefId::Switch, Params::default().width(1), 0, 0);
    let led = b.add_instance(DefId::Led, Params::default().width(1), 10, 0);
    assert!(b.connect_pins((sw, 0), (led, 0)));
    b.add_instance(DefId::Adder, Params::default().width(8), 0, 20);
    let mut p = Project::new("测试工程");
    p.add_board(b);
    p
}

#[test]
fn newer_version_is_refused_when_loading() {
    let p = sample();
    match p.finish_load(SCHEMA_VERSION + 5) {
        Err(SaveError::TooNew { found, supported }) => {
            assert_eq!(found, SCHEMA_VERSION + 5);
            assert_eq!(supported, SCHEMA_VERSION);
        },
        _ => panic!("a newer version must be refused"),
    }
}

#[test]
fn loading_rebuilds_pin_layouts() {
    let mut p = sample();
    p.boards[0].instances[0].pins.clear();
    let p2 = p.finish_load(SCHEMA_VERSION).ok().unwrap();
    assert_eq!(p2.boards[0].instances[0].pins.len(), 1, "the pin layout cache is rebuilt");
    assert_eq!(p2.schema_version, SCHEMA_VERSION);
}

#[test]
fn loading_fixes_main_index() {
    let mut p = sample();
    p.main_board = 7;
    let p2 = p.finish_load(0).ok().unwrap();
    assert_eq!(p2.main_board, 0);
}

#[test]
fn coordinates_out_of_range_are_refused() {
    let mut p = sample();
    p.boards[0].instances[0].x = i32::MAX;
    assert!(matches!(p.finish_load(SCHEMA_VERSION), Err(SaveError::Decode(_))));
}

#[test]
fn error_messages_name_the_versions() {
    let e = SaveError::TooNew { found: 9, supported: 1 };
    let m = e.message();
    assert!(m.contains('9'));
    assert!(m.contains('1'));
}

#[test]
fn main_board_access() {
    let mut p = sample();
    assert!(p.main().is_some());
    p.main_mut().unwrap().name = "x".to_string();
    assert_eq!(p.boards[0].name, "x");
    p.main_board = 3;
    assert!(p.main().is_none());
}
