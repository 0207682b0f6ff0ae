//! LogicLab core: a digital circuit sandbox.
//!
//! Modules:
//!   values  value model (widths, three-state bits, wrapping arithmetic)
//!   text    string helpers (names, keys)
//!   defs    component definitions and their evaluation
//!   board   editing model, hit testing and auto-routing
//!   netlist which pins and wires share a net
//!   elaborate hierarchy flattened into one netlist
//!   engine  tick simulation
//!   graph   reachability on small directed graphs
//!   drc     design-rule checks
//!   view    what a shell draws
//!   examples built-in example circuits
//!   save    projects and what loading decides
//!   session editing facade: undo / redo, hierarchy, waves
pub mod values;
pub mod text;
pub mod defs;
pub mod board;
pub mod netlist;
pub mod elaborate;
pub mod engine;
pub mod graph;
pub mod drc;
pub mod view;
pub mod examples;
pub mod save;
pub mod session;

pub use board::{Board, Instance, Point, Wire, NO_NET};
pub use netlist::Netlist;
pub use defs::{Category, CompState, DefId, Dir, Params, PinDef};
pub use engine::{Engine, NO_COMP};
pub use drc::{check as drc_check, Issue, IssueKind, Severity};
pub use examples::Example;
pub use save::{Project, SaveError, SCHEMA_VERSION};
pub use session::Session;
pub use values::{format_value, Bit, NetValue, Width};
pub use view::{build_view, refresh_values, CircuitView, NetStatus};
