//! Reports which functions can panic, why, and through what call path.
//!
//! The analysis proper is the taxonomy, the graph, the solver and the witness
//! search. None of it depends on the compiler: the driver produces
//! [`Artifact`] values and everything here works from those, which is what
//! lets the whole thing be tested without building a crate first.

pub mod api;
pub mod args;
pub mod branch;
pub mod bytes;
pub mod category;
pub mod check;
pub mod complete;
pub mod cover;
pub mod edges;
pub mod effects;
pub mod extract;
pub mod fixpoint;
pub mod flow;
pub mod fold;
pub mod graph;
pub mod height;
pub mod json;
pub mod known;
pub mod lists;
pub mod mir;
pub mod model;
pub mod palette;
pub mod picture;
pub mod places;
pub mod ranges;
pub mod read;
pub mod record;
pub mod report;
pub mod run;
pub mod select;
pub mod sinks;
pub mod serve;
pub mod solve;
pub mod state;
pub mod story;
pub mod summary;
pub mod svg;
pub mod table;
pub mod text;
pub mod truth;
pub mod value;
pub mod verify;
pub mod witness;

pub use crate::category::{parse_selector, Category, CategorySet, Termination};
pub use crate::graph::{FuncId, Graph};
pub use crate::model::{
    Artifact, Body, BuildConfig, CallSite, EdgeKind, FuncKey, Guard, Loc, PanicSite, Reified,
    StdMode, UnwindOrigin,
};
pub use crate::solve::{Policy, Solution, Solver};
pub use crate::witness::{Terminal, Witness};
