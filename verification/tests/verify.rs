//! What the compiled artifact says of the findings.

use panicgraph::model::{
    Artifact, Body, BuildConfig, CallSite, EdgeKind, FuncKey, Guard, PanicSite, StdMode, UnwindOrigin,
};
use panicgraph::solve::Edges;
use panicgraph::verify::{entry_categories, is_swept, is_walked, Graphed, Verdict};
use panicgraph::{Category, CategorySet, Graph, Policy, Solver, Termination};

/// Builds a function body one piece at a time.
struct BodyBuilder {
    body: Body,
}

#[allow(dead_code)]
impl BodyBuilder {
    /// Starts a local, non-opaque body.
    fn new(name: &str) -> Self {
        Self {
            body: Body {
                key: FuncKey(name.to_owned()),
                display: name.to_owned(),
                krate: "test".to_owned(),
                loc: None,
                sites: Vec::new(),
                calls: Vec::new(),
                opaque: false,
                foreign: false,
                local: true,
                from_tests: false,
            },
        }
    }

    /// Adds a panic raised on the ordinary control flow path.
    fn panics(mut self, category: Category) -> Self {
        self.body.sites.push(PanicSite {
            category,
            termination: Termination::Unwind,
            reason: format!("{} panic", category.name()),
            sink: None,
            loc: None,
            guard: Guard::always(),
            certain: false,
            terminates: false,
        });
        self
    }

    /// Adds a panic only when one is named, which is how a test asks for a
    /// function that cannot panic.
    fn maybe_panics(self, category: Option<Category>) -> Self {
        match category {
            Some(category) => self.panics(category),
            None => self,
        }
    }

    /// Adds a call on the ordinary control flow path.
    fn calls(mut self, callee: &str) -> Self {
        self.body.calls.push(call(callee, Guard::always()));
        self
    }

    /// Adds a call whose target is not known.
    fn calls_unresolved(mut self, kind: EdgeKind) -> Self {
        let mut edge = call("<unknown>", Guard::always());
        edge.callee = None;
        edge.kind = kind;
        self.body.calls.push(edge);
        self
    }

    /// Adds a call reachable only while the given earlier call unwinds.
    fn calls_on_unwind_of(mut self, callee: &str, call_index: u32) -> Self {
        self.body.calls.push(call(
            callee,
            Guard {
                normal: false,
                origins: vec![UnwindOrigin::Call(call_index)],
            },
        ));
        self
    }

    /// Finishes the body.
    fn build(self) -> Body {
        self.body
    }
}

/// A statically resolved call with the given reachability.
fn call(callee: &str, guard: Guard) -> CallSite {
    CallSite {
        callee: Some(FuncKey(callee.to_owned())),
        callee_display: callee.to_owned(),
        kind: EdgeKind::Static,
        loc: None,
        guard,
        barrier: false,
        terminates: false,
        candidate: false,
        sig: None,
        self_ty: None,
    }
}

/// One crate's artifact.
fn artifact(bodies: Vec<Body>) -> Artifact {
    Artifact {
        reified: Vec::new(),
        krate: "test".to_owned(),
        config: BuildConfig {
            rustc: "test".to_owned(),
            profile: "release".to_owned(),
            debug_assertions: false,
            overflow_checks: false,
            std_mode: StdMode::Shipped,
            mir_opt_level: None,
        },
        bodies,
    }
}

/// Builds the graph a set of bodies makes, as one crate's artifact.
#[allow(dead_code)]
fn graph(bodies: Vec<Body>) -> Graph {
    let made = vec![artifact(bodies)];
    Graph::from_artifacts(made)
}

const INDEX: &str = "_ZN4core9panicking18panic_bounds_check17h0123456789abcdefE";
const DIVIDE: &str = "_ZN4core9panicking11panic_const23panic_const_div_by_zero17h0123456789abcdefE";

/// A listing of two functions: one that indexes, and one that calls it.
fn listing() -> String {
    format!(
        "0000000000000000 <caller>:\n\
         \x20  0:\tcall   5 <caller+0x5>\n\
         \t\t\t1:  R_X86_64_PLT32\tindexer-0x4\n\
         \x20  5:\tret\n\
         \n\
         0000000000000000 <indexer>:\n\
         \x20  0:\tcall   5 <indexer+0x5>\n\
         \t\t\t1:  R_X86_64_PLT32\t{INDEX}-0x4\n\
         \x20  5:\tret\n\
         \n\
         0000000000000000 <clean>:\n\
         \x20  0:\tret\n"
    )
}

fn key(name: &str) -> FuncKey {
    FuncKey(name.to_owned())
}

#[test]
fn entry_points_stand_for_categories() {
    assert_eq!(
        entry_categories("core::panicking::panic_bounds_check"),
        Some(CategorySet::single(Category::Index))
    );
    assert_eq!(
        entry_categories("core::panicking::panic_const::panic_const_div_by_zero"),
        Some(CategorySet::single(Category::DivideByZero))
    );
    assert_eq!(
        entry_categories("core::panicking::panic_const::panic_const_add_overflow"),
        Some(CategorySet::single(Category::Overflow))
    );
    assert_eq!(entry_categories("alloc::raw_vec::handle_error"), Some(CategorySet::oom()));
    assert_eq!(entry_categories("mycrate::parse"), None);
}

#[test]
fn a_call_that_survives_confirms_the_finding() {
    let verdicts = Graphed::new().read(&listing()).resolve();
    assert_eq!(verdicts.of(&key("indexer"), Category::Index), Verdict::Confirmed);
    assert_eq!(
        verdicts.of(&key("caller"), Category::Index),
        Verdict::Confirmed,
        "what a callee reaches, its caller reaches"
    );
    assert_eq!(verdicts.of(&key("indexer"), Category::DivideByZero), Verdict::Absent);
    assert_eq!(verdicts.of(&key("clean"), Category::Index), Verdict::Absent);
    assert_eq!(verdicts.of(&key("gone"), Category::Index), Verdict::Unverified);
    assert_eq!(
        verdicts.of(&key("clean"), Category::RefCountOverflow),
        Verdict::Unverified,
        "an inlined trap leaves no symbol"
    );
}

#[test]
fn what_the_artifact_reaches_and_nobody_reported_is_missed() {
    let built = graph(vec![
        BodyBuilder::new("indexer").build(),
        BodyBuilder::new("clean").build(),
    ]);
    let policy = Policy { suppressed: CategorySet::empty(), edges: Edges::default() };
    let solution = Solver::new(&built, policy).solve().expect("the solver should converge");
    let missed = Graphed::new().read(&listing()).resolve().missed(&built, &solution);
    assert_eq!(missed.len(), 1);
    assert_eq!(built.body(missed[0].id).display, "indexer");
    assert_eq!(missed[0].reaches, vec![CategorySet::single(Category::Index)]);
}

#[test]
fn what_a_disassembler_prints_need_not_be_text() {
    let mut printed = vec![0xff, b'\n'];
    printed.extend_from_slice(listing().as_bytes());
    let verdicts = Graphed::new().read_printed(&printed).resolve();
    assert_eq!(verdicts.of(&key("indexer"), Category::Index), Verdict::Confirmed);
    assert_eq!(verdicts.of(&key("clean"), Category::Index), Verdict::Absent);
    // A byte that is no text is read as one character, so that the name it
    // stands in is another one.
    let broken = b"0000000000000000 <ind\xffexer>:\n".to_vec();
    let verdicts = Graphed::new().read_printed(&broken).resolve();
    assert_eq!(verdicts.of(&key("indexer"), Category::Index), Verdict::Unverified);
    assert_eq!(verdicts.of(&key("ind\u{fffd}exer"), Category::Index), Verdict::Absent);
}

#[test]
fn symbols_are_read_with_their_hash_left_out() {
    let text = format!(
        "0000000000000000 <divider>:\n   0:\tcall   5 <divider+0x5>\n\t\t\t1:  R_X86_64_PLT32\t{DIVIDE}-0x4\n"
    );
    let verdicts = Graphed::new().read(&text).resolve();
    assert_eq!(verdicts.of(&key("divider"), Category::DivideByZero), Verdict::Confirmed);
    assert_eq!(Verdict::Confirmed.name(), "confirmed");
}

#[test]
fn only_the_profiles_own_libraries_are_swept() {
    assert!(is_swept("libknown.rlib", "release", "release"));
    assert!(!is_swept("libknown.rlib", "debug", "release"), "another profile's output");
    assert!(!is_swept("known.rlib", "release", "release"));
    assert!(!is_swept("libknown.so", "release", "release"));
    assert!(!is_walked("deps"));
    assert!(is_walked("release") && is_walked("deps2"));
}
