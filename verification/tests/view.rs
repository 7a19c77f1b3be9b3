//! What the interactive view is sent.

use panicgraph::model::{
    Artifact, Body, BuildConfig, CallSite, EdgeKind, FuncKey, Guard, PanicSite, StdMode, UnwindOrigin,
};
use panicgraph::api;
use panicgraph::solve::Edges;
use panicgraph::{Category, CategorySet, Graph, Termination};

/// Builds a function body one piece at a time.
struct BodyBuilder {
    body: Body,
}

#[allow(dead_code)]
impl BodyBuilder {
    /// Starts a local, non-opaque body.
    fn new(name: &str) -> Self {
        Self {
            body: Body {
                key: FuncKey(name.to_owned()),
                display: name.to_owned(),
                krate: "test".to_owned(),
                loc: None,
                sites: Vec::new(),
                calls: Vec::new(),
                opaque: false,
                foreign: false,
                local: true,
                from_tests: false,
            },
        }
    }

    /// Adds a panic raised on the ordinary control flow path.
    fn panics(mut self, category: Category) -> Self {
        self.body.sites.push(PanicSite {
            category,
            termination: Termination::Unwind,
            reason: format!("{} panic", category.name()),
            sink: None,
            loc: None,
            guard: Guard::always(),
            certain: false,
            terminates: false,
        });
        self
    }

    /// Adds a panic only when one is named, which is how a test asks for a
    /// function that cannot panic.
    fn maybe_panics(self, category: Option<Category>) -> Self {
        match category {
            Some(category) => self.panics(category),
            None => self,
        }
    }

    /// Adds a call on the ordinary control flow path.
    fn calls(mut self, callee: &str) -> Self {
        self.body.calls.push(call(callee, Guard::always()));
        self
    }

    /// Adds a call whose target is not known.
    fn calls_unresolved(mut self, kind: EdgeKind) -> Self {
        let mut edge = call("<unknown>", Guard::always());
        edge.callee = None;
        edge.kind = kind;
        self.body.calls.push(edge);
        self
    }

    /// Adds a call reachable only while the given earlier call unwinds.
    fn calls_on_unwind_of(mut self, callee: &str, call_index: u32) -> Self {
        self.body.calls.push(call(
            callee,
            Guard {
                normal: false,
                origins: vec![UnwindOrigin::Call(call_index)],
            },
        ));
        self
    }

    /// Finishes the body.
    fn build(self) -> Body {
        self.body
    }
}

/// A statically resolved call with the given reachability.
fn call(callee: &str, guard: Guard) -> CallSite {
    CallSite {
        callee: Some(FuncKey(callee.to_owned())),
        callee_display: callee.to_owned(),
        kind: EdgeKind::Static,
        loc: None,
        guard,
        barrier: false,
        terminates: false,
        candidate: false,
        sig: None,
        self_ty: None,
    }
}

/// One crate's artifact.
fn artifact(bodies: Vec<Body>) -> Artifact {
    Artifact {
        reified: Vec::new(),
        krate: "test".to_owned(),
        config: BuildConfig {
            rustc: "test".to_owned(),
            profile: "release".to_owned(),
            debug_assertions: false,
            overflow_checks: false,
            std_mode: StdMode::Shipped,
            mir_opt_level: None,
        },
        bodies,
    }
}

/// Builds the graph a set of bodies makes, as one crate's artifact.
#[allow(dead_code)]
fn graph(bodies: Vec<Body>) -> Graph {
    let made = vec![artifact(bodies)];
    Graph::from_artifacts(made)
}

/// A generic function read as written, which reaches one category, and an
/// instantiation of it, which reaches another, in that order.
fn written_and_instance() -> Vec<Body> {
    let mut written = BodyBuilder::new("gen").panics(Category::Unwrap).build();
    written.key = FuncKey("generic:gen".to_owned());
    let mut instance = BodyBuilder::new("gen").panics(Category::Index).build();
    instance.key = FuncKey("gen<u8>".to_owned());
    vec![written, instance]
}

/// The index of the first node of a name, which is the one the view keeps
/// for it.
fn first_named(built: &Graph, name: &str) -> usize {
    built
        .iter()
        .iter()
        .find(|(_, body)| body.display == name)
        .map(|(id, _)| id.index())
        .expect("the name should be in the graph")
}

#[test]
fn a_function_frame_names_the_function_it_stands_for() {
    // The closure comes first, so the function's frame is made as the
    // first segment of the closure's path before the function arrives.
    let built = graph(vec![
        BodyBuilder::new("outer::{closure#0}")
            .panics(Category::Unwrap)
            .build(),
        BodyBuilder::new("outer").panics(Category::Index).build(),
    ]);
    let flame = api::flame(&built, CategorySet::empty(), Edges::default(), false)
        .expect("the tree should build");
    let rows = flame["nodes"].as_array().cloned().unwrap_or_default();
    for full in ["outer", "outer::{closure#0}"] {
        assert!(
            rows.iter()
                .any(|row| row["kind"] == "function" && row["full"] == full),
            "the view explains a frame by the function frame above it, so \
             `{full}` needs one carrying its whole name, got {rows:#?}"
        );
    }
}

#[test]
fn a_click_explains_a_panic_another_body_of_the_name_reaches() {
    let built = graph(written_and_instance());
    let node = first_named(&built, "gen");
    for category in ["unwrap", "index"] {
        let answer = api::why(
            &built,
            node,
            category,
            CategorySet::empty(),
            Edges::default(),
        )
        .expect("the question should be answered");
        assert_eq!(
            answer["found"], true,
            "`gen` is drawn reaching {category}, so a click on it must \
             explain it, got {answer:#}"
        );
    }
}

#[test]
fn the_summary_counts_functions_as_the_report_names_them() {
    let built = graph(written_and_instance());
    let solved = api::solve(&built, CategorySet::empty(), Edges::default())
        .expect("the solve should run");
    assert_eq!(
        solved["summary"]["can_panic"], 1,
        "a generic function and its instantiation are one function"
    );
    let index = solved["counterfactual"]
        .as_array()
        .and_then(|rows| rows.iter().find(|row| row["category"] == "index"))
        .cloned()
        .unwrap_or_default();
    assert_eq!(index["functions_reaching"], 1);
}
