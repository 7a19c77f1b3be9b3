//! How artifacts merge into one graph.

use panicgraph::model::{
    Artifact, Body, BuildConfig, CallSite, EdgeKind, FuncKey, Guard, PanicSite, StdMode, UnwindOrigin,
};
use panicgraph::solve::Edges;
use panicgraph::{Category, CategorySet, Graph, Policy, Reified, Solver, Termination};

/// Builds a function body one piece at a time.
struct BodyBuilder {
    body: Body,
}

#[allow(dead_code)]
impl BodyBuilder {
    /// Starts a local, non-opaque body.
    fn new(name: &str) -> Self {
        Self {
            body: Body {
                key: FuncKey(name.to_owned()),
                display: name.to_owned(),
                krate: "test".to_owned(),
                loc: None,
                sites: Vec::new(),
                calls: Vec::new(),
                opaque: false,
                foreign: false,
                local: true,
                from_tests: false,
            },
        }
    }

    /// Adds a panic raised on the ordinary control flow path.
    fn panics(mut self, category: Category) -> Self {
        self.body.sites.push(PanicSite {
            category,
            termination: Termination::Unwind,
            reason: format!("{} panic", category.name()),
            sink: None,
            loc: None,
            guard: Guard::always(),
            certain: false,
            terminates: false,
        });
        self
    }

    /// Adds a panic only when one is named, which is how a test asks for a
    /// function that cannot panic.
    fn maybe_panics(self, category: Option<Category>) -> Self {
        match category {
            Some(category) => self.panics(category),
            None => self,
        }
    }

    /// Adds a call on the ordinary control flow path.
    fn calls(mut self, callee: &str) -> Self {
        self.body.calls.push(call(callee, Guard::always()));
        self
    }

    /// Adds a call whose target is not known.
    fn calls_unresolved(mut self, kind: EdgeKind) -> Self {
        let mut edge = call("<unknown>", Guard::always());
        edge.callee = None;
        edge.kind = kind;
        self.body.calls.push(edge);
        self
    }

    /// Adds a call reachable only while the given earlier call unwinds.
    fn calls_on_unwind_of(mut self, callee: &str, call_index: u32) -> Self {
        self.body.calls.push(call(
            callee,
            Guard {
                normal: false,
                origins: vec![UnwindOrigin::Call(call_index)],
            },
        ));
        self
    }

    /// Finishes the body.
    fn build(self) -> Body {
        self.body
    }
}

/// A statically resolved call with the given reachability.
fn call(callee: &str, guard: Guard) -> CallSite {
    CallSite {
        callee: Some(FuncKey(callee.to_owned())),
        callee_display: callee.to_owned(),
        kind: EdgeKind::Static,
        loc: None,
        guard,
        barrier: false,
        terminates: false,
        candidate: false,
        sig: None,
        self_ty: None,
    }
}

/// One crate's artifact.
fn artifact(bodies: Vec<Body>) -> Artifact {
    Artifact {
        reified: Vec::new(),
        krate: "test".to_owned(),
        config: BuildConfig {
            rustc: "test".to_owned(),
            profile: "release".to_owned(),
            debug_assertions: false,
            overflow_checks: false,
            std_mode: StdMode::Shipped,
            mir_opt_level: None,
        },
        bodies,
    }
}

/// Builds the graph a set of bodies makes, as one crate's artifact.
#[allow(dead_code)]
fn graph(bodies: Vec<Body>) -> Graph {
    let made = vec![artifact(bodies)];
    Graph::from_artifacts(made)
}

#[test]
fn a_pointer_candidate_unwinds_into_the_cleanup_its_call_does() {
    // `caller` calls through a pointer. While that call unwinds, a drop
    // runs and indexes. The one function reified to that signature panics.
    let mut caller = BodyBuilder::new("caller")
        .calls_unresolved(EdgeKind::FnPtr)
        .calls("dropper")
        .build();
    caller.calls[0].sig = Some("fn()".to_owned());
    caller.calls[1].guard = Guard {
        normal: false,
        origins: vec![UnwindOrigin::Call(0)],
    };
    let mut made = artifact(vec![
        caller,
        BodyBuilder::new("dropper").panics(Category::Index).build(),
        BodyBuilder::new("target")
            .panics(Category::Explicit)
            .build(),
    ]);
    made.reified.push(Reified {
        key: FuncKey("target".to_owned()),
        display: "target".to_owned(),
        sig: "fn()".to_owned(),
    });
    let graph = Graph::from_artifacts(vec![made]);
    // With the pointer call suppressed, only the candidate unwinds.
    let solution = Solver::new(
        &graph,
        Policy {
            suppressed: CategorySet::single(Category::FnPointer),
            edges: Edges {
                follow_inexact: true,
                candidates: true,
            },
        },
    )
    .solve()
    .expect("the solver should converge");
    let caller = graph
        .id_of(&FuncKey("caller".to_owned()))
        .expect("the caller should be in the graph");
    let enabled = solution.enabled(caller);
    assert!(
        enabled.contains(Category::Explicit),
        "the candidate is followed, got {enabled:?}"
    );
    assert!(
        enabled.contains(Category::Index),
        "the candidate unwinds into the cleanup, so the drop there runs, \
         got {enabled:?}"
    );
}

#[test]
fn artifacts_that_can_be_numbered_are_assembled() {
    let built = Graph::assembled(vec![artifact(vec![
        BodyBuilder::new("caller").calls("callee").build(),
        BodyBuilder::new("caller").build(),
    ])])
    .expect("two functions can be numbered");
    assert_eq!(built.len(), 2, "the caller once, and the callee nothing defines");
    assert!(built.id_of(&FuncKey("callee".to_owned())).is_some());
    assert!(Graph::assembled(Vec::new()).expect("nothing can be numbered").is_empty());
}

#[test]
fn a_guard_without_a_way_in_is_dead() {
    assert!(!Guard::always().is_dead());
    assert!(Guard { normal: false, origins: Vec::new() }.is_dead());
    assert!(!Guard { normal: false, origins: vec![UnwindOrigin::Site(0)] }.is_dead());
}
