//! Behaviour of the suppression-aware solver.

use panicgraph::model::{
    Artifact, Body, BuildConfig, CallSite, EdgeKind, FuncKey, Guard, PanicSite, StdMode, UnwindOrigin,
};
use panicgraph::solve::Edges;
use panicgraph::witness;
use panicgraph::{Category, CategorySet, FuncId, Graph, Policy, Solution, Solver, Terminal, Termination};

/// Builds a function body one piece at a time.
struct BodyBuilder {
    body: Body,
}

#[allow(dead_code)]
impl BodyBuilder {
    /// Starts a local, non-opaque body.
    fn new(name: &str) -> Self {
        Self {
            body: Body {
                key: FuncKey(name.to_owned()),
                display: name.to_owned(),
                krate: "test".to_owned(),
                loc: None,
                sites: Vec::new(),
                calls: Vec::new(),
                opaque: false,
                foreign: false,
                local: true,
                from_tests: false,
            },
        }
    }

    /// Adds a panic raised on the ordinary control flow path.
    fn panics(mut self, category: Category) -> Self {
        self.body.sites.push(PanicSite {
            category,
            termination: Termination::Unwind,
            reason: format!("{} panic", category.name()),
            sink: None,
            loc: None,
            guard: Guard::always(),
            certain: false,
            terminates: false,
        });
        self
    }

    /// Adds a panic only when one is named, which is how a test asks for a
    /// function that cannot panic.
    fn maybe_panics(self, category: Option<Category>) -> Self {
        match category {
            Some(category) => self.panics(category),
            None => self,
        }
    }

    /// Adds a call on the ordinary control flow path.
    fn calls(mut self, callee: &str) -> Self {
        self.body.calls.push(call(callee, Guard::always()));
        self
    }

    /// Adds a call whose target is not known.
    fn calls_unresolved(mut self, kind: EdgeKind) -> Self {
        let mut edge = call("<unknown>", Guard::always());
        edge.callee = None;
        edge.kind = kind;
        self.body.calls.push(edge);
        self
    }

    /// Adds a call reachable only while the given earlier call unwinds.
    fn calls_on_unwind_of(mut self, callee: &str, call_index: u32) -> Self {
        self.body.calls.push(call(
            callee,
            Guard {
                normal: false,
                origins: vec![UnwindOrigin::Call(call_index)],
            },
        ));
        self
    }

    /// Finishes the body.
    fn build(self) -> Body {
        self.body
    }
}

/// A statically resolved call with the given reachability.
fn call(callee: &str, guard: Guard) -> CallSite {
    CallSite {
        callee: Some(FuncKey(callee.to_owned())),
        callee_display: callee.to_owned(),
        kind: EdgeKind::Static,
        loc: None,
        guard,
        barrier: false,
        terminates: false,
        candidate: false,
        sig: None,
        self_ty: None,
    }
}

/// One crate's artifact.
fn artifact(bodies: Vec<Body>) -> Artifact {
    Artifact {
        reified: Vec::new(),
        krate: "test".to_owned(),
        config: BuildConfig {
            rustc: "test".to_owned(),
            profile: "release".to_owned(),
            debug_assertions: false,
            overflow_checks: false,
            std_mode: StdMode::Shipped,
            mir_opt_level: None,
        },
        bodies,
    }
}

/// Builds the graph a set of bodies makes, as one crate's artifact.
#[allow(dead_code)]
fn graph(bodies: Vec<Body>) -> Graph {
    let made = vec![artifact(bodies)];
    Graph::from_artifacts(made)
}

/// Solves a set of bodies under one suppression policy.
fn solve(bodies: Vec<Body>, suppressed: CategorySet) -> (Graph, Solution) {
    let graph = graph(bodies);
    let policy = Policy {
        suppressed,
        edges: Edges {
            follow_inexact: true,
            candidates: false,
        },
    };
    let solution = Solver::new(&graph, policy)
        .solve()
        .expect("the solver should converge on a finite graph");
    (graph, solution)
}

/// Looks a function up by name.
fn id(graph: &Graph, name: &str) -> FuncId {
    graph
        .id_of(&FuncKey(name.to_owned()))
        .expect("the function should be in the graph")
}

#[test]
fn suppression_is_transitive() {
    let bodies = vec![
        BodyBuilder::new("caller").calls("grow").build(),
        BodyBuilder::new("grow")
            .panics(Category::CapacityOverflow)
            .build(),
    ];

    let (graph, solution) = solve(bodies.clone(), CategorySet::empty());
    assert!(
        solution
            .enabled(id(&graph, "caller"))
            .contains(Category::CapacityOverflow),
        "without suppression the caller inherits the allocation panic"
    );

    let (graph, solution) = solve(bodies, CategorySet::oom());
    assert!(
        solution.is_clean(id(&graph, "caller")),
        "a caller that only panics through allocation is clean once \
         allocation is suppressed"
    );
}

#[test]
fn unrelated_panics_survive_suppression() {
    let bodies = vec![
        BodyBuilder::new("caller")
            .calls("grow")
            .calls("index")
            .build(),
        BodyBuilder::new("grow")
            .panics(Category::CapacityOverflow)
            .build(),
        BodyBuilder::new("index").panics(Category::Index).build(),
    ];

    let (graph, solution) = solve(bodies, CategorySet::oom());
    let enabled = solution.enabled(id(&graph, "caller"));
    assert!(
        enabled.contains(Category::Index),
        "suppressing allocation must not hide an index panic"
    );
    assert!(
        !enabled.contains(Category::CapacityOverflow),
        "the allocation panic is suppressed"
    );
}

#[test]
fn cleanup_reachable_only_through_a_suppressed_panic_is_suppressed() {
    // `caller` calls `grow`, which can only fail by exhausting capacity.
    // While that failure unwinds, a drop runs and panics. Assuming the
    // allocation succeeds means the drop never runs either.
    let bodies = vec![
        BodyBuilder::new("caller")
            .calls("grow")
            .calls_on_unwind_of("drop_glue", 0)
            .build(),
        BodyBuilder::new("grow")
            .panics(Category::CapacityOverflow)
            .build(),
        BodyBuilder::new("drop_glue")
            .panics(Category::Explicit)
            .build(),
    ];

    let (graph, solution) = solve(bodies.clone(), CategorySet::empty());
    assert!(
        solution
            .enabled(id(&graph, "caller"))
            .contains(Category::Explicit),
        "without suppression the unwind path reaches the panicking drop"
    );

    let (graph, solution) = solve(bodies, CategorySet::oom());
    assert!(
        solution.is_clean(id(&graph, "caller")),
        "the drop is only reachable while the suppressed panic unwinds, so \
         it is unreachable too"
    );
}

#[test]
fn cleanup_reachable_normally_survives_suppression() {
    // The same panicking drop, but now also on the ordinary path. It must
    // still be reported.
    let bodies = vec![
        BodyBuilder::new("caller")
            .calls("grow")
            .calls("drop_glue")
            .build(),
        BodyBuilder::new("grow")
            .panics(Category::CapacityOverflow)
            .build(),
        BodyBuilder::new("drop_glue")
            .panics(Category::Explicit)
            .build(),
    ];

    let (graph, solution) = solve(bodies, CategorySet::oom());
    assert!(
        solution
            .enabled(id(&graph, "caller"))
            .contains(Category::Explicit),
        "a drop on the normal path is unaffected by allocation suppression"
    );
}

#[test]
fn recursion_converges() {
    let bodies = vec![
        BodyBuilder::new("a").calls("b").build(),
        BodyBuilder::new("b")
            .calls("a")
            .panics(Category::Index)
            .build(),
    ];

    let (graph, solution) = solve(bodies, CategorySet::empty());
    assert!(
        solution.enabled(id(&graph, "a")).contains(Category::Index),
        "a cycle must still propagate the panic"
    );
}

#[test]
fn missing_callees_are_unknown_not_clean() {
    let bodies = vec![BodyBuilder::new("caller").calls("absent").build()];

    let (graph, solution) = solve(bodies, CategorySet::empty());
    assert!(
        solution
            .enabled(id(&graph, "caller"))
            .contains(Category::Unknown),
        "a callee with no recorded body is unknown, never assumed clean"
    );
}

#[test]
fn witness_names_the_panicking_function() {
    let bodies = vec![
        BodyBuilder::new("caller").calls("middle").build(),
        BodyBuilder::new("middle").calls("leaf").build(),
        BodyBuilder::new("leaf").panics(Category::Unwrap).build(),
    ];

    let (graph, solution) = solve(bodies, CategorySet::empty());
    let path = witness::find(
        &graph,
        &solution,
        id(&graph, "caller"),
        Category::Unwrap,
    )
    .expect("the unwrap should be reachable");

    assert_eq!(graph.body(path.func).display, "leaf");
    assert_eq!(path.hops.len(), 2, "the path runs caller -> middle -> leaf");
    assert_eq!(path.terminal, Terminal::Site(0));
}

#[test]
fn witness_is_absent_when_suppressed() {
    let bodies = vec![
        BodyBuilder::new("caller").calls("grow").build(),
        BodyBuilder::new("grow")
            .panics(Category::CapacityOverflow)
            .build(),
    ];

    let (graph, solution) = solve(bodies, CategorySet::oom());
    assert!(
        witness::find(
            &graph,
            &solution,
            id(&graph, "caller"),
            Category::CapacityOverflow,
        )
        .is_none(),
        "a suppressed category has no witness"
    );
}
