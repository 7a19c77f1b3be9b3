//! Explaining how one function reaches its panics.

use panicgraph::args::{self, Args, Cli, Closures, Command, Format, Generics, Scope};
use panicgraph::model::{
    Artifact, Body, BuildConfig, CallSite, EdgeKind, FuncKey, Guard, PanicSite, StdMode, UnwindOrigin,
};
use panicgraph::report;
use panicgraph::solve::Edges;
use panicgraph::{Category, CategorySet, Graph, Policy, Solution, Solver, Termination};

/// Builds a function body one piece at a time.
struct BodyBuilder {
    body: Body,
}

#[allow(dead_code)]
impl BodyBuilder {
    /// Starts a local, non-opaque body.
    fn new(name: &str) -> Self {
        Self {
            body: Body {
                key: FuncKey(name.to_owned()),
                display: name.to_owned(),
                krate: "test".to_owned(),
                loc: None,
                sites: Vec::new(),
                calls: Vec::new(),
                opaque: false,
                foreign: false,
                local: true,
                from_tests: false,
            },
        }
    }

    /// Adds a panic raised on the ordinary control flow path.
    fn panics(mut self, category: Category) -> Self {
        self.body.sites.push(PanicSite {
            category,
            termination: Termination::Unwind,
            reason: format!("{} panic", category.name()),
            sink: None,
            loc: None,
            guard: Guard::always(),
            certain: false,
            terminates: false,
        });
        self
    }

    /// Adds a panic only when one is named, which is how a test asks for a
    /// function that cannot panic.
    fn maybe_panics(self, category: Option<Category>) -> Self {
        match category {
            Some(category) => self.panics(category),
            None => self,
        }
    }

    /// Adds a call on the ordinary control flow path.
    fn calls(mut self, callee: &str) -> Self {
        self.body.calls.push(call(callee, Guard::always()));
        self
    }

    /// Adds a call whose target is not known.
    fn calls_unresolved(mut self, kind: EdgeKind) -> Self {
        let mut edge = call("<unknown>", Guard::always());
        edge.callee = None;
        edge.kind = kind;
        self.body.calls.push(edge);
        self
    }

    /// Adds a call reachable only while the given earlier call unwinds.
    fn calls_on_unwind_of(mut self, callee: &str, call_index: u32) -> Self {
        self.body.calls.push(call(
            callee,
            Guard {
                normal: false,
                origins: vec![UnwindOrigin::Call(call_index)],
            },
        ));
        self
    }

    /// Finishes the body.
    fn build(self) -> Body {
        self.body
    }
}

/// A statically resolved call with the given reachability.
fn call(callee: &str, guard: Guard) -> CallSite {
    CallSite {
        callee: Some(FuncKey(callee.to_owned())),
        callee_display: callee.to_owned(),
        kind: EdgeKind::Static,
        loc: None,
        guard,
        barrier: false,
        terminates: false,
        candidate: false,
        sig: None,
        self_ty: None,
    }
}

/// One crate's artifact.
fn artifact(bodies: Vec<Body>) -> Artifact {
    Artifact {
        reified: Vec::new(),
        krate: "test".to_owned(),
        config: BuildConfig {
            rustc: "test".to_owned(),
            profile: "release".to_owned(),
            debug_assertions: false,
            overflow_checks: false,
            std_mode: StdMode::Shipped,
            mir_opt_level: None,
        },
        bodies,
    }
}

/// Builds the graph a set of bodies makes, as one crate's artifact.
#[allow(dead_code)]
fn graph(bodies: Vec<Body>) -> Graph {
    let made = vec![artifact(bodies)];
    Graph::from_artifacts(made)
}

/// A command line with nothing on it.
#[allow(dead_code)]
fn bare() -> Cli {
    Cli {
        command: None,
        scope: Scope {
            manifest_dir: None,
            package: None,
            profile: "release".to_owned(),
            std_mode: None,
            mir_opt_level: None,
            features: args::Features { all: false, no_default: false, named: Vec::new() },
            with_tests: false,
        },
        policy: args::Policy {
            suppress: "default".to_owned(),
            only: None,
            static_only: false,
            candidates: false,
            verify: false,
            closures: Closures::Separate,
            all_crates: false,
            generics: Generics::Written,
        },
        listen: None,
        format: Format::Human,
    }
}

/// A generic function read as written, which reaches one category, and an
/// instantiation of it, which reaches another. The report names them once.
fn written_and_instance() -> Vec<Body> {
    let mut written = BodyBuilder::new("gen").panics(Category::Unwrap).build();
    written.key = FuncKey("generic:gen".to_owned());
    let mut instance = BodyBuilder::new("gen").panics(Category::Index).build();
    instance.key = FuncKey("gen<u8>".to_owned());
    vec![written, instance]
}

/// The settings of a request to explain one function.
fn asked(format: Format) -> Args {
    let mut cli = bare();
    cli.command = Some(Command::Why {
        function: "gen".to_owned(),
    });
    cli.format = format;
    cli.resolve(&Ok(Vec::new())).expect("the arguments should resolve")
}

/// Solves a graph with nothing suppressed.
fn solved(built: &Graph) -> Solution {
    Solver::new(
        built,
        Policy {
            suppressed: CategorySet::empty(),
            edges: Edges::default(),
        },
    )
    .solve()
    .expect("the solver should converge")
}

#[test]
fn every_panic_the_report_names_is_explained() {
    let built = graph(written_and_instance());
    let solution = solved(&built);
    let mut out = String::new();
    let asked = asked(Format::Human);
    report::why(&built, &solution, &asked, "gen", &mut out)
        .expect("the explanation should render");
    for category in ["unwrap", "index"] {
        assert!(
            out.contains(&format!("gen can panic with `{category}`")),
            "the report names both panics under `gen`, so both are \
             explained, got:\n{out}"
        );
    }
    assert!(
        out.contains("has 2 bodies"),
        "the reader is told why two bodies answer for one name, got:\n{out}"
    );
}

#[test]
fn the_document_names_every_panic_and_where_its_path_starts() {
    let built = graph(written_and_instance());
    let solution = solved(&built);
    let mut out = String::new();
    let asked = asked(Format::Json);
    report::why(&built, &solution, &asked, "gen", &mut out)
        .expect("the document should render");
    let doc: serde_json::Value =
        serde_json::from_str(&out).expect("the document should be json");
    assert_eq!(doc["bodies"], 2);
    assert_eq!(doc["categories"], serde_json::Value::from(vec!["index", "unwrap"]));
    let paths = doc["paths"].as_array().cloned().unwrap_or_default();
    assert_eq!(paths.len(), 2, "one path per category, got {doc:#}");
    assert!(
        paths.iter().all(|path| path["from"] == "gen"),
        "each path names the body it starts in, got {doc:#}"
    );
}
