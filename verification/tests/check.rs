//! What a continuous integration run lets pass.

use panicgraph::args::{self, Args, Check, Cli, Closures, Command, Format, Generics, Scope};
use panicgraph::check::{self, exit_code, recorded_text, say_recorded, EXIT_ERROR};
use panicgraph::model::{
    Artifact, Body, BuildConfig, CallSite, EdgeKind, FuncKey, Guard, PanicSite, StdMode, UnwindOrigin,
};
use panicgraph::solve::Edges;
use panicgraph::{Category, Graph, Policy, Solver, Termination};

/// Builds a function body one piece at a time.
struct BodyBuilder {
    body: Body,
}

#[allow(dead_code)]
impl BodyBuilder {
    /// Starts a local, non-opaque body.
    fn new(name: &str) -> Self {
        Self {
            body: Body {
                key: FuncKey(name.to_owned()),
                display: name.to_owned(),
                krate: "test".to_owned(),
                loc: None,
                sites: Vec::new(),
                calls: Vec::new(),
                opaque: false,
                foreign: false,
                local: true,
                from_tests: false,
            },
        }
    }

    /// Adds a panic raised on the ordinary control flow path.
    fn panics(mut self, category: Category) -> Self {
        self.body.sites.push(PanicSite {
            category,
            termination: Termination::Unwind,
            reason: format!("{} panic", category.name()),
            sink: None,
            loc: None,
            guard: Guard::always(),
            certain: false,
            terminates: false,
        });
        self
    }

    /// Adds a panic only when one is named, which is how a test asks for a
    /// function that cannot panic.
    fn maybe_panics(self, category: Option<Category>) -> Self {
        match category {
            Some(category) => self.panics(category),
            None => self,
        }
    }

    /// Adds a call on the ordinary control flow path.
    fn calls(mut self, callee: &str) -> Self {
        self.body.calls.push(call(callee, Guard::always()));
        self
    }

    /// Adds a call whose target is not known.
    fn calls_unresolved(mut self, kind: EdgeKind) -> Self {
        let mut edge = call("<unknown>", Guard::always());
        edge.callee = None;
        edge.kind = kind;
        self.body.calls.push(edge);
        self
    }

    /// Adds a call reachable only while the given earlier call unwinds.
    fn calls_on_unwind_of(mut self, callee: &str, call_index: u32) -> Self {
        self.body.calls.push(call(
            callee,
            Guard {
                normal: false,
                origins: vec![UnwindOrigin::Call(call_index)],
            },
        ));
        self
    }

    /// Finishes the body.
    fn build(self) -> Body {
        self.body
    }
}

/// A statically resolved call with the given reachability.
fn call(callee: &str, guard: Guard) -> CallSite {
    CallSite {
        callee: Some(FuncKey(callee.to_owned())),
        callee_display: callee.to_owned(),
        kind: EdgeKind::Static,
        loc: None,
        guard,
        barrier: false,
        terminates: false,
        candidate: false,
        sig: None,
        self_ty: None,
    }
}

/// One crate's artifact.
fn artifact(bodies: Vec<Body>) -> Artifact {
    Artifact {
        reified: Vec::new(),
        krate: "test".to_owned(),
        config: BuildConfig {
            rustc: "test".to_owned(),
            profile: "release".to_owned(),
            debug_assertions: false,
            overflow_checks: false,
            std_mode: StdMode::Shipped,
            mir_opt_level: None,
        },
        bodies,
    }
}

/// Builds the graph a set of bodies makes, as one crate's artifact.
#[allow(dead_code)]
fn graph(bodies: Vec<Body>) -> Graph {
    let made = vec![artifact(bodies)];
    Graph::from_artifacts(made)
}

/// A command line with nothing on it.
#[allow(dead_code)]
fn bare() -> Cli {
    Cli {
        command: None,
        scope: Scope {
            manifest_dir: None,
            package: None,
            profile: "release".to_owned(),
            std_mode: None,
            mir_opt_level: None,
            features: args::Features { all: false, no_default: false, named: Vec::new() },
            with_tests: false,
        },
        policy: args::Policy {
            suppress: "default".to_owned(),
            only: None,
            static_only: false,
            candidates: false,
            verify: false,
            closures: Closures::Separate,
            all_crates: false,
            generics: Generics::Written,
        },
        listen: None,
        format: Format::Human,
    }
}

/// Where a baseline is said to be.
const PATH: &str = "pg.json";

/// What reading a file that is not there gives.
fn missing() -> Result<String, String> {
    Err("No such file or directory (os error 2)".to_owned())
}

/// A function that panics with one category, or one that does not.
fn body(name: &str, category: Option<Category>) -> Body {
    BodyBuilder::new(name).maybe_panics(category).build()
}

/// Reads a check invocation into the settings and its gate.
fn gate(argv: &[&str]) -> (Args, Check) {
    let mut cli = bare();
    let mut rules = Check::default();
    let mut i = 0;
    while i < argv.len() {
        let value = argv.get(i + 1).map(|v| (*v).to_owned());
        match argv[i] {
            "--forbid" => rules.forbid.push(value.expect("a pattern was given")),
            "--allow" => rules.allow.push(value.expect("a pattern was given")),
            "--max" => rules.max = value.and_then(|v| v.parse().ok()),
            "--baseline" => rules.baseline = value,
            "--closures" => cli.policy.closures = Closures::Parent,
            other => {
                match other {
                    "--fail-on-unknown" => rules.fail_on_unknown = true,
                    "--all-crates" => cli.policy.all_crates = true,
                    "--static-only" => cli.policy.static_only = true,
                    "--candidates" => cli.policy.candidates = true,
                    _ => panic!("{other} is not a flag of a check"),
                }
                i += 1;
                continue;
            }
        }
        i += 2;
    }
    let copy = Check {
        forbid: rules.forbid.clone(),
        allow: rules.allow.clone(),
        max: rules.max,
        baseline: rules.baseline.clone(),
        fail_on_unknown: rules.fail_on_unknown,
    };
    cli.command = Some(Command::Check(copy));
    (cli.resolve(&Ok(Vec::new())).expect("the arguments should resolve"), rules)
}

/// Runs a gate over the given functions, with what reading a baseline gave.
fn judged(bodies: Vec<Body>, argv: &[&str], contents: Result<String, String>) -> check::Outcome {
    let built = graph(bodies);
    let (settings, rules) = gate(argv);
    let solution = Solver::new(
        &built,
        Policy {
            suppressed: settings.suppress,
            edges: Edges::default(),
        },
    )
    .solve()
    .expect("the solver should converge");
    check::run(&built, &solution, &settings, &rules, &contents).expect("the check should run")
}

/// Runs a gate over the given functions.
fn outcome(bodies: Vec<Body>, argv: &[&str]) -> check::Outcome {
    judged(bodies, argv, missing())
}

/// Runs a check against a baseline over the given functions.
fn against(bodies: Vec<Body>, file: &str) -> check::Outcome {
    judged(bodies, &["--baseline", PATH], Ok(file.to_owned()))
}

/// The functions used by most of these tests.
fn sample() -> Vec<Body> {
    vec![
        body("parse", Some(Category::Unwrap)),
        body("read", Some(Category::Index)),
        body("clean", None),
    ]
}

#[test]
fn with_no_gate_nothing_may_panic() {
    let result = outcome(sample(), &[]);
    assert!(result.failed());
    assert_eq!(
        result.violations.len(),
        2,
        "the two panicking functions are both violations, the clean one is \
         not"
    );
}

#[test]
fn a_pattern_narrows_what_must_not_panic() {
    let result = outcome(sample(), &["--forbid", "^parse$"]);
    assert!(result.failed());
    assert_eq!(result.violations.len(), 1);
    assert_eq!(result.violations[0].finding.function, "parse");
}

#[test]
fn a_pattern_matching_only_clean_functions_passes() {
    let result = outcome(sample(), &["--forbid", "^clean$"]);
    assert!(!result.failed());
    assert_eq!(
        result.findings.len(),
        2,
        "the findings still list everything that panics"
    );
}

#[test]
fn an_allowance_exempts_a_known_exception() {
    let result = outcome(
        sample(),
        &["--forbid", "^(parse|read)$", "--allow", "^read$"],
    );
    assert_eq!(result.violations.len(), 1);
    assert_eq!(result.violations[0].finding.function, "parse");
}

#[test]
fn a_ceiling_replaces_the_default_rule() {
    assert!(
        !outcome(sample(), &["--max", "5"]).failed(),
        "naming a ceiling means the ceiling is the rule, not that nothing \
         may panic"
    );
    let over = outcome(sample(), &["--max", "1"]);
    assert!(over.failed());
    assert_eq!(over.over_max, Some((2, 1)));
}

#[test]
fn an_unusable_pattern_is_rejected() {
    let built = graph(sample());
    let (settings, rules) = gate(&["--forbid", "("]);
    let solution = Solver::new(
        &built,
        Policy {
            suppressed: settings.suppress,
            edges: Edges::default(),
        },
    )
    .solve()
    .expect("the solver should converge");
    assert!(check::run(&built, &solution, &settings, &rules, &missing()).is_err());
}

#[test]
fn an_unusable_pattern_is_refused_by_its_flag() {
    let built = graph(sample());
    let refusal = |given: &[&str]| {
        let (settings, rules) = gate(given);
        let solution = Solver::new(
            &built,
            Policy {
                suppressed: settings.suppress,
                edges: Edges::default(),
            },
        )
        .solve()
        .expect("the solver should converge");
        check::run(&built, &solution, &settings, &rules, &missing())
            .expect_err("the pattern should be refused")
    };
    let forbid = refusal(&["--forbid", "fine", "--forbid", "("]);
    assert!(
        forbid.starts_with("a pattern given to --forbid is not valid: "),
        "got {forbid}"
    );
    let allow = refusal(&["--allow", "a{2,1}"]);
    assert!(
        allow.starts_with("a pattern given to --allow is not valid: "),
        "got {allow}"
    );
    let both = refusal(&["--allow", "[", "--forbid", "*"]);
    assert!(
        both.starts_with("a pattern given to --forbid is not valid: "),
        "got {both}"
    );
}

#[test]
fn a_baseline_round_trips() {
    let result = outcome(sample(), &[]);
    let (args, _) = gate(&[]);
    let file = check::write_baseline(&args, &result.findings)
        .expect("the baseline should be written");

    let read = check::read_baseline(PATH, &Ok(file), &args).expect("and read back");
    assert_eq!(read.len(), 2);
    assert_eq!(
        read.get("parse").map(Vec::as_slice),
        Some(&["unwrap".to_owned()][..])
    );
}

#[test]
fn a_malformed_baseline_is_refused_rather_than_read_as_empty() {
    let (args, _) = gate(&[]);
    let file = check::write_baseline(&args, &outcome(sample(), &[]).findings)
        .expect("the baseline should be written");
    let good = file;

    // Each of these once read as a baseline recording nothing, which would
    // report every finding as new or call a function fixed.
    for broken in [
        good.replace("\"findings\"", "\"recorded\""),
        good.replace("\"function\"", "\"name\""),
        good.replace("\"categories\"", "\"kinds\""),
    ] {
        assert!(
            check::read_baseline(PATH, &Ok(broken), &args).is_err(),
            "a baseline missing a field it needs must be refused"
        );
    }
    assert!(
        check::read_baseline(PATH, &Ok(good), &args).is_ok(),
        "the baseline as written still reads back"
    );
}

#[test]
fn a_baseline_written_under_other_settings_is_refused() {
    let result = outcome(sample(), &[]);
    let (args, _) = gate(&[]);
    let file = check::write_baseline(&args, &result.findings)
        .expect("the baseline should be written");

    // Each of these changes which functions the report names, so the
    // recorded entries describe a different question.
    for argv in [
        &["--closures", "parent"][..],
        &["--all-crates"][..],
        &["--static-only"][..],
        &["--candidates"][..],
    ] {
        let (other, _) = gate(argv);
        assert!(
            check::read_baseline(PATH, &Ok(file.clone()), &other).is_err(),
            "a baseline written without {argv:?} must not be read with it"
        );
    }
    assert!(
        check::read_baseline(PATH, &Ok(file), &args).is_ok(),
        "the settings it was written under still read it back"
    );
}

#[test]
fn a_baseline_admits_what_it_records_and_rejects_the_rest() {
    let (args, _) = gate(&[]);
    let recorded = outcome(sample(), &[]);
    let file = check::write_baseline(&args, &recorded.findings)
        .expect("the baseline should be written");

    let unchanged = against(sample(), &file);
    assert!(!unchanged.failed(), "nothing changed, so nothing is new");

    let mut grown = sample();
    grown.push(body("added", Some(Category::Explicit)));
    let widened = against(grown, &file);
    assert!(widened.failed());
    assert_eq!(widened.violations.len(), 1);
    assert_eq!(widened.violations[0].finding.function, "added");

}

#[test]
fn a_baseline_catches_a_function_that_gains_a_category() {
    let (args, _) = gate(&[]);
    let file = check::write_baseline(&args, &outcome(sample(), &[]).findings)
        .expect("the baseline should be written");

    let mut changed = sample();
    changed[0] = body("parse", Some(Category::Index));
    let result = against(changed, &file);
    assert!(
        result.failed(),
        "the function was already recorded, but not with this panic"
    );
}

#[test]
fn a_baseline_reports_what_no_longer_panics() {
    let (args, _) = gate(&[]);
    let file = check::write_baseline(&args, &outcome(sample(), &[]).findings)
        .expect("the baseline should be written");

    let mut fixed = sample();
    fixed[0] = body("parse", None);
    let result = against(fixed, &file);
    assert!(!result.failed(), "removing a panic is not a failure");
    assert_eq!(result.fixed, vec!["parse".to_owned()]);
}

#[test]
fn a_missing_baseline_says_how_to_make_one() {
    let (args, _) = gate(&[]);
    let text = check::read_baseline("/nonexistent/pg.json", &missing(), &args)
        .err()
        .expect("the file is not there");
    assert!(
        text.contains("panicgraph baseline"),
        "the message should name the command that writes one, got: {text}"
    );
}

#[test]
fn instantiations_of_one_function_report_once() {
    // A generic function has a node per instantiation, and they all render
    // under the same name. Reporting each would print the same line several
    // times and count one function repeatedly against a ceiling.
    let mut first = body("shared", Some(Category::Index));
    first.key = FuncKey("shared::<0>".to_owned());
    let mut second = body("shared", Some(Category::Unwrap));
    second.key = FuncKey("shared::<1>".to_owned());

    let result = outcome(vec![first, second], &[]);

    assert_eq!(result.findings.len(), 1);
    let finding = &result.findings[0];
    assert_eq!(finding.function, "shared");
    // Both instantiations contribute, in the order the taxonomy declares.
    assert_eq!(finding.categories, vec!["index", "unwrap"]);
}

#[test]
fn a_ceiling_does_not_disable_the_unknown_check() {
    // A ceiling narrows how many findings may fail, not what counts as
    // unreadable, so asking about visibility must still be answered.
    let bodies = vec![body("speaks", Some(Category::DynCall))];
    let result = outcome(bodies, &["--max", "10", "--fail-on-unknown"]);
    assert!(
        result.failed(),
        "--fail-on-unknown must reach a finding a ceiling left standing"
    );
}

#[test]
fn forbid_still_scopes_the_unknown_check() {
    let bodies = vec![
        body("speaks", Some(Category::DynCall)),
        body("other", Some(Category::DynCall)),
    ];
    let result =
        outcome(bodies, &["--forbid", "^speaks$", "--fail-on-unknown"]);
    assert_eq!(
        result.violations.len(),
        1,
        "a pattern that names one function must not gate the other"
    );
}

#[test]
fn what_was_recorded_is_said() {
    let (mut args, _) = gate(&[]);
    let mut out = "before\n".to_owned();
    say_recorded(&args, "base.json", 3, &mut out).expect("it should be written");
    assert_eq!(out, "before\nrecorded 3 findings in base.json\n");
    assert_eq!(recorded_text("b", 0), "recorded 0 findings in b\n");
    args.format = Format::Json;
    let mut out = String::new();
    say_recorded(&args, "base.json", 3, &mut out).expect("it should be written");
    assert_eq!(out, "{\n  \"baseline\": \"base.json\",\n  \"recorded\": 3\n}\n");
}

#[test]
fn the_exit_code_says_whether_anything_failed() {
    assert_eq!((exit_code(false), exit_code(true), EXIT_ERROR), (0, 1, 2));
}
