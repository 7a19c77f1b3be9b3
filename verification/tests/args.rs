//! Settings read out of a command line.

use panicgraph::args::{self, Args, Check, Cli, Closures, Command, Format, Generics, Scope, Std};
use panicgraph::{Category, CategorySet, StdMode};

/// A command line with nothing on it.
#[allow(dead_code)]
fn bare() -> Cli {
    Cli {
        command: None,
        scope: Scope {
            manifest_dir: None,
            package: None,
            profile: "release".to_owned(),
            std_mode: None,
            mir_opt_level: None,
            features: args::Features { all: false, no_default: false, named: Vec::new() },
            with_tests: false,
        },
        policy: args::Policy {
            suppress: "default".to_owned(),
            only: None,
            static_only: false,
            candidates: false,
            verify: false,
            closures: Closures::Separate,
            all_crates: false,
            generics: Generics::Written,
        },
        listen: None,
        format: Format::Human,
    }
}

fn resolve(cli: Cli) -> Result<Args, String> {
    cli.resolve(&Ok(Vec::new()))
}

/// A command line that asks for one thing.
fn asking(command: Command) -> Cli {
    Cli {
        command: Some(command),
        ..bare()
    }
}

fn why() -> Command {
    Command::Why {
        function: "mycrate::parse".to_owned(),
    }
}

#[test]
fn defaults_suppress_allocation_noise() {
    let args = resolve(bare()).expect("an empty argument list is valid");
    assert!(matches!(args.command, Command::Analyze));
    assert!(args.suppress.contains(Category::CapacityOverflow));
    assert!(args.suppress.contains(Category::AllocFailure));
    assert!(
        !args.suppress.contains(Category::Unwrap),
        "interesting panics are never suppressed by default"
    );
    assert_eq!(args.std_mode, StdMode::Shipped);
    assert_eq!(args.format, Format::Human);
}

#[test]
fn suppression_can_be_cleared() {
    let mut cli = bare();
    cli.policy.suppress = String::new();
    let args = resolve(cli).expect("an empty list is valid");
    assert_eq!(args.suppress, CategorySet::empty());
}

#[test]
fn categories_are_named_individually() {
    let mut cli = bare();
    cli.policy.only = Some("unwrap,index".to_owned());
    let args = resolve(cli).expect("both names are valid");
    let only = args.only.expect("--only was given");
    assert!(only.contains(Category::Unwrap));
    assert!(only.contains(Category::Index));
    assert!(!only.contains(Category::Explicit));
}

#[test]
fn why_takes_a_function_name() {
    let args = resolve(asking(why())).expect("a name was given");
    match args.command {
        Command::Why { function } => assert_eq!(function, "mycrate::parse"),
        other => panic!("expected a why command, got {other:?}"),
    }
}

#[test]
fn unknown_category_is_rejected_with_its_name() {
    let mut cli = bare();
    cli.policy.suppress = "nonsense".to_owned();
    let err = resolve(cli).expect_err("the category does not exist");
    assert!(
        err.contains("nonsense"),
        "the message should name the offending token, got: {err}"
    );
}

#[test]
fn an_unknown_selection_is_rejected_with_its_name() {
    let mut cli = bare();
    cli.policy.only = Some("unwrap,wat".to_owned());
    assert_eq!(
        resolve(cli).expect_err("the category does not exist"),
        "unknown panic category `wat`; run `panicgraph kinds` for the list"
    );
}

#[test]
fn a_gate_reads_the_full_standard_library_by_default() {
    // A gate is read by its category names, and the shipped library hides
    // them. The baseline has to agree with the check that compares to it.
    for command in [
        Command::Check(Check::default()),
        Command::Baseline {
            file: "out.json".to_owned(),
        },
    ] {
        let args = resolve(asking(command)).expect("the command should parse");
        assert_eq!(args.std_mode, StdMode::Full, "for {:?}", args.command);
    }
    let mut cli = asking(Command::Check(Check::default()));
    cli.scope.std_mode = Some(Std::Shipped);
    let args = resolve(cli).expect("the default should be overridable");
    assert_eq!(args.std_mode, StdMode::Shipped);
}

#[test]
fn the_full_library_can_be_asked_for() {
    let mut cli = bare();
    cli.scope.std_mode = Some(Std::Full);
    let args = resolve(cli).expect("full is a valid mode");
    assert_eq!(args.std_mode, StdMode::Full);
}

#[test]
fn a_drawing_is_refused_where_there_is_nothing_to_draw() {
    for command in [
        Command::Kinds,
        Command::Why {
            function: "parse".to_owned(),
        },
        Command::Check(Check::default()),
    ] {
        let mut cli = asking(command);
        cli.format = Format::Svg;
        assert!(
            resolve(cli).is_err(),
            "a drawing of something that is not the graph is asked for"
        );
    }
    let mut cli = bare();
    cli.format = Format::Svg;
    assert!(
        resolve(cli).is_ok(),
        "the analysis is what a drawing draws"
    );
}

#[test]
fn a_view_is_refused_where_there_is_nothing_to_serve() {
    let mut cli = asking(Command::Kinds);
    cli.listen = Some("8080".to_owned());
    assert_eq!(
        resolve(cli).expect_err("there is nothing to serve"),
        "`--listen` serves the graph, so it belongs to the analysis rather than to `kinds`"
    );
}

#[test]
fn the_features_asked_for_are_kept() {
    let mut cli = bare();
    cli.scope.features = args::Features {
        all: false,
        no_default: true,
        named: vec!["serve".to_owned()],
    };
    let args = resolve(cli).expect("the features should be taken");
    assert!(args.features.no_default && !args.features.all);
    assert_eq!(args.features.named, ["serve"]);
    assert!(resolve(bare()).expect("nothing is asked for").features.is_default());
}

#[test]
fn absent_by_default() {
    let args = resolve(bare()).expect("an empty argument list is valid");
    assert!(args.listen.is_none());
}

#[test]
fn the_edges_follow_the_flags() {
    let mut cli = bare();
    cli.policy.static_only = true;
    cli.policy.candidates = true;
    let edges = resolve(cli).expect("the flags are valid").edges();
    assert!(!edges.follow_inexact);
    assert!(edges.candidates);
}

/// Resolves a command line that serves, given what a lookup found.
fn listening(listen: &str, found: Result<Vec<String>, String>) -> Result<Args, String> {
    let mut cli = bare();
    cli.listen = Some(listen.to_owned());
    cli.resolve(&found)
}

#[test]
fn a_bare_port_binds_loopback_only() {
    let args = listening("8080", Err("not looked up".to_owned())).expect("a bare port is valid");
    assert_eq!(
        args.listen.as_deref(),
        Some("127.0.0.1:8080"),
        "a bare port must never open on every interface, because this serves \
         the source of the crate being analysed"
    );
}

#[test]
fn an_explicit_host_is_honoured() {
    let found = vec!["0.0.0.0:9001".to_owned(), "[::]:9001".to_owned()];
    let args = listening("0.0.0.0:9001", Ok(found)).expect("an explicit host is valid");
    assert_eq!(args.listen.as_deref(), Some("0.0.0.0:9001"));
}

#[test]
fn an_unresolvable_host_is_rejected() {
    assert_eq!(
        listening("not a host:99999999", Err("invalid port value".to_owned())).err(),
        Some("could not resolve `not a host:99999999`: invalid port value".to_owned())
    );
    assert_eq!(
        listening("nowhere:1", Ok(Vec::new())).err(),
        Some("`nowhere:1` resolved to no address".to_owned())
    );
    assert!(listening("65536", Err("no such host".to_owned())).is_err(), "no port is that large");
}

#[test]
fn a_listen_address_is_resolved_before_anything_else() {
    let mut cli = bare();
    cli.listen = Some("nowhere:1".to_owned());
    cli.policy.only = Some("nope".to_owned());
    cli.command = Some(Command::Kinds);
    let fault = cli.resolve(&Ok(Vec::new())).err();
    assert_eq!(fault, Some("`nowhere:1` resolved to no address".to_owned()));
}
