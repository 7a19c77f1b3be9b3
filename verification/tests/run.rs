//! What a build is asked for, and where its results are kept.

use panicgraph::args::Features;
use panicgraph::run::{
    artifact_name, cargo_profile, check_toolchain, feature_suffix, has_compiler_libraries, is_leftover, local_tree, marker, prerequisites,
    profile_dir, rustc_field, shared_tree, stale, version_line, Discard, Invocation, Settings,
};
use panicgraph::StdMode;

fn settings() -> Settings {
    Settings {
        profile: "release".to_owned(),
        std_mode: StdMode::Shipped,
        package: None,
        mir_opt_level: None,
        with_tests: false,
        features: features(&[]),
    }
}

/// The features asked for by name, and no others.
fn features(named: &[&str]) -> Features {
    Features {
        all: false,
        no_default: false,
        named: named.iter().map(|&name| name.to_owned()).collect(),
    }
}

#[test]
fn features_are_asked_for_and_named_in_the_slot() {
    let named = Settings {
        features: Features { no_default: true, ..features(&["serve", "dep/x_y"]) },
        with_tests: true,
        package: Some("p".to_owned()),
        ..settings()
    };
    assert_eq!(
        named.arguments("/t", &None, false),
        [
            "build",
            "--profile",
            "release",
            "--target-dir",
            "/t",
            "--package",
            "p",
            "--no-default-features",
            "--features",
            "serve,dep/x_y"
        ]
    );
    assert_eq!(named.slot(), "release-shipped-p-tests-f-no-default-serve-dep-x-y");
    let all = Settings { features: Features { all: true, ..features(&[]) }, ..settings() };
    assert_eq!(all.arguments("/t", &None, false)[5..], ["--all-features"]);
    assert_eq!(all.slot(), "release-shipped-all-f-all");
    assert!(settings().features.is_default());
    assert!(!all.features.is_default());
    assert!(!features(&["a"]).is_default());
    assert_eq!(feature_suffix(&features(&[])), "");
    assert_eq!(feature_suffix(&features(&["a", "b"])), "-f-a-b");
    assert_eq!(features(&["a", "b"]).describe(), "a,b");
}

#[test]
fn only_an_unmarked_directory_of_an_older_layout_is_left_over() {
    let old = Some("release-shipped-all");
    assert!(is_leftover(true, old, false, false));
    assert!(is_leftover(true, None, false, false));
    assert!(is_leftover(true, Some("build-mirror"), false, false));
    assert!(!is_leftover(false, old, false, false), "a file is not a directory of results");
    assert!(!is_leftover(true, old, true, false), "the run is about to write here");
    assert!(!is_leftover(true, old, false, true), "the marker says who owns it");
    assert!(!is_leftover(true, Some("build"), false, false));
    assert!(!is_leftover(true, Some("build-mir3"), false, false));
    assert!(is_leftover(true, Some("build-mir03"), false, false));
}

#[test]
fn a_slot_names_every_setting() {
    assert_eq!(settings().slot(), "release-shipped-all");
    let other = Settings {
        std_mode: StdMode::Full,
        package: Some("mine".to_owned()),
        mir_opt_level: Some(3),
        with_tests: true,
        ..settings()
    };
    assert_eq!(other.slot(), "release-full-mine-mir3-tests");
}

#[test]
fn cargo_is_asked_for_the_crate_or_its_tests() {
    let plain = Settings { profile: "debug".to_owned(), ..settings() };
    assert_eq!(
        plain.arguments("/t", &None, false),
        ["build", "--profile", "dev", "--target-dir", "/t"]
    );
    let full = Settings { std_mode: StdMode::Full, package: Some("p".to_owned()), ..settings() };
    let host = Some("x86_64-unknown-linux-gnu".to_owned());
    assert_eq!(
        full.arguments("/t", &host, true),
        [
            "build",
            "--profile",
            "release",
            "--target-dir",
            "/t",
            "--tests",
            "--package",
            "p",
            "-Z",
            "build-std=core,alloc,std",
            "--target",
            "x86_64-unknown-linux-gnu"
        ]
    );
    assert_eq!(settings().arguments("/t", &host, false).len(), 5, "the shipped library has no target");
}

#[test]
fn profiles_have_two_names() {
    assert_eq!((cargo_profile("debug"), cargo_profile("release")), ("dev", "release"));
    assert_eq!((profile_dir("dev"), profile_dir("release")), ("debug", "release"));
}

#[test]
fn trees_are_named_by_compiler_and_level() {
    assert_eq!(local_tree(None), "build");
    assert_eq!(local_tree(Some(2)), "build-mir2");
    assert_eq!(shared_tree("rustc 1.90.0 (abc)", None), "build-rustc-1-90-0--abc-");
    assert_eq!(shared_tree("x", Some(1)), "build-x-mir1");
}

#[test]
fn what_the_compiler_prints_is_read() {
    assert_eq!(version_line("rustc 1.90.0 \nhost: x\n").as_deref(), Some("rustc 1.90.0"));
    assert_eq!(version_line(" \nrustc"), None);
    assert_eq!(version_line(""), None);
    let verbose = "rustc 1.90.0\nbinary: rustc\nhost: x86_64 \nhost: other\n";
    assert_eq!(rustc_field(verbose, "host: ").as_deref(), Some("x86_64"));
    assert_eq!(rustc_field(verbose, "LLVM version: "), None);
}

#[test]
fn a_toolchain_that_moved_is_reported() {
    let version = |v: &str| Some(v.to_owned());
    assert_eq!(check_toolchain(&version("a"), &version("a")), Ok(()));
    assert_eq!(check_toolchain(&None, &version("a")), Ok(()));
    assert_eq!(check_toolchain(&version("a"), &None), Ok(()));
    let fault = check_toolchain(&version("a"), &version("b")).expect_err("it moved");
    assert!(fault.starts_with("this tool was built against a, but the toolchain now offers b."));
    assert!(fault.ends_with("`cargo install --path .`"));
}

#[test]
fn results_of_another_driver_are_discarded() {
    let mark = marker("release-shipped-all", "12-34");
    assert_eq!(mark, "release-shipped-all\n12-34\n");
    let judge = |found: Option<&str>, shared: bool, exists: bool, tree: Option<&str>| {
        stale(&found.map(str::to_owned), &mark, shared, exists, &tree.map(str::to_owned), "12-34")
    };
    assert_eq!(judge(Some(mark.as_str()), false, true, None), Discard { results: false, tree: false });
    assert_eq!(judge(Some("old"), false, true, None), Discard { results: true, tree: true });
    assert_eq!(judge(None, true, true, Some("12-34")), Discard { results: true, tree: false });
    assert_eq!(judge(None, true, true, Some("0-0")), Discard { results: true, tree: true });
    assert_eq!(judge(None, true, false, None), Discard { results: true, tree: false });
}

fn words(list: &[&str]) -> Vec<String> {
    list.iter().map(|w| (*w).to_owned()).collect()
}

#[test]
fn the_compiler_is_run_as_a_wrapper_runs_it() {
    let bare = Invocation { sysroot: None, empty: None, level: None, primary: false };
    assert_eq!(
        bare.arguments(words(&["driver", "/bin/rustc", "a.rs"])),
        ["driver", "a.rs", "-Zalways-encode-mir"]
    );
    assert_eq!(bare.arguments(words(&["driver", "a.rs"])), ["driver", "a.rs", "-Zalways-encode-mir"]);
    let all = Invocation {
        sysroot: Some("/s".to_owned()),
        empty: Some("/e.rs".to_owned()),
        level: Some(3),
        primary: true,
    };
    assert_eq!(
        all.arguments(words(&["driver", "rustc", "-", "--test"])),
        [
            "driver",
            "/e.rs",
            "--test",
            "--sysroot=/s",
            "-Zalways-encode-mir",
            "-Zmir-opt-level=3",
            "-Zinline-mir=no",
            "-Zcross-crate-inline-threshold=never"
        ]
    );
}

#[test]
fn an_artifact_is_named_after_its_crate() {
    assert_eq!(artifact_name("known", 0x1f), "known-000000000000001f.json");
}

const NIGHTLY: &str = "rustc 1.90.0-nightly (abc 2025-06-01)\nbinary: rustc\nrelease: 1.90.0-nightly\n";

#[test]
fn a_compiler_with_its_libraries_is_named() {
    assert_eq!(prerequisites(NIGHTLY, true), Ok("rustc 1.90.0-nightly (abc 2025-06-01)".to_owned()));
    assert_eq!(prerequisites("rustc 1.90.0-dev\nrelease: 1.90.0-dev", true), Ok("rustc 1.90.0-dev".to_owned()));
}

#[test]
fn the_first_missing_prerequisite_is_reported() {
    assert_eq!(prerequisites("", true), Err("rustc did not report `release: `".to_owned()));
    let stable = prerequisites("rustc 1.90.0\nrelease: 1.90.0\n", false);
    assert!(matches!(&stable, Err(problem) if problem.ends_with("pinning nightly.")), "{stable:?}");
    assert!(matches!(&stable, Err(problem) if problem.contains("is using 1.90.0. Install")));
    let bare = prerequisites(NIGHTLY, false);
    assert!(matches!(&bare, Err(problem) if problem.starts_with("the rustc-dev component is missing")));
}

#[test]
fn the_compilers_libraries_are_told_by_name() {
    assert!(has_compiler_libraries(&None), "a directory that cannot be read proves nothing");
    assert!(!has_compiler_libraries(&Some(words(&["libstd-1.so", "xlibrustc_middle-1.so"]))));
    assert!(has_compiler_libraries(&Some(words(&["libstd-1.so", "librustc_middle-1.so"]))));
}
