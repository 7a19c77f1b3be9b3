//! What a cargo build through the analysis wrapper is asked for, and where its
//! results are kept.

use vstd::prelude::*;

use crate::args::Features;
use crate::model;
use crate::model::StdMode;
use crate::text;

verus! {

/// The table in which the standard library's workspace replaces the shim
/// crate its vendored dependencies name with the one in its own tree.
pub const PATCH_TABLE: &'static str = "patch.crates-io";

/// The same patch, written as a table of its own.
pub const PATCH_ENTRY: &'static str = "patch.crates-io.rustc-std-workspace-core";

/// The shim crate the library's vendored dependencies stand on.
pub const LIBRARY_SHIM: &'static str = "rustc-std-workspace-core";

/// Whether a character is left out when a name in a manifest is read.
pub open spec fn is_quoting(c: char) -> bool {
    c == '"' || c == '\'' || c == ' ' || c == '\t'
}

/// A name in a manifest with its quoting dropped.
pub open spec fn unquoted(s: Seq<char>) -> Seq<char>
    decreases s.len(),
{
    if s.len() == 0 {
        s
    } else if is_quoting(s.last()) {
        unquoted(s.drop_last())
    } else {
        unquoted(s.drop_last()).push(s.last())
    }
}

/// Whether a name in a manifest reads as `name` once quoting is dropped.
fn spells(s: &str, name: &str) -> (r: bool)
    ensures
        r == (unquoted(s@) == name@),
{
    let v = text::chars_of(s);
    let mut kept = String::new();
    let mut i: usize = 0;
    assert(s@.take(0) =~= Seq::empty());
    while i < v.len()
        invariant
            i <= v@.len(),
            v@ == s@,
            kept@ == unquoted(s@.take(i as int)),
        decreases v@.len() - i,
    {
        let c = v[i];
        assert(s@.take(i + 1).drop_last() =~= s@.take(i as int));
        if !(c == '"' || c == '\'' || c == ' ' || c == '\t') {
            kept.push(c);
        }
        i += 1;
    }
    assert(s@.take(i as int) =~= s@);
    text::same(kept.as_str(), name)
}

/// The table a line of a manifest opens.
pub open spec fn opened(line: Seq<char>) -> Option<Seq<char>> {
    let bare = text::trimmed(line);
    if bare.len() > 0 && bare[0] == '[' {
        Some(unquoted(text::head(bare.skip(1), ']')))
    } else {
        None
    }
}

/// Whether the first `n` lines of a manifest end inside the table of patches.
pub open spec fn patching(lines: Seq<Seq<char>>, n: nat) -> bool
    decreases n,
{
    if n == 0 {
        false
    } else {
        match opened(lines[n - 1]) {
            Some(table) => table == PATCH_TABLE@,
            None => patching(lines, (n - 1) as nat),
        }
    }
}

/// Whether a line of a manifest patches the shim in.
pub open spec fn patches_shim(lines: Seq<Seq<char>>, i: int) -> bool {
    match opened(lines[i]) {
        Some(table) => table == PATCH_ENTRY@,
        None => patching(lines, i as nat) && unquoted(text::head(text::trimmed(lines[i]), '='))
            == LIBRARY_SHIM@,
    }
}

/// Whether a workspace manifest is the standard library's own.
///
/// The crates vendored into the library depend on a shim crate that the
/// library's workspace, and nothing else, patches in from its own tree.
/// Depending on the shim is what a vendored crate does, so only the patch
/// tells. The manifest is scanned by table rather than parsed, since two
/// names in one table are all there is to find.
#[must_use]
pub fn is_library_manifest(manifest: &str) -> (r: bool)
    ensures
        r == exists|i: int|
            0 <= i < text::lines_of(manifest@).len() && #[trigger] patches_shim(
                text::lines_of(manifest@),
                i,
            ),
{
    let lines = text::lines(manifest);
    let ghost all = text::lines_of(manifest@);
    let mut inside = false;
    let mut i: usize = 0;
    while i < lines.len()
        invariant
            i <= lines@.len(),
            all == text::texts(lines@),
            all == text::lines_of(manifest@),
            inside == patching(all, i as nat),
            forall|k: int| 0 <= k < i ==> !#[trigger] patches_shim(all, k),
        decreases lines@.len() - i,
    {
        let line = text::trim(lines[i].as_str());
        assert(all[i as int] == lines@[i as int]@);
        let v = text::chars_of(line.as_str());
        if v.len() > 0 && v[0] == '[' {
            let rest = text::text_of(v.as_slice(), 1, v.len());
            assert(rest@ =~= line@.skip(1));
            let table = text::head_of(rest.as_str(), ']');
            if spells(table.as_str(), PATCH_ENTRY) {
                assert(patches_shim(all, i as int));
                return true;
            }
            inside = spells(table.as_str(), PATCH_TABLE);
        } else if inside {
            let key = text::head_of(line.as_str(), '=');
            if spells(key.as_str(), LIBRARY_SHIM) {
                assert(patches_shim(all, i as int));
                return true;
            }
        }
        i += 1;
    }
    false
}

/// What a build at a chosen MIR optimization level is named apart by.
pub open spec fn level_suffix(level: Option<u8>) -> Seq<char> {
    match level {
        Some(n) => "-mir"@ + text::decimal(n as nat),
        None => ""@,
    }
}

/// What a build at a chosen MIR optimization level is named apart by.
///
/// The level changes every body the analysis reads, so a tree built at one
/// level is never read as another's; the default level names nothing, so
/// a run that asks for nothing lands where it always did.
pub fn mir_opt_suffix(level: Option<u8>) -> (r: String)
    ensures
        r@ == level_suffix(level),
{
    match level {
        Some(n) => {
            let mut out = "-mir".to_owned();
            out.append(text::number(n as u64).as_str());
            out
        },
        None => "".to_owned(),
    }
}

/// What a build with a chosen set of features is named apart by.
pub open spec fn features_suffix(features: Features) -> Seq<char> {
    if features.spec_is_default() {
        ""@
    } else {
        "-f-"@ + text::joined(features.phrases(), ","@).map_values(|c: char| safe(c))
    }
}

/// What a build with a chosen set of features is named apart by.
///
/// The features change which code exists, so what was built with one set is
/// kept apart from another's. The name is written with the characters a path
/// is safe to hold; the default set names nothing.
pub fn feature_suffix(features: &Features) -> (r: String)
    ensures
        r@ == features_suffix(*features),
{
    if features.is_default() {
        return "".to_owned();
    }
    let mut out = "-f-".to_owned();
    out.append(path_safe(features.describe().as_str()).as_str());
    out
}

/// The inputs that change what the artifacts of a build describe.
#[derive(Debug)]
pub struct Settings {
    pub profile: String,
    pub std_mode: StdMode,
    pub package: Option<String>,
    pub features: Features,
    pub mir_opt_level: Option<u8>,
    pub with_tests: bool,
}

impl Settings {
    /// The name of the directory the artifacts are kept in.
    pub open spec fn spec_slot(self) -> Seq<char> {
        self.profile@ + "-"@ + self.std_mode.spec_name() + "-"@ + match self.package {
            Some(package) => package@,
            None => "all"@,
        } + level_suffix(self.mir_opt_level) + if self.with_tests {
            "-tests"@
        } else {
            ""@
        } + features_suffix(self.features)
    }

    /// The name of the directory the artifacts are kept in.
    ///
    /// Artifacts are kept between runs, so the directory has to separate
    /// every input that changes what they describe. The standard library mode
    /// changes how crates are compiled and so changes their symbol names, and
    /// a different package selection analyses a different program: merging
    /// those would silently report one crate's panics against another's.
    pub fn slot(&self) -> (r: String)
        ensures
            r@ == self.spec_slot(),
    {
        let mut out = self.profile.clone();
        out.append("-");
        out.append(self.std_mode.name());
        out.append("-");
        match &self.package {
            Some(package) => {
                out.append(package.as_str());
            },
            None => {
                out.append("all");
            },
        }
        out.append(mir_opt_suffix(self.mir_opt_level).as_str());
        if self.with_tests {
            out.append("-tests");
        } else {
            out.append("");
        }
        out.append(feature_suffix(&self.features).as_str());
        out
    }

    /// What cargo is asked to build.
    pub open spec fn asked(self, target: Seq<char>, host: Option<Seq<char>>, tests: bool) -> Seq<
        Seq<char>,
    > {
        seq!["build"@, "--profile"@, asked_profile(self.profile@), "--target-dir"@, target] + if tests {
            seq!["--tests"@]
        } else {
            Seq::empty()
        } + match self.package {
            Some(package) => seq!["--package"@, package@],
            None => Seq::empty(),
        } + self.features.flags() + match host {
            Some(triple) => if self.std_mode is Full {
                seq!["-Z"@, "build-std=core,alloc,std"@, "--target"@, triple]
            } else {
                Seq::empty()
            },
            None => Seq::empty(),
        }
    }

    /// What cargo is asked to build, of the crate itself or of its test
    /// targets.
    ///
    /// Benches are left out: one without the harness is an ordinary
    /// binary, and everything in it would then be reported as the crate's
    /// own. Rebuilding the standard library names the target it is built
    /// for.
    pub fn arguments(&self, target: &str, host: &Option<String>, tests: bool) -> (r: Vec<String>)
        ensures
            text::texts(r@) == self.asked(target@, model::text_view(*host), tests),
    {
        let mut out: Vec<String> = Vec::new();
        out.push("build".to_owned());
        out.push("--profile".to_owned());
        out.push(cargo_profile(self.profile.as_str()).to_owned());
        out.push("--target-dir".to_owned());
        out.push(target.to_owned());
        if tests {
            out.push("--tests".to_owned());
        }
        if let Some(package) = &self.package {
            out.push("--package".to_owned());
            out.push(package.clone());
        }
        let ghost named = text::texts(out@);
        let mut flags = self.features.arguments();
        out.append(&mut flags);
        assert(text::texts(out@) =~= named + self.features.flags());
        if let Some(triple) = host {
            if self.std_mode == StdMode::Full {
                out.push("-Z".to_owned());
                out.push("build-std=core,alloc,std".to_owned());
                out.push("--target".to_owned());
                out.push(triple.clone());
            }
        }
        assert(text::texts(out@) =~= self.asked(target@, model::text_view(*host), tests));
        out
    }
}

/// The profile cargo knows one by.
pub open spec fn asked_profile(profile: Seq<char>) -> Seq<char> {
    if profile == "debug"@ {
        "dev"@
    } else {
        profile
    }
}

/// Maps a profile name onto the one cargo expects.
pub fn cargo_profile(profile: &str) -> (r: &str)
    ensures
        r@ == asked_profile(profile@),
{
    if text::same(profile, "debug") {
        "dev"
    } else {
        profile
    }
}

/// The directory cargo writes a profile's output to.
///
/// Cargo names the `dev` profile's directory `debug` and every other
/// profile's directory after the profile itself.
pub fn profile_dir(profile: &str) -> (r: &str)
    ensures
        r@ == (if profile@ == "dev"@ {
            "debug"@
        } else {
            profile@
        }),
{
    if text::same(profile, "dev") {
        "debug"
    } else {
        profile
    }
}

/// The directory of a build tree of the crate's own.
pub fn local_tree(level: Option<u8>) -> (r: String)
    ensures
        r@ == "build"@ + level_suffix(level),
{
    let mut out = "build".to_owned();
    out.append(mir_opt_suffix(level).as_str());
    out
}

/// Whether a directory is named as a build tree of a crate's own, at any
/// level.
pub open spec fn names_tree(name: Seq<char>) -> bool {
    exists|level: Option<u8>| name == "build"@ + #[trigger] level_suffix(level)
}

fn is_tree_name(name: &str) -> (r: bool)
    ensures
        r == names_tree(name@),
{
    if text::same(name, local_tree(None).as_str()) {
        assert(name@ == "build"@ + level_suffix(None));
        return true;
    }
    let mut n: u8 = 0;
    loop
        invariant
            name@ != "build"@ + level_suffix(None),
            forall|k: u8| k < n ==> name@ != "build"@ + #[trigger] level_suffix(Some(k)),
        decreases 255 - n,
    {
        if text::same(name, local_tree(Some(n)).as_str()) {
            assert(name@ == "build"@ + level_suffix(Some(n)));
            return true;
        }
        if n == 255 {
            assert forall|level: Option<u8>| name@ != "build"@ + #[trigger] level_suffix(level) by {
                match level {
                    Some(k) => {
                        if k < n {
                            assert(name@ != "build"@ + level_suffix(Some(k)));
                        }
                    },
                    None => {},
                }
            }
            return false;
        }
        n += 1;
    }
}

/// Whether what is found beside a run's results is a directory that no version
/// in use writes to any more.
///
/// A directory is kept when the run itself uses it, when it holds the marker,
/// which every current slot carries, and when it is a build tree. Anything
/// else was written by an older layout and would otherwise sit on disk
/// forever. A name that is not text is no build tree's.
pub fn is_leftover(directory: bool, name: Option<&str>, used: bool, marked: bool) -> (r: bool)
    ensures
        r == (directory && !used && !marked && match name {
            Some(name) => !names_tree(name@),
            None => true,
        }),
{
    if !directory || used || marked {
        return false;
    }
    match name {
        Some(name) => !is_tree_name(name),
        None => true,
    }
}

/// A character as it stands in the name of a directory.
pub open spec fn safe(c: char) -> char {
    if ('0' <= c && c <= '9') || ('a' <= c && c <= 'z') || ('A' <= c && c <= 'Z') {
        c
    } else {
        '-'
    }
}

/// A text with each character as it stands in the name of a directory.
fn path_safe(text: &str) -> (r: String)
    ensures
        r@ == text@.map_values(|c: char| safe(c)),
{
    let v = text::chars_of(text);
    let mut out = String::new();
    let mut i: usize = 0;
    assert(out@ =~= text@.take(0).map_values(|c: char| safe(c)));
    while i < v.len()
        invariant
            i <= v@.len(),
            v@ == text@,
            out@ == text@.take(i as int).map_values(|c: char| safe(c)),
        decreases v@.len() - i,
    {
        let c = v[i];
        let kept = if ('0' <= c && c <= '9') || ('a' <= c && c <= 'z') || ('A' <= c && c <= 'Z') {
            c
        } else {
            '-'
        };
        out.push(kept);
        i += 1;
        assert(out@ =~= text@.take(i as int).map_values(|c: char| safe(c)));
    }
    assert(text@.take(i as int) =~= text@);
    out
}

/// The directory of the build tree one compiler shares.
pub open spec fn shared_name(version: Seq<char>, level: Option<u8>) -> Seq<char> {
    "build-"@ + version.map_values(|c: char| safe(c)) + level_suffix(level)
}

/// The directory of the build tree every project shares.
///
/// One tree per compiler build, so the
/// cost of rebuilding the standard library is paid once per toolchain rather
/// than once per project.
pub fn shared_tree(version: &str, level: Option<u8>) -> (r: String)
    ensures
        r@ == shared_name(version@, level),
{
    let mut out = "build-".to_owned();
    out.append(path_safe(version).as_str());
    out.append(mir_opt_suffix(level).as_str());
    out
}

/// The first line of what a compiler printed, without the white space around
/// it.
pub open spec fn first_line(printed: Seq<char>) -> Seq<char> {
    let lines = text::lines_of(printed);
    if lines.len() > 0 {
        text::trimmed(lines[0])
    } else {
        Seq::empty()
    }
}

/// The compiler's version, as it printed it.
pub fn version_line(printed: &str) -> (r: Option<String>)
    ensures
        match r {
            Some(line) => line@ == first_line(printed@) && line@.len() > 0,
            None => first_line(printed@).len() == 0,
        },
{
    let lines = text::lines(printed);
    if lines.len() == 0 {
        assert(text::texts(lines@).len() == 0);
        return None;
    }
    let line = text::trim(lines[0].as_str());
    assert(text::texts(lines@)[0] == lines@[0]@);
    let v = text::chars_of(line.as_str());
    if v.len() == 0 {
        None
    } else {
        Some(line)
    }
}

/// The first line under a label, from one on.
pub open spec fn labelled(lines: Seq<Seq<char>>, label: Seq<char>, from: nat) -> Option<Seq<char>>
    decreases lines.len() - from,
{
    if from >= lines.len() {
        None
    } else if text::occurs_at(lines[from as int], label, 0) {
        Some(text::trimmed(lines[from as int].skip(label.len() as int)))
    } else {
        labelled(lines, label, from + 1)
    }
}

/// Reads one labelled field out of what a compiler printed of itself.
pub fn rustc_field(printed: &str, label: &str) -> (r: Option<String>)
    ensures
        model::text_view(r) == labelled(text::lines_of(printed@), label@, 0),
{
    let lines = text::lines(printed);
    let ghost all = text::lines_of(printed@);
    let skip = text::chars_of(label).len();
    let mut i: usize = 0;
    while i < lines.len()
        invariant
            i <= lines@.len(),
            all == text::texts(lines@),
            all == text::lines_of(printed@),
            skip == label@.len(),
            labelled(all, label@, 0) == labelled(all, label@, i as nat),
        decreases lines@.len() - i,
    {
        assert(all[i as int] == lines@[i as int]@);
        if text::starts_with(lines[i].as_str(), label) {
            let v = text::chars_of(lines[i].as_str());
            let rest = text::text_of(v.as_slice(), skip, v.len());
            assert(rest@ =~= all[i as int].skip(label@.len() as int));
            return Some(text::trim(rest.as_str()));
        }
        i += 1;
    }
    None
}

/// Whether one of some files is the compiler's own library.
pub open spec fn lists_compiler(names: Seq<Seq<char>>) -> bool {
    exists|i: int|
        0 <= i < names.len() && text::occurs_at(#[trigger] names[i], "librustc_middle-"@, 0)
}

/// Whether the compiler's own libraries are among the files of a directory.
pub open spec fn linkable(names: Option<Seq<Seq<char>>>) -> bool {
    match names {
        // A directory that cannot be read is not proof of a broken
        // toolchain, so the real build is left to report whatever the actual
        // problem turns out to be.
        None => true,
        Some(names) => lists_compiler(names),
    }
}

/// Whether the compiler's own libraries are present to link against, going by
/// the names of the files in the directory they belong in.
pub fn has_compiler_libraries(names: &Option<Vec<String>>) -> (r: bool)
    ensures
        r == linkable(match *names {
            Some(names) => Some(text::texts(names@)),
            None => None,
        }),
{
    let listed = match names {
        Some(listed) => listed,
        None => {
            return true;
        },
    };
    let ghost all = text::texts(listed@);
    let mut i: usize = 0;
    while i < listed.len()
        invariant
            i <= listed@.len(),
            all == text::texts(listed@),
            *names == Some(*listed),
            forall|j: int|
                0 <= j < i ==> !text::occurs_at(#[trigger] all[j], "librustc_middle-"@, 0),
        decreases listed@.len() - i,
    {
        assert(all[i as int] == listed@[i as int]@);
        if text::starts_with(listed[i].as_str(), "librustc_middle-") {
            assert(lists_compiler(all));
            return true;
        }
        i += 1;
    }
    assert(!lists_compiler(all));
    false
}

/// What is missing from a compiler that is to build the driver, or nothing.
/// What it printed of itself and whether its libraries are there decide.
pub open spec fn missing(printed: Seq<char>, libraries: bool) -> Option<Seq<char>> {
    match labelled(text::lines_of(printed), "release: "@, 0) {
        None => Some("rustc did not report `release: `"@),
        Some(version) => if !text::holds(version, "nightly"@) && !text::holds(version, "dev"@) {
            Some(
                "the analysis driver reads compiler internals, which needs a nightly toolchain, but this build is using "@
                    + version
                    + ". Install with `cargo +nightly install --path .`, or add a rust-toolchain.toml pinning nightly."@,
            )
        } else if !libraries {
            Some(
                "the rustc-dev component is missing, so the analysis driver cannot link against the compiler. Install it with `rustup component add rustc-dev llvm-tools`."@,
            )
        } else {
            None
        },
    }
}

/// Reports the first missing prerequisite, or names the compiler.
///
/// The driver loads that compiler's own libraries, which are named after the
/// build they came from, so it cannot start once the toolchain has moved. The
/// front end compares the name returned here against the compiler it finds
/// and says so, rather than leaving the loader to report a missing file.
pub fn prerequisites(printed: &str, libraries: bool) -> (r: Result<String, String>)
    ensures
        match r {
            Ok(banner) => missing(printed@, libraries) is None && banner@ == first_line(printed@),
            Err(problem) => missing(printed@, libraries) == Some(problem@),
        },
{
    let version = match rustc_field(printed, "release: ") {
        Some(version) => version,
        None => {
            return Err("rustc did not report `release: `".to_owned());
        },
    };
    if !text::contains(version.as_str(), "nightly") && !text::contains(version.as_str(), "dev") {
        let mut problem =
            "the analysis driver reads compiler internals, which needs a nightly toolchain, but this build is using ".to_owned();
        problem.append(version.as_str());
        problem.append(
            ". Install with `cargo +nightly install --path .`, or add a rust-toolchain.toml pinning nightly.",
        );
        return Err(problem);
    }
    if !libraries {
        return Err(
            "the rustc-dev component is missing, so the analysis driver cannot link against the compiler. Install it with `rustup component add rustc-dev llvm-tools`.".to_owned(),
        );
    }
    match version_line(printed) {
        Some(banner) => Ok(banner),
        None => {
            let banner = String::new();
            assert(banner@ =~= first_line(printed@));
            Ok(banner)
        },
    }
}

/// What is said of a toolchain that has moved.
pub open spec fn moved_text(built: Seq<char>, current: Seq<char>) -> Seq<char> {
    "this tool was built against "@ + built + ", but the toolchain now offers "@ + current
        + ". The analysis driver links that compiler's own libraries and cannot run against another build of it, so reinstall with `cargo install --path .`"@
}

/// Reports a toolchain that has moved since this tool was installed.
///
/// The driver links the compiler's own libraries, which carry the hash of the
/// build they came from, so a toolchain update leaves it unable to start at
/// all. Saying so here turns a loader error naming a missing file into the
/// one instruction that fixes it. Where either version is not known, the
/// check is skipped rather than guessed at.
pub fn check_toolchain(built: &Option<String>, current: &Option<String>) -> (r: Result<(), String>)
    ensures
        match r {
            Ok(_) => *built is None || *current is None || model::text_view(*built)
                == model::text_view(*current),
            Err(fault) => *built is Some && *current is Some && built->0@ != current->0@ && fault@
                == moved_text(built->0@, current->0@),
        },
{
    let (built, current) = match (built, current) {
        (Some(built), Some(current)) => (built, current),
        _ => {
            return Ok(());
        },
    };
    if text::same(built.as_str(), current.as_str()) {
        return Ok(());
    }
    let mut fault = "this tool was built against ".to_owned();
    fault.append(built.as_str());
    fault.append(", but the toolchain now offers ");
    fault.append(current.as_str());
    fault.append(
        ". The analysis driver links that compiler's own libraries and cannot run against another build of it, so reinstall with `cargo install --path .`",
    );
    Err(fault)
}

/// What marks the results of one driver.
pub fn marker(slot: &str, stamp: &str) -> (r: String)
    ensures
        r@ == slot@ + "\n"@ + stamp@ + "\n"@,
{
    let mut out = slot.to_owned();
    out.append("\n");
    out.append(stamp);
    out.append("\n");
    out
}

/// What of earlier results is thrown away before a build.
#[derive(Debug, Clone, Copy, PartialEq, Eq, Structural)]
pub struct Discard {
    pub results: bool,
    pub tree: bool,
}

/// Decides what of earlier results a different driver wrote.
///
/// Both directories go: the artifacts because they describe an analysis this
/// driver did not perform, and the build tree because cargo would otherwise
/// consider every crate current and never run the wrapper again.
///
/// A shared build tree is the exception. It belongs to no one project, so it
/// is judged by the driver alone: keying it on a slot as well would have
/// each project in turn discard the standard library the last one rebuilt,
/// which is the one cost the sharing exists to pay once. What is found is the
/// mark in each directory, if there is one.
pub fn stale(
    found: &Option<String>,
    marker: &str,
    shared: bool,
    tree_exists: bool,
    tree_found: &Option<String>,
    stamp: &str,
) -> (r: Discard)
    ensures
        r.results == (model::text_view(*found) != Some(marker@)),
        r.tree == (if shared {
            tree_exists && model::text_view(*tree_found) != Some(stamp@)
        } else {
            r.results
        }),
{
    let fresh = match found {
        Some(text) => text::same(text.as_str(), marker),
        None => false,
    };
    let current = match tree_found {
        Some(text) => text::same(text.as_str(), stamp),
        None => false,
    };
    Discard {
        results: !fresh,
        tree: if shared {
            tree_exists && !current
        } else {
            !fresh
        },
    }
}

/// How the compiler is invoked in place of the one cargo named.
pub struct Invocation {
    /// The compiler's own sysroot.
    pub sysroot: Option<String>,
    /// An empty source file, for a probe that reads standard input.
    pub empty: Option<String>,
    /// The MIR optimization level asked for.
    pub level: Option<u8>,
    /// Whether the crate is the one under analysis.
    pub primary: bool,
}

/// Whether some arguments hold one.
pub open spec fn asks(args: Seq<Seq<char>>, arg: Seq<char>) -> bool {
    exists|i: int| 0 <= i < args.len() && #[trigger] args[i] == arg
}

/// The arguments without the compiler cargo named.
pub open spec fn unwrapped(args: Seq<Seq<char>>) -> Seq<Seq<char>> {
    if args.len() > 1 && text::closes(args[1], "rustc"@) {
        args.remove(1)
    } else {
        args
    }
}

impl Invocation {
    /// The arguments with the sysroot, and with the probe's input replaced.
    pub open spec fn grounded(self, args: Seq<Seq<char>>) -> Seq<Seq<char>> {
        let rooted = match self.sysroot {
            Some(root) => unwrapped(args).push("--sysroot="@ + root@),
            None => unwrapped(args),
        };
        match self.empty {
            Some(path) => rooted.map_values(
                |a: Seq<char>|
                    if a == "-"@ {
                        path@
                    } else {
                        a
                    },
            ),
            None => rooted,
        }
    }

    /// What the compiler is run with.
    pub open spec fn spec_arguments(self, args: Seq<Seq<char>>) -> Seq<Seq<char>> {
        self.grounded(args).push("-Zalways-encode-mir"@) + match self.level {
            Some(level) => seq!["-Zmir-opt-level="@ + text::decimal(level as nat)],
            None => Seq::empty(),
        } + if asks(self.grounded(args), "--test"@) {
            seq!["-Zinline-mir=no"@]
        } else {
            Seq::empty()
        } + if self.primary {
            seq!["-Zcross-crate-inline-threshold=never"@]
        } else {
            Seq::empty()
        }
    }

    /// What the compiler is run with.
    ///
    /// Cargo passes the real compiler as the first argument when running as a
    /// wrapper, which is dropped so the argument list is a plain invocation.
    /// Cargo learns about the target by compiling an empty crate it names
    /// on standard input, which it opens on the null device. That device is
    /// not always what it should be, so a file that is empty for certain
    /// stands in for it. Without encoding every body, dependencies keep MIR
    /// only for generic and small items, so concrete functions become opaque
    /// and the panics inside them are invisible. A level asked for applies to
    /// every crate the build compiles. A test crate is read for the
    /// instantiations it makes of the library's generic functions, and
    /// inlining would fold those into the tests, which are not reported. The
    /// crate under analysis is the leaf of the build, so nothing ever inlines
    /// from it, and keeping every body in the compiled library is what lets a
    /// finding be checked against the artifact.
    pub fn arguments(&self, args: Vec<String>) -> (r: Vec<String>)
        ensures
            text::texts(r@) == self.spec_arguments(text::texts(args@)),
    {
        let ghost given = text::texts(args@);
        let mut out = args;
        if out.len() > 1 && text::ends_with(out[1].as_str(), "rustc") {
            let ghost was = out@;
            out.remove(1);
            assert(text::texts(out@) =~= text::texts(was).remove(1));
        }
        assert(text::texts(out@) =~= unwrapped(given));
        if let Some(root) = &self.sysroot {
            let mut flag = "--sysroot=".to_owned();
            flag.append(root.as_str());
            out.push(flag);
            assert(text::texts(out@) =~= unwrapped(given).push("--sysroot="@ + root@));
        }
        let ghost rooted = text::texts(out@);
        if let Some(path) = &self.empty {
            let mut kept: Vec<String> = Vec::new();
            let mut i: usize = 0;
            while i < out.len()
                invariant
                    i <= out@.len(),
                    rooted == text::texts(out@),
                    kept@.len() == i,
                    forall|k: int|
                        0 <= k < i ==> (#[trigger] kept@[k])@ == (if rooted[k] == "-"@ {
                            path@
                        } else {
                            rooted[k]
                        }),
                decreases out@.len() - i,
            {
                assert(rooted[i as int] == out@[i as int]@);
                if text::same(out[i].as_str(), "-") {
                    kept.push(path.clone());
                } else {
                    kept.push(out[i].clone());
                }
                i += 1;
            }
            out = kept;
        }
        assert(text::texts(out@) =~= self.grounded(given));
        let testing = holds(&out, "--test");
        let ghost grounded = text::texts(out@);
        out.push("-Zalways-encode-mir".to_owned());
        if let Some(level) = self.level {
            let mut flag = "-Zmir-opt-level=".to_owned();
            flag.append(text::number(level as u64).as_str());
            out.push(flag);
        }
        if testing {
            out.push("-Zinline-mir=no".to_owned());
        }
        if self.primary {
            out.push("-Zcross-crate-inline-threshold=never".to_owned());
        }
        assert(text::texts(out@) =~= self.spec_arguments(given));
        out
    }
}

/// Whether some arguments hold one.
pub fn holds(args: &Vec<String>, arg: &str) -> (r: bool)
    ensures
        r == asks(text::texts(args@), arg@),
{
    let ghost all = text::texts(args@);
    let mut i: usize = 0;
    while i < args.len()
        invariant
            i <= args@.len(),
            all == text::texts(args@),
            forall|k: int| 0 <= k < i ==> #[trigger] all[k] != arg@,
        decreases args@.len() - i,
    {
        assert(all[i as int] == args@[i as int]@);
        if text::same(args[i].as_str(), arg) {
            return true;
        }
        i += 1;
    }
    false
}

/// The name of the file a crate's artifact is written to.
pub fn artifact_name(krate: &str, stamp: u64) -> (r: String)
    ensures
        r@ == krate@ + "-"@ + text::hexadecimal(stamp as nat, 16) + ".json"@,
{
    let mut out = krate.to_owned();
    out.append("-");
    out.append(text::hex(stamp).as_str());
    out.append(".json");
    out
}

} // verus!
