//! The settings a run is made under.

use vstd::prelude::*;

use crate::category;
use crate::category::{parse_selector, Category, CategorySet};
use crate::model::StdMode;
use crate::serve;
use crate::solve::Edges;
use crate::text;

verus! {

/// The command line as it was given.
#[derive(Debug)]
pub struct Cli {
    /// What to do. Reports the findings when omitted.
    pub command: Option<Command>,
    /// Which crate, and how it is built.
    pub scope: Scope,
    /// What the analysis is allowed to assume.
    pub policy: Policy,
    /// Serve an interactive view instead of printing.
    ///
    /// A bare port binds the loopback interface only. Listening more widely
    /// has to be asked for, because this serves the source of the crate
    /// being analysed.
    pub listen: Option<String>,
    /// How to render the result.
    pub format: Format,
}

/// Which crate, and how it is built.
#[derive(Debug)]
pub struct Scope {
    /// Directory of the crate to analyse.
    pub manifest_dir: Option<String>,
    /// Cargo package to analyse.
    pub package: Option<String>,
    /// Which cargo features to build with.
    pub features: Features,
    /// Cargo profile to analyse.
    ///
    /// The profile decides the answer: overflow checks do not exist in a
    /// build that has them turned off.
    pub profile: String,
    /// How the standard library is supplied.
    ///
    /// Defaults to the shipped library, and to `full` for `check` and
    /// `baseline`, which read the categories rather than the count.
    pub std_mode: Option<Std>,
    /// The compiler's MIR optimization level to build the analysis with.
    ///
    /// The compiler settles some checks itself before the analysis reads a
    /// body, and a higher level settles more: level 3 turns on its own
    /// dataflow constant propagation. The artifact then differs from the
    /// one a plain build produces, so the report names the level.
    pub mir_opt_level: Option<u8>,
    /// Build the crate's test targets as well, so the instantiations they
    /// make of its generic functions join the analysis.
    ///
    /// Only those instantiations are reported: the tests themselves are
    /// not, and the crate's own code compiled again for its unit tests is
    /// not reported twice.
    pub with_tests: bool,
}

/// Which cargo features a build turns on.
#[derive(Debug)]
pub struct Features {
    /// Every feature of the package.
    pub all: bool,
    /// Not even the ones it turns on by default.
    pub no_default: bool,
    /// The ones asked for by name.
    pub named: Vec<String>,
}

impl Features {
    /// Whether nothing was asked for, so the package's own defaults stand.
    pub open spec fn spec_is_default(self) -> bool {
        !self.all && !self.no_default && self.named@.len() == 0
    }

    /// Whether nothing was asked for, so the package's own defaults stand.
    pub fn is_default(&self) -> (r: bool)
        ensures
            r == self.spec_is_default(),
    {
        !self.all && !self.no_default && self.named.len() == 0
    }

    /// What cargo is told of it.
    pub open spec fn flags(self) -> Seq<Seq<char>> {
        let first = if self.all {
            seq!["--all-features"@]
        } else {
            Seq::empty()
        };
        let second = if self.no_default {
            first.push("--no-default-features"@)
        } else {
            first
        };
        if self.named@.len() > 0 {
            second.push("--features"@).push(text::joined(text::texts(self.named@), ","@))
        } else {
            second
        }
    }

    /// What cargo is told of it.
    pub fn arguments(&self) -> (r: Vec<String>)
        ensures
            text::texts(r@) == self.flags(),
    {
        let mut out: Vec<String> = Vec::new();
        if self.all {
            out.push("--all-features".to_owned());
        }
        if self.no_default {
            out.push("--no-default-features".to_owned());
        }
        if self.named.len() > 0 {
            out.push("--features".to_owned());
            out.push(text::join(&self.named, ","));
        }
        assert(text::texts(out@) =~= self.flags());
        out
    }

    /// What was asked for, one phrase for each.
    pub open spec fn phrases(self) -> Seq<Seq<char>> {
        let first = if self.all {
            seq!["all"@]
        } else {
            Seq::empty()
        };
        let second = if self.no_default {
            first.push("no-default"@)
        } else {
            first
        };
        second + text::texts(self.named@)
    }

    /// What was asked for, in a word or a few.
    pub fn describe(&self) -> (r: String)
        ensures
            r@ == text::joined(self.phrases(), ","@),
    {
        let mut parts: Vec<String> = Vec::new();
        if self.all {
            parts.push("all".to_owned());
        }
        if self.no_default {
            parts.push("no-default".to_owned());
        }
        let ghost first = text::texts(parts@);
        let ghost names = text::texts(self.named@);
        let mut i: usize = 0;
        assert(first + names.take(0) =~= first);
        while i < self.named.len()
            invariant
                i <= self.named@.len(),
                names == text::texts(self.named@),
                text::texts(parts@) == first + names.take(i as int),
            decreases self.named@.len() - i,
        {
            let ghost before = parts@;
            parts.push(self.named[i].clone());
            assert(text::texts(parts@) =~= text::texts(before).push(names[i as int]));
            assert(names.take(i + 1) =~= names.take(i as int).push(names[i as int]));
            assert(text::texts(parts@) =~= first + names.take(i + 1));
            i += 1;
        }
        assert(names.take(i as int) =~= names);
        assert(text::texts(parts@) =~= self.phrases());
        text::join(&parts, ",")
    }
}

/// What the analysis is allowed to assume.
#[derive(Debug)]
pub struct Policy {
    /// Categories to assume impossible.
    pub suppress: String,
    /// Report only these categories.
    pub only: Option<String>,
    /// Ignore vtable and function pointer edges.
    pub static_only: bool,
    /// Follow candidate targets for dyn and function pointer calls.
    ///
    /// Candidates are every concrete implementation of the trait and every
    /// reachable function reified to a pointer of a matching signature. The
    /// dyn-call and fn-pointer categories remain either way: candidates
    /// narrow what the unknown code could be, they do not close the set.
    pub candidates: bool,
    /// Check each finding against the compiled artifact and say which
    /// survived the optimizer.
    ///
    /// A finding the artifact confirms still calls a panic entry point; an
    /// absent one was removed by the optimizer; the rest cannot be settled
    /// at the binary level. The verdict annotates the finding, it never
    /// removes it.
    pub verify: bool,
    /// How closures report: as their own functions, or folded into the
    /// function each is written in.
    ///
    /// Separate is the precise view: a panic contained by a catch belongs
    /// to the closure, and folding it upward would pin it on a caller that
    /// cannot raise it. Parent is the compact view for triage.
    pub closures: Closures,
    /// Include dependencies, not just the local crate.
    pub all_crates: bool,
    /// How a generic function reports: as written, or through the
    /// instantiations the build makes of it.
    ///
    /// As written, a generic body is read with its parameters left open, so
    /// a check on a const parameter or on the size of a type parameter can
    /// fail and a call through a bound is unknown. Instantiated reports
    /// what the build's own uses of the function do, and falls back to the
    /// written body only for a function nothing instantiates. Test crates
    /// count as uses under `--with-tests`.
    pub generics: Generics,
}

/// What the user asked the tool to do.
#[derive(Debug)]
pub enum Command {
    /// Report every function that can panic.
    Analyze,
    /// Explain how one function reaches a panic.
    Why {
        /// Part of the function's path, for example `parse` or `Vec::push`.
        function: String,
    },
    /// Fail when functions that must not panic can.
    ///
    /// With no gate given, no function in the crate may panic, which is the
    /// check an allocation free or embedded crate wants.
    Check(Check),
    /// Write the current findings so later runs can gate on changes.
    Baseline {
        /// Where to write them.
        file: String,
    },
    /// List the panic categories and what they mean.
    Kinds,
}

/// The gates a check applies.
///
/// The default gates nothing, which is what `baseline` wants: it records the
/// findings rather than judging them.
#[derive(Debug)]
pub struct Check {
    /// Functions matching this pattern must not panic. May be repeated.
    pub forbid: Vec<String>,
    /// Functions matching this pattern are exempt. May be repeated.
    ///
    /// Applied after the forbidding patterns, so a broad rule can carry a
    /// short list of known exceptions rather than being weakened.
    pub allow: Vec<String>,
    /// Fail when more than this many functions can panic.
    pub max: Option<usize>,
    /// Fail only on findings absent from this file.
    pub baseline: Option<String>,
    /// Treat a function that reaches code the analysis could not read as a
    /// failure.
    ///
    /// This covers every assumed category: unknown, foreign, dyn-call,
    /// fn-pointer, and generic-bound. None of them means clean; each names
    /// where visibility ended.
    pub fail_on_unknown: bool,
}

impl Default for Check {
    fn default() -> (r: Check)
        ensures
            r.forbid@.len() == 0,
            r.allow@.len() == 0,
            r.max is None,
            r.baseline is None,
            !r.fail_on_unknown,
    {
        Check {
            forbid: Vec::new(),
            allow: Vec::new(),
            max: None,
            baseline: None,
            fail_on_unknown: false,
        }
    }
}

/// How generic functions report.
#[derive(Debug, Clone, Copy, PartialEq, Eq, Structural)]
pub enum Generics {
    /// The body as written, with its parameters left open.
    Written,
    /// The instantiations the build makes, falling back to the written body
    /// where there are none.
    Instantiated,
}

impl Generics {
    /// The name used on the command line and in reports.
    pub open spec fn spec_name(self) -> Seq<char> {
        match self {
            Generics::Written => "written"@,
            Generics::Instantiated => "instantiated"@,
        }
    }

    /// The name used on the command line and in reports.
    pub fn name(self) -> (r: &'static str)
        ensures
            r@ == self.spec_name(),
    {
        match self {
            Generics::Written => "written",
            Generics::Instantiated => "instantiated",
        }
    }
}

/// How closures report.
#[derive(Debug, Clone, Copy, PartialEq, Eq, Structural)]
pub enum Closures {
    /// Each closure reports as its own function.
    Separate,
    /// A closure reports under the function it is written in.
    Parent,
}

impl Closures {
    /// The name used on the command line and in reports.
    pub open spec fn spec_name(self) -> Seq<char> {
        match self {
            Closures::Separate => "separate"@,
            Closures::Parent => "parent"@,
        }
    }

    /// The name used on the command line and in reports.
    pub fn name(self) -> (r: &'static str)
        ensures
            r@ == self.spec_name(),
    {
        match self {
            Closures::Separate => "separate",
            Closures::Parent => "parent",
        }
    }
}

impl Command {
    /// The name used on the command line and in messages.
    pub open spec fn spec_name(&self) -> Seq<char> {
        match self {
            Command::Analyze => "analyze"@,
            Command::Why { .. } => "why"@,
            Command::Check(_) => "check"@,
            Command::Baseline { .. } => "baseline"@,
            Command::Kinds => "kinds"@,
        }
    }

    /// The name used on the command line and in messages.
    pub fn name(&self) -> (r: &'static str)
        ensures
            r@ == self.spec_name(),
    {
        match self {
            Command::Analyze => "analyze",
            Command::Why { .. } => "why",
            Command::Check(_) => "check",
            Command::Baseline { .. } => "baseline",
            Command::Kinds => "kinds",
        }
    }
}

/// Output rendering.
#[derive(Debug, Clone, Copy, PartialEq, Eq, Structural)]
pub enum Format {
    /// Human readable text.
    Human,
    /// Machine readable JSON.
    Json,
    /// Workflow commands a continuous integration log will annotate.
    Github,
    /// A standalone flame graph that can be opened or attached to a report.
    Svg,
}

/// The standard library a command reads when the user does not name one.
pub open spec fn usual_std(command: Command) -> StdMode {
    match command {
        Command::Check(_) => StdMode::Full,
        Command::Baseline { .. } => StdMode::Full,
        _ => StdMode::Shipped,
    }
}

/// The standard library a command reads when the user does not name one.
///
/// A gate is read by its category names, not its count, and the shipped
/// library hides them: a reachable `unwrap` inside it reports as `unknown`.
/// Rebuilding costs one sub-minute build that later runs reuse, so `check`
/// and `baseline` pay it. They also have to agree with each other, since a
/// baseline written against one library disagrees with a check run against
/// the other about every function.
fn default_std(command: &Command) -> (r: StdMode)
    ensures
        r == usual_std(*command),
{
    match command {
        Command::Check(_) => StdMode::Full,
        Command::Baseline { .. } => StdMode::Full,
        _ => StdMode::Shipped,
    }
}

/// How the standard library is supplied.
#[derive(Debug, Clone, Copy, PartialEq, Eq, Structural)]
pub enum Std {
    /// The precompiled library shipped with the toolchain.
    Shipped,
    /// Rebuilt from source with its bodies kept, so nothing is opaque.
    Full,
}

impl Std {
    /// The mode this names.
    pub open spec fn spec_mode(self) -> StdMode {
        match self {
            Std::Shipped => StdMode::Shipped,
            Std::Full => StdMode::Full,
        }
    }
}

impl From<Std> for StdMode {
    fn from(value: Std) -> (r: StdMode) {
        match value {
            Std::Shipped => StdMode::Shipped,
            Std::Full => StdMode::Full,
        }
    }
}

impl vstd::std_specs::convert::FromSpecImpl<Std> for StdMode {
    open spec fn obeys_from_spec() -> bool {
        true
    }

    open spec fn from_spec(value: Std) -> StdMode {
        value.spec_mode()
    }
}

/// The resolved settings the rest of the program reads.
#[derive(Debug)]
pub struct Args {
    /// The subcommand.
    pub command: Command,
    /// Categories assumed impossible.
    pub suppress: CategorySet,
    /// When set, only these categories are reported.
    pub only: Option<CategorySet>,
    /// Which cargo features to build with.
    pub features: Features,
    /// Cargo profile to analyse.
    pub profile: String,
    /// How the standard library is supplied.
    pub std_mode: StdMode,
    /// The compiler's MIR optimization level, when one was asked for.
    pub mir_opt_level: Option<u8>,
    /// Build the test targets too, for the instantiations they make.
    pub with_tests: bool,
    /// How generic functions report.
    pub generics: Generics,
    /// Output rendering.
    pub format: Format,
    /// Ignore vtable and function pointer edges.
    pub static_only: bool,
    /// Follow candidate targets for dyn and function pointer calls.
    pub candidates: bool,
    /// Annotate findings with what the compiled artifact still contains.
    pub verify: bool,
    /// How closures report.
    pub closures: Closures,
    /// Report functions from dependencies as well as the local crate.
    pub all_crates: bool,
    /// Directory holding the crate to analyse.
    pub manifest_dir: Option<String>,
    /// Cargo package to analyse.
    pub package: Option<String>,
    /// When set, serve an interactive view on this address.
    pub listen: Option<String>,
}

/// What is said of a word that names no category.
pub open spec fn unknown_category(word: Seq<char>) -> Seq<char> {
    "unknown panic category `"@ + word + "`; run `panicgraph kinds` for the list"@
}

/// What is said of a view asked of a command that has none.
pub open spec fn nothing_to_serve(command: Seq<char>) -> Seq<char> {
    "`--listen` serves the graph, so it belongs to the analysis rather than to `"@ + command + "`"@
}

/// What is said of a drawing asked of a command that has none.
pub open spec fn nothing_to_draw(command: Seq<char>) -> Seq<char> {
    "`--format svg` draws the whole graph, so it belongs to the analysis rather than to `"@
        + command + "`"@
}

/// What a command line asks for, once a missing command is filled in.
pub open spec fn asked(cli: Cli) -> Command {
    match cli.command {
        Some(command) => command,
        None => Command::Analyze,
    }
}

/// Where a listen argument leads, given what looking it up found, or why it
/// leads nowhere. A port on its own is not looked up.
pub open spec fn leads(text: Seq<char>, found: Result<Vec<String>, String>) -> Result<
    Seq<char>,
    Seq<char>,
> {
    match serve::bare_port(text) {
        Some(port) => Ok("127.0.0.1:"@ + text::decimal(port)),
        None => match found {
            Err(why) => Err("could not resolve `"@ + text + "`: "@ + why@),
            Ok(list) => if list@.len() > 0 {
                Ok(list@[0]@)
            } else {
                Err("`"@ + text + "` resolved to no address"@)
            },
        },
    }
}

/// Resolves a `PORT` or `HOST:PORT` listen argument, given what looking it up
/// found: addresses, the one to take first, or why there is none.
///
/// A bare port binds the loopback interface only. Listening more widely has
/// to be asked for, because this serves the source of the crate being
/// analysed.
///
/// # Errors
///
/// Returns an error if the argument is neither a port number nor an address
/// that resolves.
pub fn listen_addr(text: &str, found: &Result<Vec<String>, String>) -> (r: Result<String, String>)
    ensures
        match r {
            Ok(addr) => leads(text@, *found) == Ok::<Seq<char>, Seq<char>>(addr@),
            Err(message) => leads(text@, *found) == Err::<Seq<char>, Seq<char>>(message@),
        },
{
    if let Some(port) = serve::loopback_port(text) {
        let mut out = "127.0.0.1:".to_owned();
        out.append(text::number(port as u64).as_str());
        return Ok(out);
    }
    match found {
        Err(why) => {
            let mut out = "could not resolve `".to_owned();
            out.append(text);
            out.append("`: ");
            out.append(why.as_str());
            Err(out)
        },
        Ok(list) => if list.len() > 0 {
            Ok(list[0].clone())
        } else {
            let mut out = "`".to_owned();
            out.append(text);
            out.append("` resolved to no address");
            Err(out)
        },
    }
}

/// Why a command line is refused, if it is, given what looking up its listen
/// argument found.
pub open spec fn refused(cli: Cli, found: Result<Vec<String>, String>) -> Option<Seq<char>> {
    let command = asked(cli);
    if cli.listen is Some && leads(cli.listen->0@, found) is Err {
        Some(leads(cli.listen->0@, found)->Err_0)
    } else if cli.policy.only is Some && category::selection(cli.policy.only->0@) is Err {
        Some(unknown_category(category::selection(cli.policy.only->0@)->Err_0))
    } else if cli.listen is Some && !(command is Analyze) {
        Some(nothing_to_serve(command.spec_name()))
    } else if cli.format is Svg && !(command is Analyze) {
        Some(nothing_to_draw(command.spec_name()))
    } else if category::selection(cli.policy.suppress@) is Err {
        Some(unknown_category(category::selection(cli.policy.suppress@)->Err_0))
    } else {
        None
    }
}

/// Parses a comma separated category selector.
fn selector(text: &str) -> (r: Result<CategorySet, String>)
    ensures
        match r {
            Ok(set) => category::selection(text@) == Ok::<Set<Category>, Seq<char>>(set@),
            Err(message) => category::selection(text@) is Err && message@ == unknown_category(
                category::selection(text@)->Err_0,
            ),
        },
{
    match parse_selector(text) {
        Ok(set) => Ok(set),
        Err(bad) => {
            let mut out = "unknown panic category `".to_owned();
            out.append(bad.as_str());
            out.append("`; run `panicgraph kinds` for the list");
            Err(out)
        },
    }
}

impl Cli {
    /// Resolves the parsed command line into the settings used downstream,
    /// given what looking up its listen argument found, if it has one.
    ///
    /// # Errors
    ///
    /// Returns an error for a listen address that does not resolve, for an
    /// unknown category name, and for a view or a drawing asked of a command
    /// that has neither.
    pub fn resolve(self, found: &Result<Vec<String>, String>) -> (r: Result<Args, String>)
        ensures
            r is Err <==> refused(self, *found) is Some,
            match r {
                Err(message) => Some(message@) == refused(self, *found),
                Ok(args) => {
                    &&& args.command == asked(self)
                    &&& category::selection(self.policy.suppress@) == Ok::<
                        Set<Category>,
                        Seq<char>,
                    >(args.suppress@)
                    &&& args.only is Some <==> self.policy.only is Some
                    &&& args.only is Some ==> category::selection(self.policy.only->0@) == Ok::<
                        Set<Category>,
                        Seq<char>,
                    >(args.only->0@)
                    &&& args.features == self.scope.features
                    &&& args.profile == self.scope.profile
                    &&& args.std_mode == (match self.scope.std_mode {
                        Some(std) => std.spec_mode(),
                        None => usual_std(asked(self)),
                    })
                    &&& args.mir_opt_level == self.scope.mir_opt_level
                    &&& args.with_tests == self.scope.with_tests
                    &&& args.generics == self.policy.generics
                    &&& args.format == self.format
                    &&& args.static_only == self.policy.static_only
                    &&& args.candidates == self.policy.candidates
                    &&& args.verify == self.policy.verify
                    &&& args.closures == self.policy.closures
                    &&& args.all_crates == self.policy.all_crates
                    &&& args.manifest_dir == self.scope.manifest_dir
                    &&& args.package == self.scope.package
                    &&& args.listen is Some <==> self.listen is Some
                    &&& args.listen is Some ==> leads(self.listen->0@, *found) == Ok::<
                        Seq<char>,
                        Seq<char>,
                    >(args.listen->0@)
                },
            },
    {
        let Cli { command, scope, policy, listen, format } = self;
        let listen = match &listen {
            Some(text) => match listen_addr(text.as_str(), found) {
                Ok(addr) => Some(addr),
                Err(message) => {
                    return Err(message);
                },
            },
            None => None,
        };
        let only = match &policy.only {
            Some(text) => match selector(text.as_str()) {
                Ok(set) => Some(set),
                Err(message) => {
                    return Err(message);
                },
            },
            None => None,
        };
        let command = match command {
            Some(command) => command,
            None => Command::Analyze,
        };
        let analyzing = match command {
            Command::Analyze => true,
            _ => false,
        };
        // The view is the graph with the report drawn over it, so there
        // is nothing for it to show of a command that answers one question.
        if listen.is_some() && !analyzing {
            let mut out =
                "`--listen` serves the graph, so it belongs to the analysis rather than to `".to_owned();
            out.append(command.name());
            out.append("`");
            return Err(out);
        }
        // A drawing is a picture of the whole graph, so it is the report
        // and nothing else. Rendering prose instead would answer a question
        // that was not asked.
        if format == Format::Svg && !analyzing {
            let mut out =
                "`--format svg` draws the whole graph, so it belongs to the analysis rather than to `".to_owned();
            out.append(command.name());
            out.append("`");
            return Err(out);
        }
        let std_mode = match scope.std_mode {
            Some(std) => StdMode::from(std),
            None => default_std(&command),
        };
        let suppress = match selector(policy.suppress.as_str()) {
            Ok(set) => set,
            Err(message) => {
                return Err(message);
            },
        };
        Ok(
            Args {
                command,
                suppress,
                only,
                features: scope.features,
                profile: scope.profile,
                std_mode,
                mir_opt_level: scope.mir_opt_level,
                with_tests: scope.with_tests,
                generics: policy.generics,
                format,
                static_only: policy.static_only,
                candidates: policy.candidates,
                verify: policy.verify,
                closures: policy.closures,
                all_crates: policy.all_crates,
                manifest_dir: scope.manifest_dir,
                package: scope.package,
                listen,
            },
        )
    }
}

impl Args {
    /// The edge policy the arguments describe.
    pub fn edges(&self) -> (r: Edges)
        ensures
            r == (Edges { follow_inexact: !self.static_only, candidates: self.candidates }),
    {
        Edges { follow_inexact: !self.static_only, candidates: self.candidates }
    }
}

/// A check reads the library that the baseline it is held to was written
/// against, where neither is told which, and it is not the one that hides what
/// it raises.
pub proof fn a_check_reads_what_its_baseline_did(check: Command, baseline: Command, other: Command)
    requires
        check is Check,
        baseline is Baseline,
        !(other is Check) && !(other is Baseline),
    ensures
        usual_std(check) == usual_std(baseline),
        usual_std(check) != usual_std(other),
        usual_std(other) is Shipped,
{
}

/// A command line is refused for what is wrong with it and for nothing else: a
/// view or a drawing asked of what has none, a word that names no category, or
/// an address that leads nowhere.
pub proof fn a_command_line_is_refused_for_a_fault(cli: Cli, found: Result<Vec<String>, String>)
    ensures
        refused(cli, found) is Some <==> {
            ||| (cli.listen is Some || cli.format is Svg) && !(cli.command is None
                || cli.command->0 is Analyze)
            ||| category::selection(cli.policy.suppress@) is Err
            ||| cli.policy.only is Some && category::selection(cli.policy.only->0@) is Err
            ||| cli.listen is Some && serve::bare_port(cli.listen->0@) is None && (match found {
                Ok(list) => list@.len() == 0,
                Err(_) => true,
            })
        },
{
}

} // verus!
