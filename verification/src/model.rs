//! The data model the driver emits and the solver consumes.
//!
//! One [`Artifact`] is produced per compiled crate. The command line tool
//! merges every artifact of a build into a single [`Graph`](crate::Graph).

use vstd::prelude::*;

use crate::category::{Category, Termination};
use crate::text;

verus! {

/// A source position.
#[derive(Debug, PartialEq, Eq)]
pub struct Loc {
    /// Path to the source file, as recorded by the compiler.
    pub file: String,
    /// One-based line number.
    pub line: u32,
    /// One-based column number.
    pub col: u32,
}

/// What a [`Loc`] says.
#[verifier::ext_equal]
pub struct LocView {
    pub file: Seq<char>,
    pub line: u32,
    pub col: u32,
}

impl View for Loc {
    type V = LocView;

    open spec fn view(&self) -> LocView {
        LocView { file: self.file@, line: self.line, col: self.col }
    }
}

impl Clone for Loc {
    fn clone(&self) -> (r: Loc)
        ensures
            r@ == self@,
    {
        Loc { file: self.file.clone(), line: self.line, col: self.col }
    }
}

/// A source position as it is written in a report.
pub open spec fn position(loc: LocView) -> Seq<char> {
    loc.file + ":"@ + text::decimal(loc.line as nat) + ":"@ + text::decimal(loc.col as nat)
}

impl Loc {
    /// The position as it is written in a report.
    pub fn text(&self) -> (r: String)
        ensures
            r@ == position(self@),
    {
        let mut out = self.file.clone();
        out.append(":");
        out.append(text::number(self.line as u64).as_str());
        out.append(":");
        out.append(text::number(self.col as u64).as_str());
        out
    }
}

/// What an optional [`Loc`] says.
pub open spec fn loc_view(loc: Option<Loc>) -> Option<LocView> {
    match loc {
        Some(l) => Some(l@),
        None => None,
    }
}

/// A copy of an optional position.
pub fn copy_loc(loc: &Option<Loc>) -> (r: Option<Loc>)
    ensures
        loc_view(r) == loc_view(*loc),
{
    match loc {
        Some(l) => Some(l.clone()),
        None => None,
    }
}

/// What an optional string holds.
pub open spec fn text_view(s: Option<String>) -> Option<Seq<char>> {
    match s {
        Some(t) => Some(t@),
        None => None,
    }
}

/// A copy of an optional string.
pub fn copy_text(s: &Option<String>) -> (r: Option<String>)
    ensures
        text_view(r) == text_view(*s),
{
    match s {
        Some(t) => Some(t.clone()),
        None => None,
    }
}

/// A globally unique identifier for one monomorphized function.
///
/// This is the compiler's symbol name, which stays unique across crates and
/// across instantiations of the same generic function.
#[derive(Debug, PartialEq, Eq, Hash, PartialOrd, Ord)]
pub struct FuncKey(pub String);

impl View for FuncKey {
    type V = Seq<char>;

    open spec fn view(&self) -> Seq<char> {
        self.0@
    }
}

impl Clone for FuncKey {
    fn clone(&self) -> (r: FuncKey)
        ensures
            r@ == self@,
    {
        FuncKey(self.0.clone())
    }
}

/// What the key of a body read before any instantiation starts with.
pub const OPEN_PREFIX: &'static str = "generic:";

/// Whether a key stands for a generic body rather than an instantiation.
pub open spec fn open_key(key: Seq<char>) -> bool {
    text::occurs_at(key, OPEN_PREFIX@, 0)
}

impl FuncKey {
    /// Whether the key stands for a generic body that no caller has given
    /// concrete arguments.
    pub fn is_open(&self) -> (r: bool)
        ensures
            r == open_key(self@),
    {
        text::starts_with(self.0.as_str(), OPEN_PREFIX)
    }
}

/// What an optional [`FuncKey`] holds.
pub open spec fn key_view(key: Option<FuncKey>) -> Option<Seq<char>> {
    match key {
        Some(k) => Some(k@),
        None => None,
    }
}

/// A copy of an optional key.
pub fn copy_key(key: &Option<FuncKey>) -> (r: Option<FuncKey>)
    ensures
        key_view(r) == key_view(*key),
{
    match key {
        Some(k) => Some(k.clone()),
        None => None,
    }
}

/// How confident the analysis is that a call edge is real.
#[derive(Debug, Clone, Copy, PartialEq, Eq, Hash, Structural)]
pub enum EdgeKind {
    /// A statically resolved call. The callee is exact.
    Static,
    /// Drop glue, entered through a `Drop` terminator.
    Drop,
    /// A `dyn Trait` call resolved through a vtable candidate.
    Vtable,
    /// A call through a function pointer, resolved by signature.
    FnPtr,
    /// A call that resolves only once a caller supplies concrete generic
    /// arguments.
    Generic,
    /// A call whose target the analysis could not determine.
    Unresolved,
}

impl EdgeKind {
    /// Every kind of edge.
    pub const ALL: [EdgeKind; 6] = [
        EdgeKind::Static,
        EdgeKind::Drop,
        EdgeKind::Vtable,
        EdgeKind::FnPtr,
        EdgeKind::Generic,
        EdgeKind::Unresolved,
    ];

    /// Whether an edge of this kind has one proven target.
    pub open spec fn exact(self) -> bool {
        self is Static || self is Drop
    }

    /// The name used in reports.
    pub open spec fn spec_name(self) -> Seq<char> {
        match self {
            EdgeKind::Static => "static"@,
            EdgeKind::Drop => "drop"@,
            EdgeKind::Vtable => "vtable"@,
            EdgeKind::FnPtr => "fn-ptr"@,
            EdgeKind::Generic => "generic"@,
            EdgeKind::Unresolved => "unresolved"@,
        }
    }

    /// The category a call of this kind raises while its target is unknown.
    pub open spec fn unknown_target(self) -> Category {
        match self {
            EdgeKind::Vtable => Category::DynCall,
            EdgeKind::FnPtr => Category::FnPointer,
            EdgeKind::Generic => Category::GenericBound,
            _ => Category::Unknown,
        }
    }

    /// Returns whether the edge is exact rather than a candidate.
    pub fn is_exact(self) -> (r: bool)
        ensures
            r == self.exact(),
    {
        match self {
            EdgeKind::Static | EdgeKind::Drop => true,
            _ => false,
        }
    }

    /// The name used in reports.
    pub fn name(self) -> (r: &'static str)
        ensures
            r@ == self.spec_name(),
    {
        match self {
            EdgeKind::Static => "static",
            EdgeKind::Drop => "drop",
            EdgeKind::Vtable => "vtable",
            EdgeKind::FnPtr => "fn-ptr",
            EdgeKind::Generic => "generic",
            EdgeKind::Unresolved => "unresolved",
        }
    }

    /// The category a call of this kind raises while its target is unknown.
    pub fn unresolved(self) -> (r: Category)
        ensures
            r == self.unknown_target(),
    {
        match self {
            EdgeKind::Vtable => Category::DynCall,
            EdgeKind::FnPtr => Category::FnPointer,
            EdgeKind::Generic => Category::GenericBound,
            _ => Category::Unknown,
        }
    }
}

/// Why a cleanup block is reachable.
///
/// Cleanup blocks run while a panic unwinds. They are only reachable if the
/// panic that triggers them can actually happen, so suppressing that panic
/// must also suppress everything reachable only through its cleanup path.
#[derive(Debug, Clone, Copy, PartialEq, Eq, Hash, Structural)]
pub enum UnwindOrigin {
    /// Reached by the unwind edge of a panic raised in this body. The index
    /// selects a member of [`Body::sites`].
    Site(u32),
    /// Reached by the unwind edge of a call in this body, and therefore live
    /// only if that callee can itself unwind. The index selects a member of
    /// [`Body::calls`].
    Call(u32),
}

/// The condition under which a site or call is reachable.
///
/// Computed once by the driver, and evaluated cheaply for each suppression
/// policy. A guard with `normal` set is always reachable; otherwise it is
/// reachable only while one of its unwind origins is live.
#[derive(Debug, PartialEq, Eq)]
pub struct Guard {
    /// Reachable without any panic occurring first.
    pub normal: bool,
    /// Unwind paths that also reach this point.
    pub origins: Vec<UnwindOrigin>,
}

/// What a [`Guard`] says.
#[verifier::ext_equal]
pub struct GuardView {
    pub normal: bool,
    pub origins: Seq<UnwindOrigin>,
}

impl View for Guard {
    type V = GuardView;

    open spec fn view(&self) -> GuardView {
        GuardView { normal: self.normal, origins: self.origins@ }
    }
}

impl Clone for Guard {
    fn clone(&self) -> (r: Guard)
        ensures
            r@ == self@,
    {
        let origins = self.origins.clone();
        assert(origins@ =~= self.origins@);
        Guard { normal: self.normal, origins }
    }
}

impl Default for Guard {
    fn default() -> (r: Guard)
        ensures
            r@ == (GuardView { normal: false, origins: Seq::empty() }),
    {
        Guard { normal: false, origins: Vec::new() }
    }
}

impl Guard {
    /// A guard for a point on the ordinary control flow path.
    pub fn always() -> (r: Guard)
        ensures
            r@ == (GuardView { normal: true, origins: Seq::empty() }),
    {
        Guard { normal: true, origins: Vec::new() }
    }

    /// Returns whether the guard can never be satisfied.
    pub fn is_dead(&self) -> (r: bool)
        ensures
            r == (!self@.normal && self@.origins.len() == 0),
    {
        !self.normal && self.origins.len() == 0
    }
}

/// A panic raised directly by a function body.
#[derive(Debug, PartialEq, Eq)]
pub struct PanicSite {
    /// What kind of panic this is.
    pub category: Category,
    /// Whether it unwinds or aborts.
    pub termination: Termination,
    /// The compiler's message, where one exists.
    pub reason: String,
    /// The panic entry point that was called, for sites that are calls.
    pub sink: Option<String>,
    /// Where the panic is written.
    pub loc: Option<Loc>,
    /// When this site is reachable.
    pub guard: Guard,
    /// True when every call of the function raises this.
    pub certain: bool,
    /// True when unwinding from here cannot leave the function.
    pub terminates: bool,
}

/// What a [`PanicSite`] says.
#[verifier::ext_equal]
pub struct SiteView {
    pub category: Category,
    pub termination: Termination,
    pub reason: Seq<char>,
    pub sink: Option<Seq<char>>,
    pub loc: Option<LocView>,
    pub guard: GuardView,
    pub certain: bool,
    pub terminates: bool,
}

impl View for PanicSite {
    type V = SiteView;

    open spec fn view(&self) -> SiteView {
        SiteView {
            category: self.category,
            termination: self.termination,
            reason: self.reason@,
            sink: text_view(self.sink),
            loc: loc_view(self.loc),
            guard: self.guard@,
            certain: self.certain,
            terminates: self.terminates,
        }
    }
}

impl Clone for PanicSite {
    fn clone(&self) -> (r: PanicSite)
        ensures
            r@ == self@,
    {
        PanicSite {
            category: self.category,
            termination: self.termination,
            reason: self.reason.clone(),
            sink: copy_text(&self.sink),
            loc: copy_loc(&self.loc),
            guard: self.guard.clone(),
            certain: self.certain,
            terminates: self.terminates,
        }
    }
}

/// A call from one function to another.
#[derive(Debug, PartialEq, Eq)]
pub struct CallSite {
    /// The resolved callee, absent when the target is unknown.
    pub callee: Option<FuncKey>,
    /// A readable name for the callee, used in reports.
    pub callee_display: String,
    /// How the target was resolved.
    pub kind: EdgeKind,
    /// Where the call is written.
    pub loc: Option<Loc>,
    /// When this call is reachable.
    pub guard: Guard,
    /// True when an unwinding panic in the callee stops at this call, as
    /// under a catch. An aborting one passes.
    pub barrier: bool,
    /// True when unwinding from here cannot leave the function.
    pub terminates: bool,
    /// True when the callee is one possible target rather than the proven
    /// one.
    pub candidate: bool,
    /// The signature a call through a pointer is made at.
    pub sig: Option<String>,
    /// The type whose implementation a candidate belongs to.
    pub self_ty: Option<String>,
}

/// What a [`CallSite`] says.
#[verifier::ext_equal]
pub struct CallView {
    pub callee: Option<Seq<char>>,
    pub callee_display: Seq<char>,
    pub kind: EdgeKind,
    pub loc: Option<LocView>,
    pub guard: GuardView,
    pub barrier: bool,
    pub terminates: bool,
    pub candidate: bool,
    pub sig: Option<Seq<char>>,
    pub self_ty: Option<Seq<char>>,
}

impl View for CallSite {
    type V = CallView;

    open spec fn view(&self) -> CallView {
        CallView {
            callee: key_view(self.callee),
            callee_display: self.callee_display@,
            kind: self.kind,
            loc: loc_view(self.loc),
            guard: self.guard@,
            barrier: self.barrier,
            terminates: self.terminates,
            candidate: self.candidate,
            sig: text_view(self.sig),
            self_ty: text_view(self.self_ty),
        }
    }
}

impl Clone for CallSite {
    fn clone(&self) -> (r: CallSite)
        ensures
            r@ == self@,
    {
        CallSite {
            callee: copy_key(&self.callee),
            callee_display: self.callee_display.clone(),
            kind: self.kind,
            loc: copy_loc(&self.loc),
            guard: self.guard.clone(),
            barrier: self.barrier,
            terminates: self.terminates,
            candidate: self.candidate,
            sig: copy_text(&self.sig),
            self_ty: copy_text(&self.self_ty),
        }
    }
}

/// Everything the solver needs to know about one function.
#[derive(Debug, PartialEq, Eq)]
pub struct Body {
    /// The function's unique key.
    pub key: FuncKey,
    /// A readable path, for example `mycrate::parse`.
    pub display: String,
    /// The crate the function was defined in.
    pub krate: String,
    /// Where the function is defined.
    pub loc: Option<Loc>,
    /// Panics raised directly by this body.
    pub sites: Vec<PanicSite>,
    /// Calls made by this body.
    pub calls: Vec<CallSite>,
    /// True when the compiler had no MIR for this function, so its behaviour
    /// is unknown rather than known to be panic free.
    pub opaque: bool,
    /// True when the function is foreign, so there is no Rust body to read
    /// and never will be. Reported apart from an opaque Rust function,
    /// which a fuller standard library would have shown.
    pub foreign: bool,
    /// True when the function is defined in the crate under analysis.
    pub local: bool,
    /// True when the record was made while compiling a test target.
    pub from_tests: bool,
}

/// What a list of sites says.
pub open spec fn site_views(sites: Seq<PanicSite>) -> Seq<SiteView> {
    sites.map_values(|s: PanicSite| s@)
}

/// What a list of calls says.
pub open spec fn call_views(calls: Seq<CallSite>) -> Seq<CallView> {
    calls.map_values(|c: CallSite| c@)
}

/// What a [`Body`] says.
#[verifier::ext_equal]
pub struct BodyView {
    pub key: Seq<char>,
    pub display: Seq<char>,
    pub krate: Seq<char>,
    pub loc: Option<LocView>,
    pub sites: Seq<SiteView>,
    pub calls: Seq<CallView>,
    pub opaque: bool,
    pub foreign: bool,
    pub local: bool,
    pub from_tests: bool,
}

impl View for Body {
    type V = BodyView;

    open spec fn view(&self) -> BodyView {
        BodyView {
            key: self.key@,
            display: self.display@,
            krate: self.krate@,
            loc: loc_view(self.loc),
            sites: site_views(self.sites@),
            calls: call_views(self.calls@),
            opaque: self.opaque,
            foreign: self.foreign,
            local: self.local,
            from_tests: self.from_tests,
        }
    }
}

impl BodyView {
    /// The category a body the analysis could not read raises.
    pub open spec fn unreadable(self) -> Category {
        if self.foreign {
            Category::Foreign
        } else {
            Category::Unknown
        }
    }
}

/// An opaque record for a function whose MIR was unavailable.
pub open spec fn opaque_body(key: Seq<char>, display: Seq<char>, krate: Seq<char>) -> BodyView {
    BodyView {
        key,
        display,
        krate,
        loc: None,
        sites: Seq::empty(),
        calls: Seq::empty(),
        opaque: true,
        foreign: false,
        local: false,
        from_tests: false,
    }
}

impl Clone for Body {
    fn clone(&self) -> (r: Body)
        ensures
            r@ == self@,
    {
        let sites = self.sites.clone();
        let calls = self.calls.clone();
        assert(site_views(sites@) =~= site_views(self.sites@));
        assert(call_views(calls@) =~= call_views(self.calls@));
        Body {
            key: self.key.clone(),
            display: self.display.clone(),
            krate: self.krate.clone(),
            loc: copy_loc(&self.loc),
            sites,
            calls,
            opaque: self.opaque,
            foreign: self.foreign,
            local: self.local,
            from_tests: self.from_tests,
        }
    }
}

impl Body {
    /// The category a body the analysis could not read raises.
    ///
    /// Foreign code is named apart from an opaque Rust function: it has no
    /// Rust body to read and no fuller standard library would produce one.
    pub fn unreadable(&self) -> (r: Category)
        ensures
            r == self@.unreadable(),
    {
        if self.foreign {
            Category::Foreign
        } else {
            Category::Unknown
        }
    }

    /// Creates an opaque record for a function whose MIR was unavailable.
    pub fn opaque(key: FuncKey, display: String, krate: String) -> (r: Body)
        ensures
            r@ == opaque_body(key@, display@, krate@),
    {
        let r = Body {
            key,
            display,
            krate,
            loc: None,
            sites: Vec::new(),
            calls: Vec::new(),
            opaque: true,
            foreign: false,
            local: false,
            from_tests: false,
        };
        assert(r@ =~= opaque_body(key@, display@, krate@));
        r
    }
}

/// How the standard library was made available to the analysis.
#[derive(Debug, Clone, Copy, PartialEq, Eq, Structural)]
pub enum StdMode {
    /// The precompiled standard library shipped with the toolchain. Fast, but
    /// concrete functions in `std` have no MIR and become opaque.
    Shipped,
    /// The standard library rebuilt from source with MIR encoded, giving full
    /// visibility at the cost of a one time rebuild.
    Full,
}

impl StdMode {
    /// The name used on the command line and in reports.
    pub open spec fn spec_name(self) -> Seq<char> {
        match self {
            StdMode::Shipped => "shipped"@,
            StdMode::Full => "full"@,
        }
    }

    /// The name used on the command line and in reports.
    pub fn name(self) -> (r: &'static str)
        ensures
            r@ == self.spec_name(),
    {
        match self {
            StdMode::Shipped => "shipped",
            StdMode::Full => "full",
        }
    }

    /// The mode that goes by a name, if one does.
    pub fn from_name(name: &str) -> (r: Option<StdMode>)
        ensures
            match r {
                Some(mode) => mode.spec_name() == name@,
                None => name@ != "shipped"@ && name@ != "full"@,
            },
    {
        if text::same(name, "shipped") {
            Some(StdMode::Shipped)
        } else if text::same(name, "full") {
            Some(StdMode::Full)
        } else {
            None
        }
    }
}

/// The build configuration an analysis ran under.
///
/// Reported alongside every result. Overflow checks in particular change the
/// answer, so a report that does not name its profile is not meaningful.
#[derive(Debug, PartialEq, Eq)]
pub struct BuildConfig {
    /// The compiler version string.
    pub rustc: String,
    /// The cargo profile, for example `release`.
    pub profile: String,
    /// Whether debug assertions were enabled.
    pub debug_assertions: bool,
    /// Whether arithmetic overflow checks were enabled.
    pub overflow_checks: bool,
    /// How the standard library was supplied.
    pub std_mode: StdMode,
    /// The MIR optimization level, where one was asked for.
    pub mir_opt_level: Option<u8>,
}

/// What a [`BuildConfig`] says.
#[verifier::ext_equal]
pub struct ConfigView {
    pub rustc: Seq<char>,
    pub profile: Seq<char>,
    pub debug_assertions: bool,
    pub overflow_checks: bool,
    pub std_mode: StdMode,
    pub mir_opt_level: Option<u8>,
}

impl View for BuildConfig {
    type V = ConfigView;

    open spec fn view(&self) -> ConfigView {
        ConfigView {
            rustc: self.rustc@,
            profile: self.profile@,
            debug_assertions: self.debug_assertions,
            overflow_checks: self.overflow_checks,
            std_mode: self.std_mode,
            mir_opt_level: self.mir_opt_level,
        }
    }
}

impl Clone for BuildConfig {
    fn clone(&self) -> (r: BuildConfig)
        ensures
            r@ == self@,
    {
        BuildConfig {
            rustc: self.rustc.clone(),
            profile: self.profile.clone(),
            debug_assertions: self.debug_assertions,
            overflow_checks: self.overflow_checks,
            std_mode: self.std_mode,
            mir_opt_level: self.mir_opt_level,
        }
    }
}

/// A function observed being turned into a pointer.
#[derive(Debug, PartialEq, Eq)]
pub struct Reified {
    /// The function's key.
    pub key: FuncKey,
    /// A readable name for it.
    pub display: String,
    /// The signature of the pointer it became.
    pub sig: String,
}

/// What a [`Reified`] says.
#[verifier::ext_equal]
pub struct ReifiedView {
    pub key: Seq<char>,
    pub display: Seq<char>,
    pub sig: Seq<char>,
}

impl View for Reified {
    type V = ReifiedView;

    open spec fn view(&self) -> ReifiedView {
        ReifiedView { key: self.key@, display: self.display@, sig: self.sig@ }
    }
}

impl Clone for Reified {
    fn clone(&self) -> (r: Reified)
        ensures
            r@ == self@,
    {
        Reified { key: self.key.clone(), display: self.display.clone(), sig: self.sig.clone() }
    }
}

/// One crate's contribution to the graph.
#[derive(Debug, PartialEq, Eq)]
pub struct Artifact {
    /// The crate this artifact was produced from.
    pub krate: String,
    /// The build configuration in force.
    pub config: BuildConfig,
    /// The function bodies observed while compiling this crate.
    pub bodies: Vec<Body>,
    /// The functions observed being turned into pointers.
    pub reified: Vec<Reified>,
}

/// What a list of bodies says.
pub open spec fn body_views(bodies: Seq<Body>) -> Seq<BodyView> {
    bodies.map_values(|b: Body| b@)
}

/// What a list of reified functions says.
pub open spec fn reified_views(reified: Seq<Reified>) -> Seq<ReifiedView> {
    reified.map_values(|r: Reified| r@)
}

/// What an [`Artifact`] says.
#[verifier::ext_equal]
pub struct ArtifactView {
    pub krate: Seq<char>,
    pub config: ConfigView,
    pub bodies: Seq<BodyView>,
    pub reified: Seq<ReifiedView>,
}

impl View for Artifact {
    type V = ArtifactView;

    open spec fn view(&self) -> ArtifactView {
        ArtifactView {
            krate: self.krate@,
            config: self.config@,
            bodies: body_views(self.bodies@),
            reified: reified_views(self.reified@),
        }
    }
}

impl Clone for Artifact {
    fn clone(&self) -> (r: Artifact)
        ensures
            r@ == self@,
    {
        let bodies = self.bodies.clone();
        let reified = self.reified.clone();
        assert(body_views(bodies@) =~= body_views(self.bodies@));
        assert(reified_views(reified@) =~= reified_views(self.reified@));
        Artifact { krate: self.krate.clone(), config: self.config.clone(), bodies, reified }
    }
}

/// A call whose target is not known stands for code that was not read, and so
/// does a body that could not be read; the kinds of call that name no one
/// target are told apart by what they stand for, and from code that another
/// language was written in.
pub proof fn what_is_not_read_stands_for_itself(one: EdgeKind, other: EdgeKind, body: BodyView)
    ensures
        crate::category::unread().contains(one.unknown_target()),
        crate::category::unread().contains(body.unreadable()),
        one.unknown_target() == other.unknown_target() && one != other ==> (one.exact()
            || one is Unresolved) && (other.exact() || other is Unresolved),
        one.exact() || one is Unresolved ==> one.unknown_target() is Unknown,
        body.foreign <==> body.unreadable() != EdgeKind::Unresolved.unknown_target(),
        !(one.unknown_target() is Foreign),
        body.foreign ==> body.unreadable() is Foreign,
{
}

} // verus!
