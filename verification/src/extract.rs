//! Reads one body and records what it can panic with, and who it calls.
//!
//! What the compiler knows of each call, drop and check is gathered first, as
//! plain values; what is recorded of it is decided here, against what folding
//! the body showed it to reach.

use vstd::prelude::*;

use crate::category::{Category, Termination};
use crate::flow;
use crate::flow::{resuming, unavoidable};
use crate::fold;
use crate::fold::{Reach, Reached};
use crate::mir;
use crate::mir::{Function, Terminator, Unwind};
use crate::model;
use crate::model::{
    copy_key, copy_loc, CallSite, CallView, EdgeKind, FuncKey, Guard, GuardView,
    Loc, LocView, PanicSite, Reified, ReifiedView, SiteView, UnwindOrigin,
};
use crate::sinks;
use crate::sinks::{classify, refine_unwrap, Raise, Signature, Sink};
use crate::text;
use crate::value::BinOp;

verus! {

/// A check the compiler inserts.
#[derive(Debug, Clone, Copy, PartialEq, Eq, Structural)]
pub enum AssertKind {
    BoundsCheck,
    Overflow(BinOp),
    OverflowNeg,
    DivisionByZero,
    RemainderByZero,
    MisalignedPointerDereference,
    NullPointerDereference,
    NullReferenceConstructed,
    InvalidEnumConstruction,
    ResumedAfterReturn,
    ResumedAfterPanic,
    ResumedAfterDrop,
}

/// What a compiler inserted check is reported as.
pub open spec fn spec_classify_assert(kind: AssertKind) -> (Raise, Seq<char>) {
    let unwinds = |category: Category| Raise { category, termination: Termination::Unwind };
    let aborts = |category: Category| Raise { category, termination: Termination::Abort };
    match kind {
        AssertKind::BoundsCheck => (unwinds(Category::Index), "index out of bounds"@),
        AssertKind::Overflow(_) => (unwinds(Category::Overflow), "arithmetic overflow"@),
        AssertKind::OverflowNeg => (unwinds(Category::Overflow), "negation overflow"@),
        AssertKind::DivisionByZero => (
            unwinds(Category::DivideByZero),
            "attempt to divide by zero"@,
        ),
        AssertKind::RemainderByZero => (
            unwinds(Category::RemainderByZero),
            "attempt to take remainder by zero"@,
        ),
        AssertKind::MisalignedPointerDereference => (
            aborts(Category::MisalignedRef),
            "misaligned pointer dereference"@,
        ),
        AssertKind::NullPointerDereference => (
            aborts(Category::NullDeref),
            "null pointer dereference"@,
        ),
        AssertKind::NullReferenceConstructed => (
            aborts(Category::NullDeref),
            "null pointer dereference"@,
        ),
        AssertKind::InvalidEnumConstruction => (
            aborts(Category::Explicit),
            "invalid enum construction"@,
        ),
        AssertKind::ResumedAfterReturn => (
            unwinds(Category::Explicit),
            "coroutine resumed after completion"@,
        ),
        AssertKind::ResumedAfterPanic => (
            unwinds(Category::Explicit),
            "coroutine resumed after completion"@,
        ),
        AssertKind::ResumedAfterDrop => (
            unwinds(Category::Explicit),
            "coroutine resumed after completion"@,
        ),
    }
}

/// Maps a compiler inserted check to a reportable category.
pub fn classify_assert(kind: AssertKind) -> (r: (Raise, &'static str))
    ensures
        (r.0, r.1@) == spec_classify_assert(kind),
{
    let (category, aborts, reason) = match kind {
        AssertKind::BoundsCheck => (Category::Index, false, "index out of bounds"),
        AssertKind::Overflow(_) => (Category::Overflow, false, "arithmetic overflow"),
        AssertKind::OverflowNeg => (Category::Overflow, false, "negation overflow"),
        AssertKind::DivisionByZero => (Category::DivideByZero, false, "attempt to divide by zero"),
        AssertKind::RemainderByZero => (
            Category::RemainderByZero,
            false,
            "attempt to take remainder by zero",
        ),
        AssertKind::MisalignedPointerDereference => (
            Category::MisalignedRef,
            true,
            "misaligned pointer dereference",
        ),
        AssertKind::NullPointerDereference | AssertKind::NullReferenceConstructed => (
            Category::NullDeref,
            true,
            "null pointer dereference",
        ),
        AssertKind::InvalidEnumConstruction => (
            Category::Explicit,
            true,
            "invalid enum construction",
        ),
        AssertKind::ResumedAfterReturn
        | AssertKind::ResumedAfterPanic
        | AssertKind::ResumedAfterDrop => (
            Category::Explicit,
            false,
            "coroutine resumed after completion",
        ),
    };
    let termination = if aborts {
        Termination::Abort
    } else {
        Termination::Unwind
    };
    (Raise { category, termination }, reason)
}

impl AssertKind {
    /// Whether a build without overflow checks drops the check.
    pub open spec fn optional(self) -> bool {
        match self {
            AssertKind::Overflow(op) => op is Add || op is Sub || op is Mul || op is Shl
                || op is Shr,
            AssertKind::OverflowNeg => true,
            _ => false,
        }
    }

    /// Whether a build without overflow checks drops the check.
    pub fn is_optional_overflow_check(self) -> (r: bool)
        ensures
            r == self.optional(),
    {
        match self {
            AssertKind::Overflow(op) => match op {
                BinOp::Add | BinOp::Sub | BinOp::Mul | BinOp::Shl | BinOp::Shr => true,
                _ => false,
            },
            AssertKind::OverflowNeg => true,
            _ => false,
        }
    }
}

/// Where a terminator sits, and where unwinding out of it lands.
///
/// The three travel together from the moment a terminator is read until the
/// entry it produces is recorded, so they are carried as one value.
#[derive(Debug)]
pub struct At {
    pub bb: usize,
    pub unwind: Unwind,
    pub loc: Option<Loc>,
}

/// What unwinding out of an entry of a body leads to.
#[derive(Debug, Clone, Copy, PartialEq, Eq, Structural)]
pub struct UnwindEdge {
    pub origin: UnwindOrigin,
    pub target: usize,
}

/// Entries collected from one body before reachability guards are attached.
#[derive(Debug)]
pub struct Raw {
    pub sites: Vec<PanicSite>,
    pub site_blocks: Vec<usize>,
    /// Whether each site raises whenever its block runs, rather than only
    /// when a check in the block fails.
    pub site_fires: Vec<bool>,
    pub calls: Vec<CallSite>,
    pub call_blocks: Vec<usize>,
    pub unwind_edges: Vec<UnwindEdge>,
    /// The functions worth expanding, by the number each was given.
    pub successors: Vec<usize>,
    /// Which blocks can unwind out of the body, by block index.
    pub resuming: Vec<bool>,
}

/// What a [`Raw`] says.
#[verifier::ext_equal]
pub struct RawView {
    pub sites: Seq<SiteView>,
    pub site_blocks: Seq<usize>,
    pub site_fires: Seq<bool>,
    pub calls: Seq<CallView>,
    pub call_blocks: Seq<usize>,
    pub unwind_edges: Seq<UnwindEdge>,
    pub successors: Seq<usize>,
    pub resuming: Seq<bool>,
}

impl View for Raw {
    type V = RawView;

    open spec fn view(&self) -> RawView {
        RawView {
            sites: model::site_views(self.sites@),
            site_blocks: self.site_blocks@,
            site_fires: self.site_fires@,
            calls: model::call_views(self.calls@),
            call_blocks: self.call_blocks@,
            unwind_edges: self.unwind_edges@,
            successors: self.successors@,
            resuming: self.resuming@,
        }
    }
}

/// The number an entry goes by, which is its place as far as it can be written
/// down.
pub open spec fn numbered(n: nat) -> u32 {
    if n <= u32::MAX {
        n as u32
    } else {
        u32::MAX
    }
}

fn number_of(n: usize) -> (r: u32)
    ensures
        r == numbered(n as nat),
{
    if n <= u32::MAX as usize {
        n as u32
    } else {
        u32::MAX
    }
}

/// Some edges with the cleanup path of one more entry.
pub open spec fn with_edge(edges: Seq<UnwindEdge>, origin: UnwindOrigin, unwind: Unwind) -> Seq<
    UnwindEdge,
> {
    match unwind {
        Unwind::Cleanup(target) => edges.push(UnwindEdge { origin, target }),
        _ => edges,
    }
}

impl RawView {
    /// Whether the lists that go together are of one length.
    pub open spec fn wf(self) -> bool {
        &&& self.site_blocks.len() == self.sites.len()
        &&& self.site_fires.len() == self.sites.len()
        &&& self.call_blocks.len() == self.calls.len()
    }

    /// Nothing collected yet.
    pub open spec fn nothing(resuming: Seq<bool>) -> RawView {
        RawView {
            sites: Seq::empty(),
            site_blocks: Seq::empty(),
            site_fires: Seq::empty(),
            calls: Seq::empty(),
            call_blocks: Seq::empty(),
            unwind_edges: Seq::empty(),
            successors: Seq::empty(),
            resuming,
        }
    }

    /// Whether unwinding out of a terminator can leave the function.
    pub open spec fn leaves(self, unwind: Unwind) -> bool {
        match unwind {
            Unwind::Continue => true,
            Unwind::Cleanup(target) => fold::flag(self.resuming, target, true),
            Unwind::Unreachable => false,
            Unwind::Terminate => false,
        }
    }

    /// What is collected with a panic site more.
    pub open spec fn with_site(self, at: At, site: SiteView, fires: bool) -> RawView {
        RawView {
            sites: self.sites.push(SiteView { terminates: !self.leaves(at.unwind), ..site }),
            site_blocks: self.site_blocks.push(at.bb),
            site_fires: self.site_fires.push(fires),
            unwind_edges: with_edge(
                self.unwind_edges,
                UnwindOrigin::Site(numbered(self.sites.len())),
                at.unwind,
            ),
            ..self
        }
    }

    /// What is collected with a call more.
    pub open spec fn with_call(self, at: At, call: CallView) -> RawView {
        RawView {
            calls: self.calls.push(CallView { terminates: !self.leaves(at.unwind), ..call }),
            call_blocks: self.call_blocks.push(at.bb),
            unwind_edges: with_edge(
                self.unwind_edges,
                UnwindOrigin::Call(numbered(self.calls.len())),
                at.unwind,
            ),
            ..self
        }
    }

    /// What is collected with a function more to expand.
    pub open spec fn expanding(self, work: usize) -> RawView {
        RawView { successors: self.successors.push(work), ..self }
    }

    /// What is collected with a call edge more.
    pub open spec fn with_plain_edge(
        self,
        at: At,
        callee: Option<Seq<char>>,
        display: Seq<char>,
        kind: EdgeKind,
        barrier: bool,
    ) -> RawView {
        self.with_call(at, CallView { barrier, ..edge(callee, display, kind, model::loc_view(at.loc)) })
    }

    /// What is collected with an edge to a target the analysis could not pin
    /// down.
    pub open spec fn unresolved(self, at: At, display: Seq<char>) -> RawView {
        self.with_plain_edge(at, None, display, EdgeKind::Unresolved, false)
    }

    /// What is collected with an edge that resolves only once a caller chooses
    /// arguments.
    pub open spec fn generic(self, at: At, display: Seq<char>) -> RawView {
        self.with_plain_edge(at, None, display, EdgeKind::Generic, false)
    }
}

/// A call edge with nothing else known of it.
pub open spec fn edge(
    callee: Option<Seq<char>>,
    callee_display: Seq<char>,
    kind: EdgeKind,
    loc: Option<LocView>,
) -> CallView {
    CallView {
        callee,
        callee_display,
        kind,
        loc,
        guard: GuardView { normal: false, origins: Seq::empty() },
        barrier: false,
        terminates: false,
        candidate: false,
        sig: None,
        self_ty: None,
    }
}

/// A panic site with nothing else known of it.
pub open spec fn raised(
    raise: Raise,
    reason: Seq<char>,
    sink: Option<Seq<char>>,
    loc: Option<LocView>,
) -> SiteView {
    SiteView {
        category: raise.category,
        termination: raise.termination,
        reason,
        sink,
        loc,
        guard: GuardView { normal: false, origins: Seq::empty() },
        certain: false,
        terminates: false,
    }
}

fn plain_site(raise: Raise, reason: String, sink: Option<String>, loc: &Option<Loc>) -> (r: PanicSite)
    ensures
        r@ == raised(raise, reason@, model::text_view(sink), model::loc_view(*loc)),
{
    let r = PanicSite {
        category: raise.category,
        termination: raise.termination,
        reason,
        sink,
        loc: copy_loc(loc),
        guard: Guard::default(),
        certain: false,
        terminates: false,
    };
    assert(r@ =~= raised(raise, reason@, model::text_view(sink), model::loc_view(*loc)));
    r
}

fn plain_call(callee: Option<FuncKey>, display: String, kind: EdgeKind, loc: &Option<Loc>) -> (r:
    CallSite)
    ensures
        r@ == edge(model::key_view(callee), display@, kind, model::loc_view(*loc)),
{
    let r = CallSite {
        callee,
        callee_display: display,
        kind,
        loc: copy_loc(loc),
        guard: Guard::default(),
        barrier: false,
        terminates: false,
        candidate: false,
        sig: None,
        self_ty: None,
    };
    assert(r@ =~= edge(model::key_view(callee), display@, kind, model::loc_view(*loc)));
    r
}

impl Raw {
    /// Nothing collected yet.
    pub fn new(resuming: Vec<bool>) -> (r: Raw)
        ensures
            r@ == RawView::nothing(resuming@),
            r@.wf(),
    {
        let r = Raw {
            sites: Vec::new(),
            site_blocks: Vec::new(),
            site_fires: Vec::new(),
            calls: Vec::new(),
            call_blocks: Vec::new(),
            unwind_edges: Vec::new(),
            successors: Vec::new(),
            resuming,
        };
        assert(r@ =~= RawView::nothing(resuming@));
        r
    }

    /// Whether unwinding out of a terminator can leave the function.
    ///
    /// The compiler aborts instead in a function that must not unwind, in a
    /// cleanup block, and on a cleanup path that never resumes.
    fn leaves(&self, unwind: Unwind) -> (r: bool)
        ensures
            r == self@.leaves(unwind),
    {
        match unwind {
            Unwind::Continue => true,
            Unwind::Cleanup(target) => target >= self.resuming.len() || self.resuming[target],
            Unwind::Unreachable => false,
            Unwind::Terminate => false,
        }
    }

    fn record_unwind(&mut self, origin: UnwindOrigin, unwind: Unwind)
        ensures
            final(self)@ == (RawView {
                unwind_edges: with_edge(old(self)@.unwind_edges, origin, unwind),
                ..old(self)@
            }),
    {
        if let Unwind::Cleanup(target) = unwind {
            self.unwind_edges.push(UnwindEdge { origin, target });
        }
    }

    /// Appends a panic site and the cleanup path unwinding out of it
    /// reaches.
    ///
    /// The origin names the entry by its position, so the index has to be
    /// read before the push, and every caller has to go through here for
    /// the lists to stay in step.
    pub fn add_site(&mut self, at: &At, site: PanicSite, fires: bool)
        requires
            old(self)@.wf(),
        ensures
            final(self)@ == old(self)@.with_site(*at, site@, fires),
            final(self)@.wf(),
    {
        let ghost was = self@;
        let index = number_of(self.sites.len());
        let mut site = site;
        let ghost said = site@;
        site.terminates = !self.leaves(at.unwind);
        assert(site@ =~= (SiteView { terminates: !was.leaves(at.unwind), ..said }));
        let ghost kept = site@;
        self.sites.push(site);
        self.site_blocks.push(at.bb);
        self.site_fires.push(fires);
        assert(model::site_views(self.sites@) =~= was.sites.push(kept));
        self.record_unwind(UnwindOrigin::Site(index), at.unwind);
        assert(self@ =~= was.with_site(*at, said, fires));
    }

    /// Appends a call edge and the cleanup path unwinding out of it reaches.
    pub fn add_call(&mut self, at: &At, call: CallSite)
        requires
            old(self)@.wf(),
        ensures
            final(self)@ == old(self)@.with_call(*at, call@),
            final(self)@.wf(),
    {
        let ghost was = self@;
        let index = number_of(self.calls.len());
        let mut call = call;
        let ghost said = call@;
        call.terminates = !self.leaves(at.unwind);
        assert(call@ =~= (CallView { terminates: !was.leaves(at.unwind), ..said }));
        let ghost kept = call@;
        self.calls.push(call);
        self.call_blocks.push(at.bb);
        assert(model::call_views(self.calls@) =~= was.calls.push(kept));
        self.record_unwind(UnwindOrigin::Call(index), at.unwind);
        assert(self@ =~= was.with_call(*at, said));
    }

    fn expand(&mut self, work: usize)
        ensures
            final(self)@ == old(self)@.expanding(work),
    {
        self.successors.push(work);
    }

    /// Appends a call edge and its unwind channel.
    fn push_edge(
        &mut self,
        at: &At,
        callee: Option<FuncKey>,
        display: String,
        kind: EdgeKind,
        barrier: bool,
    )
        requires
            old(self)@.wf(),
        ensures
            final(self)@ == old(self)@.with_plain_edge(
                *at,
                model::key_view(callee),
                display@,
                kind,
                barrier,
            ),
            final(self)@.wf(),
    {
        let mut call = plain_call(callee, display, kind, &at.loc);
        let ghost said = call@;
        call.barrier = barrier;
        assert(call@ =~= (CallView { barrier, ..said }));
        self.add_call(at, call);
    }

    /// Appends an edge to a target the analysis could not pin down.
    fn unresolved(&mut self, at: &At, display: String)
        requires
            old(self)@.wf(),
        ensures
            final(self)@ == old(self)@.unresolved(*at, display@),
            final(self)@.wf(),
    {
        self.push_edge(at, None, display, EdgeKind::Unresolved, false);
    }

    /// Appends an edge that resolves only once a caller chooses arguments.
    fn generic(&mut self, at: &At, display: String)
        requires
            old(self)@.wf(),
        ensures
            final(self)@ == old(self)@.generic(*at, display@),
            final(self)@.wf(),
    {
        self.push_edge(at, None, display, EdgeKind::Generic, false);
    }
}

/// Where unwinding out of a terminator goes in a build.
pub open spec fn spec_unwind_of(unwinds: bool, unwind: Unwind) -> Unwind {
    if unwinds {
        unwind
    } else {
        Unwind::Unreachable
    }
}

/// Where unwinding out of a terminator goes in this build.
///
/// A standard library body is built to unwind even when this build
/// aborts, and then its cleanup never runs.
pub fn unwind_of(unwinds: bool, unwind: Unwind) -> (r: Unwind)
    ensures
        r == spec_unwind_of(unwinds, unwind),
{
    if unwinds {
        unwind
    } else {
        Unwind::Unreachable
    }
}

/// What is collected once a check is read.
pub open spec fn with_check(
    raw: RawView,
    at: At,
    kind: AssertKind,
    overflow_checks: bool,
    fails: bool,
) -> RawView {
    if !overflow_checks && kind.optional() {
        raw
    } else {
        let (raise, reason) = spec_classify_assert(kind);
        raw.with_site(at, raised(raise, reason, None, model::loc_view(at.loc)), fails)
    }
}

/// Records a compiler inserted check as a panic site.
///
/// Codegen drops an optional check outright in a build without overflow
/// checks: the arithmetic wraps instead. It survives in the body only
/// because a function marked to inherit the setting is built once and used
/// by crates that disagree about it.
fn push_assert(raw: &mut Raw, at: &At, kind: AssertKind, overflow_checks: bool, fails: bool)
    requires
        old(raw)@.wf(),
    ensures
        final(raw)@ == with_check(old(raw)@, *at, kind, overflow_checks, fails),
        final(raw)@.wf(),
{
    if !overflow_checks && kind.is_optional_overflow_check() {
        return;
    }
    let (raise, reason) = classify_assert(kind);
    raw.add_site(at, plain_site(raise, reason.to_owned(), None, &at.loc), fails);
}

/// A function an operand or a call names.
#[derive(Debug)]
pub struct Named {
    pub display: String,
    pub key: Option<FuncKey>,
    /// The number to expand it by.
    pub work: usize,
}

/// One implementation a call through an object could reach.
#[derive(Debug)]
pub struct Impl {
    /// Whether it still has parameters, so that there is no one instance.
    pub generic: bool,
    /// Whether dropping the type runs anything.
    pub needs_drop: bool,
    /// The method it resolves to, or the glue of the type.
    pub target: Option<Named>,
    /// The type it is of.
    pub self_ty: String,
}

/// A function as the compiler defines it.
#[derive(Debug)]
pub struct Definition {
    pub krate: String,
    pub path: String,
}

/// A scope something is written in: the function it was inlined from, and the
/// scope around it.
#[derive(Debug)]
pub struct Enclosing {
    pub inlined: Option<Definition>,
    pub parent: Option<usize>,
}

/// What an instantiation the type system cannot see requires of a type.
#[derive(Debug)]
pub struct Validity {
    /// The type, where there is one.
    pub ty: Option<String>,
    /// Whether it still has parameters.
    pub generic: bool,
    /// Whether the type allows the value, where its layout is known.
    pub allowed: Option<bool>,
}

/// An operand handed to a call.
#[derive(Debug)]
pub enum Handed {
    /// A constant, and the function it names if it names one.
    Constant(Option<Named>),
    /// A local.
    Local(usize),
    /// Anything else.
    Other,
}

/// An assignment of a body.
#[derive(Debug)]
pub struct Write {
    /// The local written to, in whole or in part.
    pub local: usize,
    /// The function whose pointer is written, if it is one function's.
    pub names: Option<Named>,
}

/// What an operation the compiler defines does that matters here.
#[derive(Debug, Clone, Copy, PartialEq, Eq, Structural)]
pub enum Operation {
    /// Catches an unwinding panic.
    Catch,
    /// Checks an instantiation.
    Validity,
    /// Ends the process.
    Abort,
    Other,
}

/// What the operation of a name does; the compiler itself says which names
/// check an instantiation.
pub open spec fn spec_operation_of(name: Seq<char>, validity: bool) -> Operation {
    if name == "catch_unwind"@ {
        Operation::Catch
    } else if validity {
        Operation::Validity
    } else if name == "abort"@ {
        Operation::Abort
    } else {
        Operation::Other
    }
}

/// Tells the operations the compiler defines apart by name.
pub fn operation_of(name: &str, validity: bool) -> (r: Operation)
    ensures
        r == spec_operation_of(name@, validity),
{
    if text::same(name, "catch_unwind") {
        Operation::Catch
    } else if validity {
        Operation::Validity
    } else if text::same(name, "abort") {
        Operation::Abort
    } else {
        Operation::Other
    }
}

/// An operation the compiler defines, with what is read of it.
#[derive(Debug)]
pub enum Intrinsic {
    /// The catch of an unwinding panic: its operands, and what the body
    /// assigns.
    Catch(Vec<Handed>, Vec<Write>),
    /// The check of an instantiation.
    Validity(Validity),
    /// An abort: the function it is in, the scope it is written in, and the
    /// scopes of the body.
    Abort(Definition, usize, Vec<Enclosing>),
    Other,
}

/// What a resolved call runs.
#[derive(Debug)]
pub enum Runs {
    Intrinsic(Intrinsic),
    /// A method of an object: the implementations of its trait, unless there
    /// is no one trait or every closure implements it.
    Virtual(Vec<Impl>),
    Function,
}

/// A function a call was resolved to.
#[derive(Debug)]
pub struct Target {
    pub defined: Definition,
    pub signature: Signature,
    pub named: Named,
    pub runs: Runs,
    /// The message handed to it, where it is a plain string.
    pub message: Option<String>,
    /// The type of the error that the function the call stands in unwraps,
    /// where it is instantiated with one.
    pub discards: Option<Definition>,
}

/// The entry point a call reaches, if it reaches one.
pub open spec fn sink_of(target: Target) -> Option<Sink> {
    match sinks::spec_classify(target.defined.krate@, target.defined.path@, target.signature) {
        Some(sink) => match target.discards {
            Some(error) => if target.defined.path@ == "result::unwrap_failed"@ {
                Some(sinks::spec_refine_unwrap(sink, error.krate@, error.path@))
            } else {
                Some(sink)
            },
            None => Some(sink),
        },
        None => None,
    }
}

fn entry_point(target: &Target) -> (r: Option<Sink>)
    ensures
        r == sink_of(*target),
{
    let path = target.defined.path.as_str();
    let sink = match classify(target.defined.krate.as_str(), path, target.signature) {
        Some(sink) => sink,
        None => {
            return None;
        },
    };
    if let Some(error) = &target.discards {
        if text::same(path, "result::unwrap_failed") {
            return Some(refine_unwrap(sink, error.krate.as_str(), error.path.as_str()));
        }
    }
    Some(sink)
}

/// What the compiler says of a call.
#[derive(Debug)]
pub enum Callee {
    /// Its type could not be settled.
    Unsettled,
    /// It goes through a function pointer of a signature.
    Pointer(String),
    /// Its target exists only once a caller supplies arguments.
    Open(String),
    /// Its target could not be resolved.
    Lost(String),
    Found(Target),
}

/// What the compiler says of a drop.
#[derive(Debug)]
pub enum Glue {
    /// The type could not be settled.
    Unsettled,
    /// Nothing runs.
    Nothing,
    /// The type still has parameters.
    Open(String),
    /// A trait object's, with the implementations of its trait.
    Object(String, Vec<Impl>),
    /// One type's own.
    Own(Named),
}

/// A message as it is reported.
pub open spec fn clipped(message: Seq<char>) -> Seq<char> {
    if message.len() > 72 {
        message.take(72) + "..."@
    } else {
        message
    }
}

/// The static message a panic entry point is handed, as it is reported.
///
/// Formatted panics carry their template inside an arguments value and
/// are left alone; a plain string argument is the message itself, which
/// is what a bare panic, an unwrap, and an expect pass down.
pub fn panic_message(message: &str) -> (r: String)
    ensures
        r@ == clipped(message@),
{
    let v = text::chars_of(message);
    if v.len() > 72 {
        let mut out = text::text_of(v.as_slice(), 0, 72);
        out.append("...");
        assert(out@ =~= clipped(message@));
        out
    } else {
        message.to_owned()
    }
}

/// Why reaching an entry point is reported.
pub open spec fn reason_for(target: Target) -> Seq<char> {
    match target.message {
        Some(message) => "panics with \""@ + clipped(message@) + "\""@,
        None => "calls "@ + target.named.display@,
    }
}

fn reason(target: &Target) -> (r: String)
    ensures
        r@ == reason_for(*target),
{
    match &target.message {
        Some(message) => {
            let mut out = "panics with \"".to_owned();
            out.append(panic_message(message.as_str()).as_str());
            out.append("\"");
            out
        },
        None => {
            let mut out = "calls ".to_owned();
            out.append(target.named.display.as_str());
            out
        },
    }
}

/// What is collected once the first `n` panics of an entry point are raised.
pub open spec fn with_raises(raw: RawView, at: At, target: Target, raises: Seq<Raise>, n: nat) -> RawView
    decreases n,
{
    if n == 0 {
        raw
    } else {
        with_raises(raw, at, target, raises, (n - 1) as nat).with_site(
            at,
            raised(
                raises[n - 1],
                reason_for(target),
                Some(target.named.display@),
                model::loc_view(at.loc),
            ),
            true,
        )
    }
}

/// Records the panics a call into an entry point raises.
fn push_sink(raw: &mut Raw, at: &At, target: &Target, raises: Vec<Raise>)
    requires
        old(raw)@.wf(),
    ensures
        final(raw)@ == with_raises(old(raw)@, *at, *target, raises@, raises@.len()),
        final(raw)@.wf(),
{
    let ghost was = raw@;
    let why = reason(target);
    let mut i: usize = 0;
    while i < raises.len()
        invariant
            i <= raises@.len(),
            why@ == reason_for(*target),
            raw@.wf(),
            raw@ == with_raises(was, *at, *target, raises@, i as nat),
        decreases raises@.len() - i,
    {
        let site = plain_site(
            raises[i],
            why.clone(),
            Some(target.named.display.clone()),
            &at.loc,
        );
        raw.add_site(at, site, true);
        i += 1;
    }
}

/// The first of some assignments that writes a local, from one on.
pub open spec fn next_write(writes: Seq<Write>, local: usize, from: nat) -> nat
    decreases writes.len() - from,
{
    if from >= writes.len() || writes[from as int].local == local {
        from
    } else {
        next_write(writes, local, from + 1)
    }
}

/// The function an operand names.
pub open spec fn named_by(handed: Handed, writes: Seq<Write>) -> Option<Named> {
    match handed {
        Handed::Constant(named) => named,
        Handed::Local(local) => {
            let first = next_write(writes, local, 0);
            if first < writes.len() && next_write(writes, local, first + 1) >= writes.len() {
                writes[first as int].names
            } else {
                None
            }
        },
        Handed::Other => None,
    }
}

fn write_after(writes: &Vec<Write>, local: usize, from: usize) -> (r: usize)
    requires
        from <= writes@.len(),
    ensures
        r == next_write(writes@, local, from as nat),
        from <= r <= writes@.len(),
{
    let mut i: usize = from;
    while i < writes.len() && writes[i].local != local
        invariant
            from <= i <= writes@.len(),
            next_write(writes@, local, from as nat) == next_write(writes@, local, i as nat),
        decreases writes@.len() - i,
    {
        i += 1;
    }
    i
}

/// Resolves an operand holding a function to the function it names.
///
/// The reified pointer handed to the catch intrinsic is either a
/// constant already or a local a single cast wrote, and both name the
/// function outright. Anything else is given up on rather than guessed: with
/// two writes, which function the pointer names depends on the path taken.
fn fn_operand<'a>(handed: &'a Handed, writes: &'a Vec<Write>) -> (r: Option<&'a Named>)
    ensures
        match r {
            Some(named) => named_by(*handed, writes@) == Some(*named),
            None => named_by(*handed, writes@) is None,
        },
{
    match handed {
        Handed::Constant(named) => named.as_ref(),
        Handed::Local(local) => {
            let first = write_after(writes, *local, 0);
            if first < writes.len() && write_after(writes, *local, first + 1) >= writes.len() {
                writes[first].names.as_ref()
            } else {
                None
            }
        },
        Handed::Other => None,
    }
}

/// What is collected once a caught function is called.
pub open spec fn with_caught(
    raw: RawView,
    at: At,
    operands: Seq<Handed>,
    writes: Seq<Write>,
    index: int,
    barrier: bool,
) -> RawView {
    let named = if index < operands.len() {
        named_by(operands[index], writes)
    } else {
        None
    };
    match named {
        Some(f) => raw.with_plain_edge(
            at,
            model::key_view(f.key),
            f.display@,
            EdgeKind::Static,
            barrier,
        ).expanding(f.work),
        None => raw.with_plain_edge(
            at,
            None,
            "<caught function>"@,
            EdgeKind::Unresolved,
            barrier,
        ),
    }
}

fn push_caught(
    raw: &mut Raw,
    at: &At,
    operands: &Vec<Handed>,
    writes: &Vec<Write>,
    index: usize,
    barrier: bool,
)
    requires
        old(raw)@.wf(),
    ensures
        final(raw)@ == with_caught(old(raw)@, *at, operands@, writes@, index as int, barrier),
        final(raw)@.wf(),
{
    let named = if index < operands.len() {
        fn_operand(&operands[index], writes)
    } else {
        None
    };
    match named {
        Some(f) => {
            raw.push_edge(at, copy_key(&f.key), f.display.clone(), EdgeKind::Static, barrier);
            raw.expand(f.work);
        },
        None => {
            raw.push_edge(
                at,
                None,
                "<caught function>".to_owned(),
                EdgeKind::Unresolved,
                barrier,
            );
        },
    }
}

/// What is collected once the check inside an instantiation is read.
pub open spec fn with_validity(raw: RawView, at: At, validity: Validity) -> RawView {
    match validity.ty {
        None => raw.unresolved(at, "<validity of an unknown type>"@),
        Some(ty) => if validity.generic {
            raw.generic(at, "validity of "@ + ty@)
        } else {
            match validity.allowed {
                Some(true) => raw,
                Some(false) => raw.with_site(
                    at,
                    raised(
                        Raise { category: Category::Explicit, termination: Termination::Abort },
                        "instantiating "@ + ty@
                            + " this way is invalid, so the check aborts"@,
                        None,
                        model::loc_view(at.loc),
                    ),
                    true,
                ),
                None => raw.unresolved(at, "validity of "@ + ty@),
            }
        },
    }
}

/// Records the check inside an instantiation the type system cannot
/// see.
///
/// `mem::zeroed`, `mem::uninitialized`, and `assume_init` guard their
/// instantiation with an intrinsic that aborts when the type forbids
/// the value, in every build. The guard is resolved here the way
/// codegen resolves it: a type that satisfies the requirement raises
/// nothing, and one that cannot aborts every time it is reached. Where the
/// layout could not be computed, neither answer is safe to claim.
fn push_validity(raw: &mut Raw, at: &At, validity: &Validity)
    requires
        old(raw)@.wf(),
    ensures
        final(raw)@ == with_validity(old(raw)@, *at, *validity),
        final(raw)@.wf(),
{
    let ty = match &validity.ty {
        Some(ty) => ty,
        None => {
            raw.unresolved(at, "<validity of an unknown type>".to_owned());
            return;
        },
    };
    let mut display = "validity of ".to_owned();
    display.append(ty.as_str());
    if validity.generic {
        raw.generic(at, display);
        return;
    }
    match validity.allowed {
        Some(true) => {},
        Some(false) => {
            let mut why = "instantiating ".to_owned();
            why.append(ty.as_str());
            why.append(" this way is invalid, so the check aborts");
            let raise = Raise { category: Category::Explicit, termination: Termination::Abort };
            raw.add_site(at, plain_site(raise, why, None, &at.loc), true);
        },
        None => {
            raw.unresolved(at, display);
        },
    }
}

/// Whether a function belongs to the reference counting modules.
pub open spec fn counts_references(defined: Definition) -> bool {
    defined.krate@ == "alloc"@ && (text::occurs_at(defined.path@, "rc::"@, 0) || text::occurs_at(
        defined.path@,
        "sync::"@,
        0,
    ))
}

/// Whether a function belongs to the reference counting modules.
fn in_refcounting(defined: &Definition) -> (r: bool)
    ensures
        r == counts_references(*defined),
{
    text::same(defined.krate.as_str(), "alloc") && (text::starts_with(
        defined.path.as_str(),
        "rc::",
    ) || text::starts_with(defined.path.as_str(), "sync::"))
}

/// Whether a scope, or one of the scopes around it up to some steps out, was
/// inlined from the reference counting modules.
pub open spec fn inlined_there(scopes: Seq<Enclosing>, scope: usize, steps: nat) -> bool
    decreases steps,
{
    if steps == 0 || scope >= scopes.len() {
        false
    } else {
        let held = scopes[scope as int];
        ||| held.inlined is Some && counts_references(held.inlined->Some_0)
        ||| held.parent is Some && inlined_there(
            scopes,
            held.parent->Some_0,
            (steps - 1) as nat,
        )
    }
}

/// Whether an abort reports a reference count overflow.
pub open spec fn overflows_count(defined: Definition, scope: usize, scopes: Seq<Enclosing>) -> bool {
    counts_references(defined) || inlined_there(scopes, scope, scopes.len() + 1)
}

/// Whether a call to the abort intrinsic reports a reference count
/// overflow.
///
/// `Rc` and `Arc` abort when a count would wrap, and the abort intrinsic
/// is the whole report: there is no entry point to name. The rule is
/// scoped to the reference counting modules so that `process::abort`, a
/// deliberate termination rather than a panic, stays unreported. The
/// machinery is usually inlined into its caller, so the enclosing
/// instance is not enough: the scope chain keeps the compiler's own
/// record of where each inlined call was written. Parent links form a tree
/// toward the root scope, so the walk takes at most one step per scope.
fn refcount_abort(defined: &Definition, scope: usize, scopes: &Vec<Enclosing>) -> (r: bool)
    ensures
        r == overflows_count(*defined, scope, scopes@),
{
    if in_refcounting(defined) {
        return true;
    }
    let n = scopes.len();
    let mut at = scope;
    let mut left: usize = n;
    loop
        invariant
            n == scopes@.len(),
            left <= n,
            !counts_references(*defined),
            inlined_there(scopes@, scope, (n + 1) as nat) == inlined_there(
                scopes@,
                at,
                (left + 1) as nat,
            ),
        decreases left,
    {
        if at >= n {
            return false;
        }
        if let Some(from) = &scopes[at].inlined {
            if in_refcounting(from) {
                return true;
            }
        }
        match scopes[at].parent {
            None => {
                return false;
            },
            Some(parent) => {
                if left == 0 {
                    assert(!inlined_there(scopes@, parent, 0));
                    return false;
                }
                at = parent;
                left -= 1;
            },
        }
    }
}

/// What is collected once an operation the compiler defines is called.
pub open spec fn with_intrinsic(raw: RawView, at: At, intrinsic: Intrinsic) -> RawView {
    match intrinsic {
        Intrinsic::Catch(operands, writes) => with_caught(
            with_caught(raw, at, operands@, writes@, 0, true),
            at,
            operands@,
            writes@,
            2,
            false,
        ),
        Intrinsic::Validity(validity) => with_validity(raw, at, validity),
        Intrinsic::Abort(defined, scope, scopes) => if overflows_count(defined, scope, scopes@) {
            raw.with_site(
                at,
                raised(
                    Raise {
                        category: Category::RefCountOverflow,
                        termination: Termination::Abort,
                    },
                    "the reference count would overflow"@,
                    Some("core::intrinsics::abort"@),
                    model::loc_view(at.loc),
                ),
                true,
            )
        } else {
            raw
        },
        Intrinsic::Other => raw,
    }
}

/// Records what a call to an intrinsic raises.
///
/// The catch runs its first operand and, when that unwinds, its third. An
/// unwinding panic in the first stops here, which is the whole point of the
/// catch; an aborting one cannot be caught by anything. The edge is therefore
/// a barrier rather than a severed subtree, so the aborts keep flowing to the
/// caller. Other intrinsics are compiler defined operations. They cannot call
/// back into the program, so they add nothing to the graph, and recording
/// them as bodies that cannot be read would report every use of a hint like
/// `cold_path` as an unknown panic.
fn push_intrinsic(raw: &mut Raw, at: &At, intrinsic: &Intrinsic)
    requires
        old(raw)@.wf(),
    ensures
        final(raw)@ == with_intrinsic(old(raw)@, *at, *intrinsic),
        final(raw)@.wf(),
{
    match intrinsic {
        Intrinsic::Catch(operands, writes) => {
            push_caught(raw, at, operands, writes, 0, true);
            push_caught(raw, at, operands, writes, 2, false);
        },
        Intrinsic::Validity(validity) => {
            push_validity(raw, at, validity);
        },
        Intrinsic::Abort(defined, scope, scopes) => {
            if refcount_abort(defined, *scope, scopes) {
                let raise = Raise {
                    category: Category::RefCountOverflow,
                    termination: Termination::Abort,
                };
                let site = plain_site(
                    raise,
                    "the reference count would overflow".to_owned(),
                    Some("core::intrinsics::abort".to_owned()),
                    &at.loc,
                );
                raw.add_site(at, site, true);
            }
        },
        Intrinsic::Other => {},
    }
}

/// What a candidate is called: a drop reaches the glue of the type that
/// implements the trait, and a call the method it names.
pub open spec fn candidate_display(one: Impl, named: Named, dropping: bool) -> Seq<char> {
    if dropping {
        "drop glue for "@ + one.self_ty@
    } else {
        named.display@
    }
}

/// What is collected once one implementation is named as a candidate.
pub open spec fn with_candidate(raw: RawView, at: At, one: Impl, dropping: bool) -> RawView {
    match one.target {
        Some(named) => if one.generic || (dropping && !one.needs_drop) || named.key is None {
            raw
        } else {
            raw.with_call(
                at,
                CallView {
                    candidate: true,
                    self_ty: Some(one.self_ty@),
                    ..edge(
                        model::key_view(named.key),
                        candidate_display(one, named, dropping),
                        EdgeKind::Vtable,
                        model::loc_view(at.loc),
                    )
                },
            ).expanding(named.work)
        },
        None => raw,
    }
}

/// What is collected once the first `n` of some implementations are named.
pub open spec fn with_candidates(raw: RawView, at: At, impls: Seq<Impl>, dropping: bool, n: nat) -> RawView
    decreases n,
{
    if n == 0 {
        raw
    } else {
        with_candidate(
            with_candidates(raw, at, impls, dropping, (n - 1) as nat),
            at,
            impls[n - 1],
            dropping,
        )
    }
}

fn push_candidate(raw: &mut Raw, at: &At, one: &Impl, dropping: bool)
    requires
        old(raw)@.wf(),
    ensures
        final(raw)@ == with_candidate(old(raw)@, *at, *one, dropping),
        final(raw)@.wf(),
{
    if one.generic || (dropping && !one.needs_drop) {
        return;
    }
    if let Some(named) = &one.target {
        if named.key.is_some() {
            let display = if dropping {
                glue_for(one.self_ty.as_str())
            } else {
                named.display.clone()
            };
            let mut call = plain_call(
                copy_key(&named.key),
                display,
                EdgeKind::Vtable,
                &at.loc,
            );
            let ghost said = call@;
            call.candidate = true;
            call.self_ty = Some(one.self_ty.clone());
            assert(call@ =~= (CallView {
                candidate: true,
                self_ty: Some(one.self_ty@),
                ..said
            }));
            raw.add_call(at, call);
            raw.expand(named.work);
        }
    }
}

/// Appends every known implementation a call or a drop through an object
/// could reach.
///
/// Candidates are marked as such and followed only when asked for. The
/// unresolved edge stays regardless: an implementation in a crate the
/// analysis never loads, or behind a generic impl, is still possible.
fn push_candidates(raw: &mut Raw, at: &At, impls: &Vec<Impl>, dropping: bool)
    requires
        old(raw)@.wf(),
    ensures
        final(raw)@ == with_candidates(old(raw)@, *at, impls@, dropping, impls@.len()),
        final(raw)@.wf(),
{
    let ghost was = raw@;
    let mut i: usize = 0;
    while i < impls.len()
        invariant
            i <= impls@.len(),
            raw@.wf(),
            raw@ == with_candidates(was, *at, impls@, dropping, i as nat),
        decreases impls@.len() - i,
    {
        push_candidate(raw, at, &impls[i], dropping);
        i += 1;
    }
}

/// What is collected once a resolved call is read.
pub open spec fn with_target(raw: RawView, at: At, target: Target) -> RawView {
    match sink_of(target) {
        Some(sink) => with_raises(
            raw,
            at,
            target,
            sink.spec_raises(),
            sink.spec_raises().len(),
        ),
        None => match target.runs {
            Runs::Intrinsic(intrinsic) => with_intrinsic(raw, at, intrinsic),
            Runs::Virtual(impls) => with_candidates(
                raw.with_plain_edge(
                    at,
                    model::key_view(target.named.key),
                    target.named.display@,
                    EdgeKind::Vtable,
                    false,
                ),
                at,
                impls@,
                false,
                impls@.len(),
            ),
            Runs::Function => raw.with_plain_edge(
                at,
                model::key_view(target.named.key),
                target.named.display@,
                EdgeKind::Static,
                false,
            ).expanding(target.named.work),
        },
    }
}

/// What is collected once a call is read.
pub open spec fn with_callee(raw: RawView, at: At, callee: Callee) -> RawView {
    match callee {
        Callee::Unsettled => raw.unresolved(at, "<unresolved>"@),
        Callee::Pointer(sig) => raw.with_call(
            at,
            CallView {
                sig: Some(sig@),
                ..edge(None, "<fn pointer>"@, EdgeKind::FnPtr, model::loc_view(at.loc))
            },
        ),
        Callee::Open(display) => raw.generic(at, display@),
        Callee::Lost(display) => raw.unresolved(at, display@),
        Callee::Found(target) => with_target(raw, at, target),
    }
}

/// Records a call, either as a panic site or as a graph edge.
///
/// A call through a function pointer has an unknown target set, but the
/// signature narrows which reified functions could be behind it. Where not
/// enough is known yet, the target exists only once a caller supplies
/// concrete arguments, which is that caller's choice.
fn push_call(raw: &mut Raw, at: &At, callee: &Callee)
    requires
        old(raw)@.wf(),
    ensures
        final(raw)@ == with_callee(old(raw)@, *at, *callee),
        final(raw)@.wf(),
{
    let target = match callee {
        Callee::Unsettled => {
            raw.unresolved(at, "<unresolved>".to_owned());
            return;
        },
        Callee::Pointer(sig) => {
            let mut call = plain_call(None, "<fn pointer>".to_owned(), EdgeKind::FnPtr, &at.loc);
            let ghost said = call@;
            call.sig = Some(sig.clone());
            assert(call@ =~= (CallView { sig: Some(sig@), ..said }));
            raw.add_call(at, call);
            return;
        },
        Callee::Open(display) => {
            raw.generic(at, display.clone());
            return;
        },
        Callee::Lost(display) => {
            raw.unresolved(at, display.clone());
            return;
        },
        Callee::Found(target) => target,
    };
    if let Some(sink) = entry_point(target) {
        push_sink(raw, at, target, sink.raises());
        return;
    }
    match &target.runs {
        Runs::Intrinsic(intrinsic) => {
            push_intrinsic(raw, at, intrinsic);
        },
        Runs::Virtual(impls) => {
            raw.push_edge(
                at,
                copy_key(&target.named.key),
                target.named.display.clone(),
                EdgeKind::Vtable,
                false,
            );
            push_candidates(raw, at, impls, false);
        },
        Runs::Function => {
            raw.push_edge(
                at,
                copy_key(&target.named.key),
                target.named.display.clone(),
                EdgeKind::Static,
                false,
            );
            raw.expand(target.named.work);
        },
    }
}

/// What is collected once a drop is read.
pub open spec fn with_drop(raw: RawView, at: At, glue: Glue) -> RawView {
    match glue {
        Glue::Unsettled => raw.unresolved(at, "<unresolved drop>"@),
        Glue::Nothing => raw,
        Glue::Open(ty) => raw.generic(at, "drop glue for "@ + ty@),
        Glue::Object(ty, impls) => with_candidates(
            raw.with_plain_edge(at, None, "drop glue for "@ + ty@, EdgeKind::Vtable, false),
            at,
            impls@,
            true,
            impls@.len(),
        ),
        Glue::Own(named) => raw.with_plain_edge(
            at,
            model::key_view(named.key),
            "drop glue for "@ + named.display@,
            EdgeKind::Drop,
            false,
        ).expanding(named.work),
    }
}

/// Records the drop glue reached by a `Drop` terminator.
///
/// A reference or a struct of raw pointers has no glue whatever its
/// parameters turn out to be, so treating the terminator as an unknown target
/// would invent a panic that no instantiation can reach. A trait object's own
/// glue only calls through its vtable and would read as clean, so the drop is
/// a call through the object like any of its methods.
fn push_drop(raw: &mut Raw, at: &At, glue: &Glue)
    requires
        old(raw)@.wf(),
    ensures
        final(raw)@ == with_drop(old(raw)@, *at, *glue),
        final(raw)@.wf(),
{
    match glue {
        Glue::Unsettled => {
            raw.unresolved(at, "<unresolved drop>".to_owned());
        },
        Glue::Nothing => {},
        Glue::Open(ty) => {
            raw.generic(at, glue_for(ty.as_str()));
        },
        Glue::Object(ty, impls) => {
            raw.push_edge(at, None, glue_for(ty.as_str()), EdgeKind::Vtable, false);
            push_candidates(raw, at, impls, true);
        },
        Glue::Own(named) => {
            raw.push_edge(
                at,
                copy_key(&named.key),
                glue_for(named.display.as_str()),
                EdgeKind::Drop,
                false,
            );
            raw.expand(named.work);
        },
    }
}

fn glue_for(ty: &str) -> (r: String)
    ensures
        r@ == "drop glue for "@ + ty@,
{
    let mut out = "drop glue for ".to_owned();
    out.append(ty);
    out
}

/// What the compiler says of the end of a block.
#[derive(Debug)]
pub enum End {
    Check(AssertKind),
    Call(Callee),
    Drop(Glue),
    /// Inline assembly, and whether it may unwind.
    Assembly(bool),
    Other,
}

/// A function or a type seen where it matters to calls elsewhere.
#[derive(Debug)]
pub enum Note {
    /// A function turned into a pointer: the function, where it could be
    /// named, and the signature of the pointer.
    Reified(Option<Named>, Option<String>),
    /// A pointer unsized: whether its type is or holds a trait object
    /// afterwards and whether it did before, and what it was.
    Unsized(bool, bool, Shape),
}

/// How a type points at another.
#[derive(Debug, Clone, Copy, PartialEq, Eq, Structural)]
pub enum Points {
    /// A reference or a raw pointer.
    Plainly,
    /// A box.
    Boxed,
    /// Any other type with fields, which may wrap a pointer.
    Wrapped,
    /// Not at all.
    Not,
}

/// A type, as far as what it points at.
#[derive(Debug)]
pub struct Shape {
    pub name: String,
    pub points: Points,
    /// What a pointer or a box points at, or the first type argument of
    /// another type.
    pub inner: Option<Box<Shape>>,
}

/// The type a pointer or a smart pointer points at.
pub open spec fn pointed_at(shape: Shape) -> Option<Shape> {
    match (shape.points, shape.inner) {
        (Points::Not, _) => None,
        (_, None) => None,
        (Points::Wrapped, Some(inner)) => if inner.points is Plainly || inner.points is Boxed {
            match inner.inner {
                Some(within) => Some(*within),
                None => None,
            }
        } else {
            Some(*inner)
        },
        (_, Some(inner)) => Some(*inner),
    }
}

/// The type a pointer or a smart pointer points at.
///
/// A box names it outright, a reference or a raw pointer carries it, and
/// any other pointer wrapper keeps it as its first type argument, wrapped
/// once more where it is pinned.
fn pointee_of(shape: &Shape) -> (r: Option<&Shape>)
    ensures
        match r {
            Some(s) => pointed_at(*shape) == Some(*s),
            None => pointed_at(*shape) is None,
        },
{
    let inner = match &shape.inner {
        Some(inner) => inner,
        None => {
            return None;
        },
    };
    match shape.points {
        Points::Not => None,
        Points::Plainly | Points::Boxed => Some(&**inner),
        Points::Wrapped => match inner.points {
            Points::Plainly | Points::Boxed => match &inner.inner {
                Some(within) => Some(&**within),
                None => None,
            },
            _ => Some(&**inner),
        },
    }
}

/// What the compiler says of a block.
#[derive(Debug)]
pub struct Outline {
    pub notes: Vec<Note>,
    pub end: End,
    /// Where the end is written.
    pub loc: Option<Loc>,
}

/// What a build does about panics and overflow.
#[derive(Debug, Clone, Copy, PartialEq, Eq, Structural)]
pub struct Build {
    /// Whether panics unwind. Under an abort no cleanup runs and no catch
    /// contains anything.
    pub unwinds: bool,
    /// Whether arithmetic overflow is checked.
    pub overflow_checks: bool,
}

/// Where unwinding out of a terminator goes.
pub open spec fn unwinds_to(term: Option<Terminator>) -> Unwind {
    match term {
        Some(Terminator::Assert(check)) => check.unwind,
        Some(Terminator::Call(call)) => call.unwind,
        Some(Terminator::Drop(_, _, _, unwind)) => unwind,
        Some(Terminator::Assembly(_, unwind)) => unwind,
        // The frame is gone by the time a tail call runs, so what it raises
        // leaves the function.
        Some(Terminator::TailCall(_)) => Unwind::Continue,
        _ => Unwind::Unreachable,
    }
}

fn leads_to(term: &Option<Terminator>) -> (r: Unwind)
    ensures
        r == unwinds_to(*term),
{
    match term {
        Some(Terminator::Assert(check)) => check.unwind,
        Some(Terminator::Call(call)) => call.unwind,
        Some(Terminator::Drop(_, _, _, unwind)) => *unwind,
        Some(Terminator::Assembly(_, unwind)) => *unwind,
        Some(Terminator::TailCall(_)) => Unwind::Continue,
        _ => Unwind::Unreachable,
    }
}

/// What inline assembly that may unwind is reported as.
pub open spec fn assembly_raise() -> Raise {
    Raise { category: Category::Foreign, termination: Termination::Unwind }
}

/// What is collected once inline assembly is read.
pub open spec fn with_assembly(raw: RawView, at: At, unwinds: bool) -> RawView {
    if unwinds {
        raw.with_site(
            at,
            raised(
                assembly_raise(),
                "runs assembly that may unwind"@,
                None,
                model::loc_view(at.loc),
            ),
            false,
        )
    } else {
        raw
    }
}

/// Records inline assembly.
///
/// Assembly that may unwind can run code that panics, and none of it is code
/// the analysis can read. Assembly that cannot unwind raises nothing.
fn push_assembly(raw: &mut Raw, at: &At, unwinds: bool)
    requires
        old(raw)@.wf(),
    ensures
        final(raw)@ == with_assembly(old(raw)@, *at, unwinds),
        final(raw)@.wf(),
{
    if unwinds {
        let raise = Raise { category: Category::Foreign, termination: Termination::Unwind };
        let site = plain_site(raise, "runs assembly that may unwind".to_owned(), None, &at.loc);
        raw.add_site(at, site, false);
    }
}

/// What is collected once the end of a block is read.
pub open spec fn with_end(
    raw: RawView,
    build: Build,
    reached: Reached,
    outline: Outline,
    at: At,
) -> RawView {
    match outline.end {
        End::Check(kind) => if fold::flag(reached.settled, at.bb, false) {
            raw
        } else {
            with_check(
                raw,
                at,
                kind,
                build.overflow_checks,
                fold::flag(reached.failing, at.bb, false),
            )
        },
        End::Call(callee) => if fold::flag(reached.quiet, at.bb, false) {
            raw
        } else {
            with_callee(raw, at, callee)
        },
        End::Drop(glue) => with_drop(raw, at, glue),
        End::Assembly(unwinds) => with_assembly(raw, at, unwinds),
        End::Other => raw,
    }
}

fn push_end(raw: &mut Raw, build: Build, reach: &Reach, outline: &Outline, at: &At)
    requires
        old(raw)@.wf(),
    ensures
        final(raw)@ == with_end(old(raw)@, build, reach@, *outline, *at),
        final(raw)@.wf(),
{
    match &outline.end {
        End::Check(kind) => {
            // The condition holds for these generic arguments, so the
            // compiler emits no check at all.
            if !reach.is_settled(at.bb) {
                push_assert(raw, at, *kind, build.overflow_checks, reach.is_failing(at.bb));
            }
        },
        End::Call(callee) => {
            // The callee was walked with the arguments this call makes and
            // found unable to raise. It runs no other body under them
            // either, so nothing below it is reachable through this edge.
            if !reach.is_quiet(at.bb) {
                push_call(raw, at, callee);
            }
        },
        End::Drop(glue) => {
            push_drop(raw, at, glue);
        },
        End::Assembly(unwinds) => {
            push_assembly(raw, at, *unwinds);
        },
        End::Other => {},
    }
}

/// What was seen of functions made into pointers and of types made into trait
/// objects.
#[derive(Debug)]
pub struct Seen {
    pub reified: Vec<Reified>,
    /// The types, in order.
    pub coerced: Vec<String>,
}

/// What a [`Seen`] says.
#[verifier::ext_equal]
pub struct SeenView {
    pub reified: Seq<ReifiedView>,
    pub coerced: Seq<Seq<char>>,
}

impl View for Seen {
    type V = SeenView;

    open spec fn view(&self) -> SeenView {
        SeenView {
            reified: model::reified_views(self.reified@),
            coerced: text::texts(self.coerced@),
        }
    }
}

/// Whether a function is recorded as made into a pointer of a signature.
pub open spec fn is_reified(reified: Seq<ReifiedView>, key: Seq<char>, sig: Seq<char>) -> bool {
    exists|i: int| 0 <= i < reified.len() && (#[trigger] reified[i]).key == key && reified[i].sig == sig
}

/// Some names in order, with one more in its place.
pub open spec fn with_name(names: Seq<Seq<char>>, name: Seq<char>) -> Seq<Seq<char>>
    decreases names.len(),
{
    if names.len() == 0 {
        seq![name]
    } else if names.last() == name {
        names
    } else if text::comes_before(names.last(), name) {
        names.push(name)
    } else {
        with_name(names.drop_last(), name).push(names.last())
    }
}

/// Whether names stand in order, none of them twice.
pub open spec fn names_in_order(names: Seq<Seq<char>>) -> bool {
    forall|i: int, j: int|
        0 <= i < j < names.len() ==> text::comes_before(#[trigger] names[i], #[trigger] names[j])
}

/// A name put among names in order leaves them in order, and is among them
/// with all of the others.
pub proof fn names_stay_in_order(names: Seq<Seq<char>>, name: Seq<char>)
    requires
        names_in_order(names),
    ensures
        names_in_order(with_name(names, name)),
        forall|n: Seq<char>| #[trigger]
            with_name(names, name).contains(n) <==> names.contains(n) || n == name,
    decreases names.len(),
{
    let r = with_name(names, name);
    if names.len() == 0 {
        assert forall|n: Seq<char>| #[trigger] r.contains(n) <==> names.contains(n) || n == name by {
            assert(r[0] == name);
        }
    } else if names.last() == name {
        assert(names[names.len() - 1] == name);
    } else if text::comes_before(names.last(), name) {
        assert forall|i: int, j: int| 0 <= i < j < r.len() implies text::comes_before(
            #[trigger] r[i],
            #[trigger] r[j],
        ) by {
            if j == names.len() && i < names.len() - 1 {
                text::text_order_is_transitive(names[i], names.last(), name);
            }
        }
        assert forall|n: Seq<char>| #[trigger] r.contains(n) <==> names.contains(n) || n == name by {
            if names.contains(n) {
                let k = choose|k: int| 0 <= k < names.len() && names[k] == n;
                assert(r[k] == n);
            }
            assert(r[names.len() as int] == name);
        }
    } else {
        let front = names.drop_last();
        let last = names.last();
        names_stay_in_order(front, name);
        text::texts_are_ordered(last, name);
        let inner = with_name(front, name);
        assert forall|i: int, j: int| 0 <= i < j < r.len() implies text::comes_before(
            #[trigger] r[i],
            #[trigger] r[j],
        ) by {
            if j == r.len() - 1 {
                assert(inner.contains(inner[i]));
                if inner[i] != name {
                    let k = choose|k: int| 0 <= k < front.len() && front[k] == inner[i];
                    assert(names[k] == inner[i] && names[names.len() - 1] == last);
                }
            } else {
                assert(r[i] == inner[i] && r[j] == inner[j]);
            }
        }
        assert forall|n: Seq<char>| #[trigger] r.contains(n) <==> names.contains(n) || n == name by {
            if names.contains(n) {
                let k = choose|k: int| 0 <= k < names.len() && names[k] == n;
                if k < front.len() {
                    assert(front[k] == n);
                    assert(inner.contains(n));
                    let m = choose|m: int| 0 <= m < inner.len() && inner[m] == n;
                    assert(r[m] == n);
                } else {
                    assert(r[r.len() - 1] == n);
                }
            }
            if n == name {
                assert(inner.contains(n));
                let m = choose|m: int| 0 <= m < inner.len() && inner[m] == n;
                assert(r[m] == n);
            }
            if r.contains(n) {
                let m = choose|m: int| 0 <= m < r.len() && r[m] == n;
                if m < inner.len() {
                    assert(inner.contains(inner[m]));
                    if n != name {
                        let k = choose|k: int| 0 <= k < front.len() && front[k] == n;
                        assert(names[k] == n);
                    }
                } else {
                    assert(names[names.len() - 1] == n);
                }
            }
        }
    }
}

fn keep_name(names: &mut Vec<String>, name: &str)
    ensures
        text::texts(final(names)@) == with_name(text::texts(old(names)@), name@),
{
    let ghost was = text::texts(names@);
    let ghost held = names@;
    let mut i: usize = names.len();
    assert(was.take(was.len() as int) =~= was);
    assert(was.skip(was.len() as int) =~= Seq::empty());
    while i > 0
        invariant
            names@ == held,
            held == old(names)@,
            was == text::texts(held),
            i <= was.len(),
            with_name(was, name@) == with_name(was.take(i as int), name@) + was.skip(i as int),
        ensures
            i > 0 ==> was[i - 1] != name@ && text::comes_before(was[i - 1], name@),
        decreases i,
    {
        let ghost part = was.take(i as int);
        assert(part.last() == held[i - 1]@);
        if text::same(names[i - 1].as_str(), name) {
            assert(part + was.skip(i as int) =~= was);
            return;
        }
        if text::before(names[i - 1].as_str(), name) {
            break;
        }
        assert(part.drop_last() =~= was.take(i - 1));
        assert(with_name(part, name@) + was.skip(i as int) =~= with_name(was.take(i - 1), name@)
            + was.skip(i - 1));
        i -= 1;
    }
    proof {
        let part = was.take(i as int);
        assert(with_name(part, name@) =~= part.push(name@));
        assert(was.insert(i as int, name@) =~= part.push(name@) + was.skip(i as int));
    }
    names.insert(i, name.to_owned());
    assert(text::texts(names@) =~= was.insert(i as int, name@));
}

/// What was seen once a note is read, and what is collected.
pub open spec fn with_note(seen: SeenView, raw: RawView, note: Note) -> (SeenView, RawView) {
    match note {
        Note::Reified(Some(named), Some(sig)) => match named.key {
            Some(key) => if is_reified(seen.reified, key@, sig@) {
                (seen, raw)
            } else {
                (
                    SeenView {
                        reified: seen.reified.push(
                            ReifiedView { key: key@, display: named.display@, sig: sig@ },
                        ),
                        ..seen
                    },
                    raw.expanding(named.work),
                )
            },
            None => (seen, raw),
        },
        Note::Unsized(object, before, source) => match pointed_at(source) {
            Some(pointee) => if object && !before {
                (SeenView { coerced: with_name(seen.coerced, pointee.name@), ..seen }, raw)
            } else {
                (seen, raw)
            },
            None => (seen, raw),
        },
        _ => (seen, raw),
    }
}

/// What was seen once the first `n` of some notes are read, and what is
/// collected.
pub open spec fn with_notes(seen: SeenView, raw: RawView, notes: Seq<Note>, n: nat) -> (
    SeenView,
    RawView,
)
    decreases n,
{
    if n == 0 {
        (seen, raw)
    } else {
        let (s, r) = with_notes(seen, raw, notes, (n - 1) as nat);
        with_note(s, r, notes[n - 1])
    }
}

fn holds_reified(reified: &Vec<Reified>, key: &FuncKey, sig: &str) -> (r: bool)
    ensures
        r == is_reified(model::reified_views(reified@), key@, sig@),
{
    let ghost views = model::reified_views(reified@);
    let mut i: usize = 0;
    while i < reified.len()
        invariant
            i <= reified@.len(),
            views == model::reified_views(reified@),
            forall|k: int|
                0 <= k < i ==> (#[trigger] views[k]).key != key@ || views[k].sig != sig@,
        decreases reified@.len() - i,
    {
        assert(views[i as int] == reified@[i as int]@);
        if text::same(reified[i].key.0.as_str(), key.0.as_str()) && text::same(
            reified[i].sig.as_str(),
            sig,
        ) {
            return true;
        }
        i += 1;
    }
    false
}

impl Seen {
    /// Nothing seen yet.
    pub fn nothing() -> (r: Seen)
        ensures
            r@ == (SeenView { reified: Seq::empty(), coerced: Seq::empty() }),
    {
        let r = Seen { reified: Vec::new(), coerced: Vec::new() };
        assert(r@ =~= (SeenView { reified: Seq::empty(), coerced: Seq::empty() }));
        r
    }

    /// Records a function being turned into a pointer, so indirect calls
    /// can name it as a candidate, or a type being made into a trait object,
    /// so that a call through one can name the implementations behind it.
    ///
    /// Only reachable code is scanned, so a pointer that no execution can
    /// create never becomes a candidate, and neither does a type that none
    /// makes into an object. The candidate's own panics have to be recorded
    /// for the edge to mean anything, so its body is walked as well.
    fn note(&mut self, raw: &mut Raw, note: &Note)
        requires
            old(raw)@.wf(),
        ensures
            (final(self)@, final(raw)@) == with_note(old(self)@, old(raw)@, *note),
            final(raw)@.wf(),
    {
        let ghost was = self@;
        match note {
            Note::Reified(Some(named), Some(sig)) => {
                if let Some(key) = &named.key {
                    if !holds_reified(&self.reified, key, sig.as_str()) {
                        raw.expand(named.work);
                        let one = Reified {
                            key: key.clone(),
                            display: named.display.clone(),
                            sig: sig.clone(),
                        };
                        let ghost said = one@;
                        self.reified.push(one);
                        assert(model::reified_views(self.reified@) =~= was.reified.push(said));
                    }
                }
            },
            Note::Unsized(object, before, source) => {
                if *object && !*before {
                    if let Some(pointee) = pointee_of(source) {
                        keep_name(&mut self.coerced, pointee.name.as_str());
                    }
                }
            },
            _ => {},
        }
    }

    fn notes(&mut self, raw: &mut Raw, notes: &Vec<Note>)
        requires
            old(raw)@.wf(),
        ensures
            (final(self)@, final(raw)@) == with_notes(old(self)@, old(raw)@, notes@, notes@.len()),
            final(raw)@.wf(),
    {
        let ghost was = (self@, raw@);
        let mut i: usize = 0;
        while i < notes.len()
            invariant
                i <= notes@.len(),
                raw@.wf(),
                (self@, raw@) == with_notes(was.0, was.1, notes@, i as nat),
            decreases notes@.len() - i,
        {
            self.note(raw, &notes[i]);
            i += 1;
        }
    }
}

/// What was seen and collected once the first `n` blocks of a body are read.
pub open spec fn scanned(
    build: Build,
    function: Function,
    reached: Reached,
    outlines: Seq<Outline>,
    seen: SeenView,
    raw: RawView,
    n: nat,
) -> (SeenView, RawView)
    decreases n,
{
    if n == 0 {
        (seen, raw)
    } else {
        let (s, r) = scanned(build, function, reached, outlines, seen, raw, (n - 1) as nat);
        let b = n - 1;
        if !fold::flag(reached.live, b as usize, true) {
            (s, r)
        } else {
            let outline = outlines[b];
            let (noted, with) = with_notes(s, r, outline.notes@, outline.notes@.len());
            let at = At {
                bb: b as usize,
                unwind: spec_unwind_of(build.unwinds, unwinds_to(function.blocks@[b].terminator)),
                loc: outline.loc,
            };
            (noted, with_end(with, build, reached, outline, at))
        }
    }
}

/// Which blocks can unwind out of a body.
pub open spec fn resuming_blocks(function: Function) -> Seq<bool> {
    Seq::new(function.blocks@.len(), |b: int| flow::can_resume(function, b))
}

/// Whether a site is raised by every execution of the body.
///
/// A cleanup block runs only while another panic unwinds, so a site in one is
/// never the whole story of a call.
pub open spec fn is_certain(function: Function, reached: Reached, bb: usize, fires: bool) -> bool {
    fires && bb < function.blocks@.len() && !function.blocks@[bb as int].cleanup
        && flow::spec_unavoidable(function, reached, bb)
}

/// What is collected with the sites every execution raises at marked.
pub open spec fn settled_certain(function: Function, reached: Reached, raw: RawView) -> RawView {
    RawView {
        sites: Seq::new(
            raw.sites.len(),
            |i: int|
                SiteView {
                    certain: is_certain(
                        function,
                        reached,
                        raw.site_blocks[i],
                        raw.site_fires[i],
                    ),
                    ..raw.sites[i]
                },
        ),
        ..raw
    }
}

/// Marks the sites every execution of the body raises at.
///
/// A site is certain when it raises whenever its block runs and no
/// execution gets round the block: no path from the entry reaches a
/// way out of the body without passing through it, and no path can go
/// round in a loop instead, which is as far as a walk that does not
/// prove loops terminate can go.
fn settle_certain(raw: &mut Raw, function: &Function, reach: &Reach)
    requires
        old(raw)@.wf(),
    ensures
        final(raw)@ == settled_certain(*function, reach@, old(raw)@),
        final(raw)@.wf(),
{
    let ghost was = raw@;
    let ghost sites = raw.sites@;
    let n = raw.sites.len();
    let mut kept: Vec<PanicSite> = Vec::new();
    let mut i: usize = 0;
    while i < n
        invariant
            n == sites.len(),
            raw.sites@ == sites,
            raw@ == was,
            was.wf(),
            was.sites == model::site_views(sites),
            i <= n,
            kept@.len() == i,
            forall|k: int|
                0 <= k < i ==> (#[trigger] kept@[k])@ == settled_certain(
                    *function,
                    reach@,
                    was,
                ).sites[k],
        decreases n - i,
    {
        let bb = raw.site_blocks[i];
        let fires = raw.site_fires[i];
        let certain = if fires && bb < function.blocks.len() && !function.blocks[bb].cleanup {
            unavoidable(function, reach, bb)
        } else {
            false
        };
        let mut site = raw.sites[i].clone();
        let ghost said = site@;
        assert(said == was.sites[i as int]);
        site.certain = certain;
        assert(site@ =~= (SiteView { certain, ..said }));
        kept.push(site);
        i += 1;
    }
    raw.sites = kept;
    assert(model::site_views(raw.sites@) =~= settled_certain(*function, reach@, was).sites);
    assert(raw@ =~= settled_certain(*function, reach@, was));
}

/// What is collected from a body, and what is seen from then on.
pub open spec fn spec_scan(
    build: Build,
    function: Function,
    reached: Reached,
    outlines: Seq<Outline>,
    seen: SeenView,
) -> (SeenView, RawView) {
    let (s, raw) = scanned(
        build,
        function,
        reached,
        outlines,
        seen,
        RawView::nothing(resuming_blocks(function)),
        function.blocks@.len(),
    );
    (s, settled_certain(function, reached, raw))
}

/// Reads every terminator of a body into raw entries.
pub fn scan(
    build: Build,
    function: &Function,
    reach: &Reach,
    outlines: &Vec<Outline>,
    seen: &mut Seen,
) -> (r: Raw)
    requires
        outlines@.len() == function.blocks@.len(),
    ensures
        (final(seen)@, r@) == spec_scan(build, *function, reach@, outlines@, old(seen)@),
        r@.wf(),
{
    let ghost was = seen@;
    let mut raw = Raw::new(resuming(function));
    assert(raw@.resuming =~= resuming_blocks(*function));
    let ghost first = raw@;
    let mut b: usize = 0;
    while b < function.blocks.len()
        invariant
            outlines@.len() == function.blocks@.len(),
            b <= function.blocks@.len(),
            raw@.wf(),
            (seen@, raw@) == scanned(
                build,
                *function,
                reach@,
                outlines@,
                was,
                first,
                b as nat,
            ),
        decreases function.blocks@.len() - b,
    {
        if reach.is_live(b) {
            let outline = &outlines[b];
            seen.notes(&mut raw, &outline.notes);
            let at = At {
                bb: b,
                unwind: unwind_of(build.unwinds, leads_to(&function.blocks[b].terminator)),
                loc: copy_loc(&outline.loc),
            };
            proof {
                let same = At { loc: outline.loc, ..at };
                ends_alike(raw@, build, reach@, *outline, at, same);
            }
            push_end(&mut raw, build, reach, outline, &at);
        }
        b += 1;
    }
    settle_certain(&mut raw, function, reach);
    raw
}

/// What is collected depends on a position only by what it says.
proof fn ends_alike(raw: RawView, build: Build, reached: Reached, outline: Outline, a: At, b: At)
    requires
        a.bb == b.bb,
        a.unwind == b.unwind,
        model::loc_view(a.loc) == model::loc_view(b.loc),
    ensures
        with_end(raw, build, reached, outline, a) == with_end(raw, build, reached, outline, b),
{
    match outline.end {
        End::Call(Callee::Found(target)) => {
            match sink_of(target) {
                Some(sink) => {
                    raises_alike(raw, a, b, target, sink.spec_raises(), sink.spec_raises().len());
                },
                None => match target.runs {
                    Runs::Virtual(impls) => {
                        let first = raw.with_plain_edge(
                            a,
                            model::key_view(target.named.key),
                            target.named.display@,
                            EdgeKind::Vtable,
                            false,
                        );
                        candidates_alike(first, a, b, impls@, false, impls@.len());
                    },
                    _ => {},
                },
            }
        },
        End::Drop(Glue::Object(ty, impls)) => {
            let first = raw.with_plain_edge(
                a,
                None,
                "drop glue for "@ + ty@,
                EdgeKind::Vtable,
                false,
            );
            candidates_alike(first, a, b, impls@, true, impls@.len());
        },
        _ => {},
    }
}

proof fn raises_alike(raw: RawView, a: At, b: At, target: Target, raises: Seq<Raise>, n: nat)
    requires
        a.bb == b.bb,
        a.unwind == b.unwind,
        model::loc_view(a.loc) == model::loc_view(b.loc),
    ensures
        with_raises(raw, a, target, raises, n) == with_raises(raw, b, target, raises, n),
    decreases n,
{
    if n > 0 {
        raises_alike(raw, a, b, target, raises, (n - 1) as nat);
    }
}

proof fn candidates_alike(raw: RawView, a: At, b: At, impls: Seq<Impl>, dropping: bool, n: nat)
    requires
        a.bb == b.bb,
        a.unwind == b.unwind,
        model::loc_view(a.loc) == model::loc_view(b.loc),
    ensures
        with_candidates(raw, a, impls, dropping, n) == with_candidates(raw, b, impls, dropping, n),
    decreases n,
{
    if n > 0 {
        candidates_alike(raw, a, b, impls, dropping, (n - 1) as nat);
    }
}

/// Whether every entry of what is collected stands in a live block and every
/// unwind edge starts from one of the entries.
pub open spec fn stands(raw: RawView, reached: Reached) -> bool {
    &&& raw.wf()
    &&& forall|i: int|
        0 <= i < raw.site_blocks.len() ==> fold::flag(
            reached.live,
            #[trigger] raw.site_blocks[i],
            true,
        )
    &&& forall|i: int|
        0 <= i < raw.call_blocks.len() ==> fold::flag(
            reached.live,
            #[trigger] raw.call_blocks[i],
            true,
        )
    &&& forall|i: int| 0 <= i < raw.unwind_edges.len() ==> starts(raw, #[trigger] raw.unwind_edges[i])
}

/// Whether an unwind edge starts from one of the entries.
pub open spec fn starts(raw: RawView, edge: UnwindEdge) -> bool {
    match edge.origin {
        UnwindOrigin::Site(i) => i == u32::MAX || i < raw.sites.len(),
        UnwindOrigin::Call(i) => i == u32::MAX || i < raw.calls.len(),
    }
}

proof fn site_stands(raw: RawView, reached: Reached, at: At, site: SiteView, fires: bool)
    requires
        stands(raw, reached),
        fold::flag(reached.live, at.bb, true),
    ensures
        stands(raw.with_site(at, site, fires), reached),
{
    let now = raw.with_site(at, site, fires);
    assert forall|i: int| 0 <= i < now.unwind_edges.len() implies starts(
        now,
        #[trigger] now.unwind_edges[i],
    ) by {
        if i < raw.unwind_edges.len() {
            assert(starts(raw, raw.unwind_edges[i]));
        }
    }
}

proof fn call_stands(raw: RawView, reached: Reached, at: At, call: CallView)
    requires
        stands(raw, reached),
        fold::flag(reached.live, at.bb, true),
    ensures
        stands(raw.with_call(at, call), reached),
{
    let now = raw.with_call(at, call);
    assert forall|i: int| 0 <= i < now.unwind_edges.len() implies starts(
        now,
        #[trigger] now.unwind_edges[i],
    ) by {
        if i < raw.unwind_edges.len() {
            assert(starts(raw, raw.unwind_edges[i]));
        }
    }
}

proof fn expanding_stands(raw: RawView, reached: Reached, work: usize)
    requires
        stands(raw, reached),
    ensures
        stands(raw.expanding(work), reached),
{
    let now = raw.expanding(work);
    assert forall|i: int| 0 <= i < now.unwind_edges.len() implies starts(
        now,
        #[trigger] now.unwind_edges[i],
    ) by {
        assert(starts(raw, raw.unwind_edges[i]));
    }
}

proof fn edge_stands(
    raw: RawView,
    reached: Reached,
    at: At,
    callee: Option<Seq<char>>,
    display: Seq<char>,
    kind: EdgeKind,
    barrier: bool,
)
    requires
        stands(raw, reached),
        fold::flag(reached.live, at.bb, true),
    ensures
        stands(raw.with_plain_edge(at, callee, display, kind, barrier), reached),
{
    call_stands(
        raw,
        reached,
        at,
        CallView { barrier, ..edge(callee, display, kind, model::loc_view(at.loc)) },
    );
}

proof fn raises_stand(raw: RawView, reached: Reached, at: At, target: Target, raises: Seq<Raise>, n: nat)
    requires
        stands(raw, reached),
        fold::flag(reached.live, at.bb, true),
    ensures
        stands(with_raises(raw, at, target, raises, n), reached),
    decreases n,
{
    if n > 0 {
        raises_stand(raw, reached, at, target, raises, (n - 1) as nat);
        site_stands(
            with_raises(raw, at, target, raises, (n - 1) as nat),
            reached,
            at,
            raised(
                raises[n - 1],
                reason_for(target),
                Some(target.named.display@),
                model::loc_view(at.loc),
            ),
            true,
        );
    }
}

proof fn candidates_stand(
    raw: RawView,
    reached: Reached,
    at: At,
    impls: Seq<Impl>,
    dropping: bool,
    n: nat,
)
    requires
        stands(raw, reached),
        fold::flag(reached.live, at.bb, true),
    ensures
        stands(with_candidates(raw, at, impls, dropping, n), reached),
    decreases n,
{
    if n > 0 {
        candidates_stand(raw, reached, at, impls, dropping, (n - 1) as nat);
        let before = with_candidates(raw, at, impls, dropping, (n - 1) as nat);
        let one = impls[n - 1];
        match one.target {
            Some(named) => {
                let call = CallView {
                    candidate: true,
                    self_ty: Some(one.self_ty@),
                    ..edge(
                        model::key_view(named.key),
                        candidate_display(one, named, dropping),
                        EdgeKind::Vtable,
                        model::loc_view(at.loc),
                    )
                };
                call_stands(before, reached, at, call);
                expanding_stands(before.with_call(at, call), reached, named.work);
            },
            None => {},
        }
    }
}

proof fn caught_stands(
    raw: RawView,
    reached: Reached,
    at: At,
    operands: Seq<Handed>,
    writes: Seq<Write>,
    index: int,
    barrier: bool,
)
    requires
        stands(raw, reached),
        fold::flag(reached.live, at.bb, true),
    ensures
        stands(with_caught(raw, at, operands, writes, index, barrier), reached),
{
    let named = if index < operands.len() {
        named_by(operands[index], writes)
    } else {
        None
    };
    match named {
        Some(f) => {
            edge_stands(
                raw,
                reached,
                at,
                model::key_view(f.key),
                f.display@,
                EdgeKind::Static,
                barrier,
            );
            expanding_stands(
                raw.with_plain_edge(
                    at,
                    model::key_view(f.key),
                    f.display@,
                    EdgeKind::Static,
                    barrier,
                ),
                reached,
                f.work,
            );
        },
        None => {
            edge_stands(
                raw,
                reached,
                at,
                None,
                "<caught function>"@,
                EdgeKind::Unresolved,
                barrier,
            );
        },
    }
}

proof fn intrinsic_stands(raw: RawView, reached: Reached, at: At, intrinsic: Intrinsic)
    requires
        stands(raw, reached),
        fold::flag(reached.live, at.bb, true),
    ensures
        stands(with_intrinsic(raw, at, intrinsic), reached),
{
    let aborts = |category: Category| Raise { category, termination: Termination::Abort };
    match intrinsic {
        Intrinsic::Catch(operands, writes) => {
            caught_stands(raw, reached, at, operands@, writes@, 0, true);
            caught_stands(
                with_caught(raw, at, operands@, writes@, 0, true),
                reached,
                at,
                operands@,
                writes@,
                2,
                false,
            );
        },
        Intrinsic::Validity(validity) => match validity.ty {
            None => {
                edge_stands(
                    raw,
                    reached,
                    at,
                    None,
                    "<validity of an unknown type>"@,
                    EdgeKind::Unresolved,
                    false,
                );
            },
            Some(ty) => {
                let display = "validity of "@ + ty@;
                edge_stands(raw, reached, at, None, display, EdgeKind::Generic, false);
                edge_stands(raw, reached, at, None, display, EdgeKind::Unresolved, false);
                site_stands(
                    raw,
                    reached,
                    at,
                    raised(
                        aborts(Category::Explicit),
                        "instantiating "@ + ty@
                            + " this way is invalid, so the check aborts"@,
                        None,
                        model::loc_view(at.loc),
                    ),
                    true,
                );
            },
        },
        Intrinsic::Abort(_, _, _) => {
            site_stands(
                raw,
                reached,
                at,
                raised(
                    aborts(Category::RefCountOverflow),
                    "the reference count would overflow"@,
                    Some("core::intrinsics::abort"@),
                    model::loc_view(at.loc),
                ),
                true,
            );
        },
        Intrinsic::Other => {},
    }
}

proof fn callee_stands(raw: RawView, reached: Reached, at: At, callee: Callee)
    requires
        stands(raw, reached),
        fold::flag(reached.live, at.bb, true),
    ensures
        stands(with_callee(raw, at, callee), reached),
{
    match callee {
        Callee::Unsettled => {
            edge_stands(raw, reached, at, None, "<unresolved>"@, EdgeKind::Unresolved, false);
        },
        Callee::Pointer(sig) => {
            call_stands(
                raw,
                reached,
                at,
                CallView {
                    sig: Some(sig@),
                    ..edge(None, "<fn pointer>"@, EdgeKind::FnPtr, model::loc_view(at.loc))
                },
            );
        },
        Callee::Open(display) => {
            edge_stands(raw, reached, at, None, display@, EdgeKind::Generic, false);
        },
        Callee::Lost(display) => {
            edge_stands(raw, reached, at, None, display@, EdgeKind::Unresolved, false);
        },
        Callee::Found(target) => {
            let key = model::key_view(target.named.key);
            let display = target.named.display@;
            match sink_of(target) {
                Some(sink) => {
                    raises_stand(
                        raw,
                        reached,
                        at,
                        target,
                        sink.spec_raises(),
                        sink.spec_raises().len(),
                    );
                },
                None => match target.runs {
                    Runs::Intrinsic(intrinsic) => {
                        intrinsic_stands(raw, reached, at, intrinsic);
                    },
                    Runs::Virtual(impls) => {
                        edge_stands(raw, reached, at, key, display, EdgeKind::Vtable, false);
                        candidates_stand(
                            raw.with_plain_edge(at, key, display, EdgeKind::Vtable, false),
                            reached,
                            at,
                            impls@,
                            false,
                            impls@.len(),
                        );
                    },
                    Runs::Function => {
                        edge_stands(raw, reached, at, key, display, EdgeKind::Static, false);
                        expanding_stands(
                            raw.with_plain_edge(at, key, display, EdgeKind::Static, false),
                            reached,
                            target.named.work,
                        );
                    },
                },
            }
        },
    }
}

proof fn drop_stands(raw: RawView, reached: Reached, at: At, glue: Glue)
    requires
        stands(raw, reached),
        fold::flag(reached.live, at.bb, true),
    ensures
        stands(with_drop(raw, at, glue), reached),
{
    match glue {
        Glue::Unsettled => {
            edge_stands(raw, reached, at, None, "<unresolved drop>"@, EdgeKind::Unresolved, false);
        },
        Glue::Nothing => {},
        Glue::Open(ty) => {
            edge_stands(raw, reached, at, None, "drop glue for "@ + ty@, EdgeKind::Generic, false);
        },
        Glue::Object(ty, impls) => {
            let display = "drop glue for "@ + ty@;
            edge_stands(raw, reached, at, None, display, EdgeKind::Vtable, false);
            candidates_stand(
                raw.with_plain_edge(at, None, display, EdgeKind::Vtable, false),
                reached,
                at,
                impls@,
                true,
                impls@.len(),
            );
        },
        Glue::Own(named) => {
            let key = model::key_view(named.key);
            let display = "drop glue for "@ + named.display@;
            edge_stands(raw, reached, at, key, display, EdgeKind::Drop, false);
            expanding_stands(
                raw.with_plain_edge(at, key, display, EdgeKind::Drop, false),
                reached,
                named.work,
            );
        },
    }
}

proof fn notes_stand(seen: SeenView, raw: RawView, reached: Reached, notes: Seq<Note>, n: nat)
    requires
        stands(raw, reached),
    ensures
        stands(with_notes(seen, raw, notes, n).1, reached),
    decreases n,
{
    if n > 0 {
        notes_stand(seen, raw, reached, notes, (n - 1) as nat);
        let (s, r) = with_notes(seen, raw, notes, (n - 1) as nat);
        match notes[n - 1] {
            Note::Reified(Some(named), Some(_)) => {
                expanding_stands(r, reached, named.work);
            },
            _ => {},
        }
    }
}

proof fn scanned_stands(
    build: Build,
    function: Function,
    reached: Reached,
    outlines: Seq<Outline>,
    seen: SeenView,
    raw: RawView,
    n: nat,
)
    requires
        stands(raw, reached),
    ensures
        stands(scanned(build, function, reached, outlines, seen, raw, n).1, reached),
    decreases n,
{
    if n > 0 {
        scanned_stands(build, function, reached, outlines, seen, raw, (n - 1) as nat);
        let (s, r) = scanned(build, function, reached, outlines, seen, raw, (n - 1) as nat);
        let b = n - 1;
        if fold::flag(reached.live, b as usize, true) {
            let outline = outlines[b];
            notes_stand(s, r, reached, outline.notes@, outline.notes@.len());
            let with = with_notes(s, r, outline.notes@, outline.notes@.len()).1;
            let at = At {
                bb: b as usize,
                unwind: spec_unwind_of(build.unwinds, unwinds_to(function.blocks@[b].terminator)),
                loc: outline.loc,
            };
            match outline.end {
                End::Check(kind) => {
                    let (raise, reason) = spec_classify_assert(kind);
                    site_stands(
                        with,
                        reached,
                        at,
                        raised(raise, reason, None, model::loc_view(at.loc)),
                        fold::flag(reached.failing, at.bb, false),
                    );
                },
                End::Call(callee) => {
                    callee_stands(with, reached, at, callee);
                },
                End::Drop(glue) => {
                    drop_stands(with, reached, at, glue);
                },
                End::Assembly(_) => {
                    site_stands(
                        with,
                        reached,
                        at,
                        raised(
                            assembly_raise(),
                            "runs assembly that may unwind"@,
                            None,
                            model::loc_view(at.loc),
                        ),
                        false,
                    );
                },
                End::Other => {},
            }
        }
    }
}

/// Reading a body records nothing of a block no execution enters, and every
/// unwind edge it records starts from one of the entries it records.
pub proof fn entries_are_live(
    build: Build,
    function: Function,
    reached: Reached,
    outlines: Seq<Outline>,
    seen: SeenView,
)
    ensures
        stands(spec_scan(build, function, reached, outlines, seen).1, reached),
{
    let first = RawView::nothing(resuming_blocks(function));
    scanned_stands(build, function, reached, outlines, seen, first, function.blocks@.len());
    let raw = scanned(
        build,
        function,
        reached,
        outlines,
        seen,
        first,
        function.blocks@.len(),
    ).1;
    let now = settled_certain(function, reached, raw);
    assert forall|i: int| 0 <= i < now.unwind_edges.len() implies starts(
        now,
        #[trigger] now.unwind_edges[i],
    ) by {
        assert(starts(raw, raw.unwind_edges[i]));
    }
}

/// A build that aborts on a panic unwinds nowhere: no entry of a body has a
/// cleanup path, and none of them leaves the function.
pub proof fn an_abort_unwinds_nowhere(unwind: Unwind, raw: RawView)
    ensures
        spec_unwind_of(false, unwind) is Unreachable,
        !raw.leaves(spec_unwind_of(false, unwind)),
        forall|edges: Seq<UnwindEdge>, origin: UnwindOrigin| #[trigger]
            with_edge(edges, origin, spec_unwind_of(false, unwind)) == edges,
{
}

/// Whether a note says that a function was made into a pointer of a signature.
pub open spec fn says_reified(note: Note, key: Seq<char>, sig: Seq<char>) -> bool {
    match note {
        Note::Reified(Some(named), Some(s)) => (named.key matches Some(k) && k@ == key) && s@ == sig,
        _ => false,
    }
}

/// Whether a note says that a pointer at a type of a name was first made into
/// one at a trait object.
pub open spec fn says_coerced(note: Note, name: Seq<char>) -> bool {
    match note {
        Note::Unsized(object, before, source) => object && !before && (pointed_at(
            source,
        ) matches Some(pointee) && pointee.name@ == name),
        _ => false,
    }
}

/// What was seen of some notes is what they say: each function that one of
/// them makes into a pointer is recorded, each type that one makes into a
/// trait object, and nothing else is added.
pub proof fn what_is_noted_is_seen(
    seen: SeenView,
    raw: RawView,
    notes: Seq<Note>,
    n: nat,
    key: Seq<char>,
    sig: Seq<char>,
    name: Seq<char>,
)
    requires
        n <= notes.len(),
        names_in_order(seen.coerced),
    ensures
        ({
            let after = with_notes(seen, raw, notes, n).0;
            &&& names_in_order(after.coerced)
            &&& is_reified(after.reified, key, sig) <==> is_reified(seen.reified, key, sig)
                || exists|i: int| 0 <= i < n && says_reified(#[trigger] notes[i], key, sig)
            &&& after.coerced.contains(name) <==> seen.coerced.contains(name) || exists|i: int|
                0 <= i < n && says_coerced(#[trigger] notes[i], name)
        }),
    decreases n,
{
    if n > 0 {
        what_is_noted_is_seen(seen, raw, notes, (n - 1) as nat, key, sig, name);
        let (before, part) = with_notes(seen, raw, notes, (n - 1) as nat);
        let note = notes[n - 1];
        let (after, _) = with_note(before, part, note);
        match note {
            Note::Reified(Some(named), Some(s)) => {
                if let Some(k) = named.key {
                    if !is_reified(before.reified, k@, s@) {
                        let one = ReifiedView { key: k@, display: named.display@, sig: s@ };
                        assert(after.reified == before.reified.push(one));
                        if is_reified(before.reified, key, sig) {
                            let i = choose|i: int|
                                0 <= i < before.reified.len() && (#[trigger] before.reified[i]).key
                                    == key && before.reified[i].sig == sig;
                            assert(after.reified[i] == before.reified[i]);
                        }
                        if is_reified(after.reified, key, sig) {
                            let i = choose|i: int|
                                0 <= i < after.reified.len() && (#[trigger] after.reified[i]).key
                                    == key && after.reified[i].sig == sig;
                            if i < before.reified.len() {
                                assert(before.reified[i] == after.reified[i]);
                            } else {
                                assert(says_reified(notes[n - 1], key, sig));
                            }
                        }
                        if says_reified(note, key, sig) {
                            assert(after.reified[before.reified.len() as int] == one);
                        }
                    }
                }
            },
            Note::Unsized(object, was, source) => {
                if let Some(pointee) = pointed_at(source) {
                    names_stay_in_order(before.coerced, pointee.name@);
                }
            },
            _ => {},
        }
        assert(says_reified(notes[n - 1], key, sig) ==> exists|i: int|
            0 <= i < n && says_reified(#[trigger] notes[i], key, sig));
        assert(says_coerced(notes[n - 1], name) ==> exists|i: int|
            0 <= i < n && says_coerced(#[trigger] notes[i], name));
        if exists|i: int| 0 <= i < n && says_reified(#[trigger] notes[i], key, sig) {
            let i = choose|i: int| 0 <= i < n && says_reified(#[trigger] notes[i], key, sig);
            assert(i < n - 1 || says_reified(note, key, sig));
        }
        if exists|i: int| 0 <= i < n && says_coerced(#[trigger] notes[i], name) {
            let i = choose|i: int| 0 <= i < n && says_coerced(#[trigger] notes[i], name);
            assert(i < n - 1 || says_coerced(note, name));
        }
    }
}

/// What points at a type, plainly, in a box or through one wrapper of either,
/// is read as pointing at it, and what does not point is not.
pub proof fn pointers_are_seen_through(shape: Shape, inner: Shape)
    ensures
        shape.points is Not ==> pointed_at(shape) is None,
        shape.inner is None ==> pointed_at(shape) is None,
        shape.inner == Some(Box::new(inner)) && (shape.points is Plainly || shape.points is Boxed)
            ==> pointed_at(shape) == Some(inner),
        shape.inner == Some(Box::new(inner)) && shape.points is Wrapped ==> pointed_at(shape)
            == if inner.points is Plainly || inner.points is Boxed {
            pointed_at(inner)
        } else {
            Some(inner)
        },
{
}

proof fn first_write(writes: Seq<Write>, local: usize, from: nat)
    requires
        from <= writes.len(),
    ensures
        from <= next_write(writes, local, from) <= writes.len(),
        forall|i: int|
            from <= i < next_write(writes, local, from) ==> (#[trigger] writes[i]).local != local,
        next_write(writes, local, from) < writes.len() ==> writes[next_write(
            writes,
            local,
            from,
        ) as int].local == local,
    decreases writes.len() - from,
{
    if from < writes.len() && writes[from as int].local != local {
        first_write(writes, local, from + 1);
    }
}

/// The function a local names is the one that its only write puts there: a
/// local that is written twice, or never, names none.
pub proof fn a_local_names_what_was_written(writes: Seq<Write>, local: usize, named: Named)
    ensures
        named_by(Handed::Local(local), writes) == Some(named) <==> exists|i: int|
            0 <= i < writes.len() && (#[trigger] writes[i]).local == local && writes[i].names
                == Some(named) && forall|j: int|
                0 <= j < writes.len() && (#[trigger] writes[j]).local == local ==> j == i,
{
    let first = next_write(writes, local, 0);
    first_write(writes, local, 0);
    if first < writes.len() {
        let second = next_write(writes, local, first + 1);
        first_write(writes, local, first + 1);
        if named_by(Handed::Local(local), writes) == Some(named) {
            assert(writes[first as int].local == local);
            assert forall|j: int|
                0 <= j < writes.len() && (#[trigger] writes[j]).local == local implies j
                == first by {
                if j < first {
                } else if j > first {
                    assert(j < second);
                }
            }
        }
        if exists|i: int|
            0 <= i < writes.len() && (#[trigger] writes[i]).local == local && writes[i].names
                == Some(named) && forall|j: int|
                0 <= j < writes.len() && (#[trigger] writes[j]).local == local ==> j == i {
            let i = choose|i: int|
                0 <= i < writes.len() && (#[trigger] writes[i]).local == local && writes[i].names
                    == Some(named) && forall|j: int|
                    0 <= j < writes.len() && (#[trigger] writes[j]).local == local ==> j == i;
            assert(writes[first as int].local == local);
            if second < writes.len() {
                assert(writes[second as int].local == local);
            }
        }
    }
}

/// A message is reported as it begins, all of it unless it is long.
pub proof fn a_message_is_reported_as_it_begins(message: Seq<char>)
    ensures
        message.len() <= 72 ==> clipped(message) == message,
        message.len() > 72 ==> clipped(message).len() == 75 && forall|i: int|
            0 <= i < 72 ==> #[trigger] clipped(message)[i] == message[i],
{
    reveal_strlit("...");
}

/// A site that every execution raises at is one that is not raised at only
/// while another panic unwinds, that fires whenever its block runs, and whose
/// block is on every way through the body that leaves it without a panic.
pub proof fn a_certain_site_is_on_every_way_out(
    function: Function,
    reached: Reached,
    raw: RawView,
    i: int,
    path: Seq<int>,
)
    requires
        0 <= i < raw.sites.len(),
        settled_certain(function, reached, raw).sites[i].certain,
        flow::is_path(function, path),
        path[0] == 0,
        forall|j: int|
            0 < j < path.len() ==> fold::flag(reached.live, #[trigger] path[j] as usize, true),
        match function.blocks@[path.last()].terminator {
            Some(term) => term is Return || term is TailCall || term is Yield,
            None => false,
        },
    ensures
        raw.site_fires[i],
        !function.blocks@[raw.site_blocks[i] as int].cleanup,
        path.contains(raw.site_blocks[i] as int),
{
    flow::what_is_unavoidable_is_on_every_way_out(function, reached, raw.site_blocks[i], path);
    let j = choose|j: int| 0 < j < path.len() && #[trigger] path[j] == raw.site_blocks[i];
    assert(path[j] == raw.site_blocks[i] as int);
}

/// An abort is a count that overflows only in the reference counting modules
/// of the allocation crate, where it is written there or inlined from there.
pub proof fn only_reference_counts_overflow(
    defined: Definition,
    scope: usize,
    scopes: Seq<Enclosing>,
    steps: nat,
)
    requires
        counts_references(defined) || inlined_there(scopes, scope, steps),
    ensures
        ({
            ||| defined.krate@ == "alloc"@
            ||| exists|i: int|
                0 <= i < scopes.len() && ((#[trigger] scopes[i]).inlined matches Some(from)
                    && from.krate@ == "alloc"@)
        }),
    decreases steps,
{
    if !counts_references(defined) && steps > 0 && scope < scopes.len() {
        let held = scopes[scope as int];
        if held.inlined is Some && counts_references(held.inlined->Some_0) {
            assert(scopes[scope as int].inlined is Some);
        } else if held.parent is Some {
            only_reference_counts_overflow(
                defined,
                held.parent->Some_0,
                scopes,
                (steps - 1) as nat,
            );
        }
    }
}

/// Whether the end of a block is one that its terminator can have.
pub open spec fn outlines_end(block: mir::Block, end: End) -> bool {
    match end {
        End::Check(_) => block.terminator matches Some(term) && term is Assert,
        End::Call(_) => block.terminator matches Some(term) && (term is Call || term is TailCall),
        End::Drop(_) => block.terminator matches Some(term) && term is Drop,
        End::Assembly(_) => block.terminator matches Some(term) && term is Assembly,
        End::Other => true,
    }
}

proof fn noting_records_no_entry(seen: SeenView, raw: RawView, notes: Seq<Note>, n: nat)
    requires
        n <= notes.len(),
    ensures
        with_notes(seen, raw, notes, n).1.sites == raw.sites,
        with_notes(seen, raw, notes, n).1.calls == raw.calls,
    decreases n,
{
    if n > 0 {
        noting_records_no_entry(seen, raw, notes, (n - 1) as nat);
    }
}

proof fn silence_is_scanned(
    build: Build,
    function: Function,
    reached: Reached,
    outlines: Seq<Outline>,
    seen: SeenView,
    raw: RawView,
    n: nat,
)
    requires
        n <= function.blocks@.len(),
        function.blocks@.len() <= usize::MAX,
        fold::spec_silent(function, reached),
        forall|b: int|
            0 <= b < function.blocks@.len() ==> outlines_end(
                #[trigger] function.blocks@[b],
                outlines[b].end,
            ),
    ensures
        scanned(build, function, reached, outlines, seen, raw, n).1.sites == raw.sites,
        scanned(build, function, reached, outlines, seen, raw, n).1.calls == raw.calls,
    decreases n,
{
    if n > 0 {
        silence_is_scanned(build, function, reached, outlines, seen, raw, (n - 1) as nat);
        let (s, r) = scanned(build, function, reached, outlines, seen, raw, (n - 1) as nat);
        let b = n - 1;
        let notes = outlines[b].notes@;
        noting_records_no_entry(s, r, notes, notes.len());
        assert(outlines_end(function.blocks@[b], outlines[b].end));
        if fold::flag(reached.live, b as usize, true) {
            assert(fold::ends_silently(
                function.blocks@[b],
                fold::flag(reached.settled, b as usize, false),
            ));
        }
    }
}

/// A body that is found to raise nothing has nothing to record: no site and no
/// call is collected from it.
pub proof fn a_silent_body_records_nothing(
    build: Build,
    function: Function,
    reached: Reached,
    outlines: Seq<Outline>,
    seen: SeenView,
)
    requires
        function.blocks@.len() <= usize::MAX,
        fold::spec_silent(function, reached),
        forall|b: int|
            0 <= b < function.blocks@.len() ==> outlines_end(
                #[trigger] function.blocks@[b],
                outlines[b].end,
            ),
    ensures
        spec_scan(build, function, reached, outlines, seen).1.sites.len() == 0,
        spec_scan(build, function, reached, outlines, seen).1.calls.len() == 0,
{
    silence_is_scanned(
        build,
        function,
        reached,
        outlines,
        seen,
        RawView::nothing(resuming_blocks(function)),
        function.blocks@.len(),
    );
}

} // verus!
