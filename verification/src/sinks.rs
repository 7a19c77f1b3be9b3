//! Classification of the functions that actually raise panics.
//!
//! Panic entry points are matched by the crate they are from and the
//! unrendered path there. Matching the rendered path string is not reliable:
//! `core::option::unwrap_failed` prints as `std::option::unwrap_failed` once
//! `std` is in the crate graph.

use vstd::prelude::*;

use crate::category::{Category, Termination};
use crate::table;
use crate::table::Links;
use crate::text;

verus! {

/// One panic an entry point raises.
#[derive(Debug, Clone, Copy, PartialEq, Eq, Structural)]
pub struct Raise {
    pub category: Category,
    pub termination: Termination,
}

/// A panic entry point and what reaching it raises.
///
/// Most entry points raise exactly one panic. A funnel raises one of two,
/// decided at run time, and both are recorded so that suppressing one
/// cannot silently clear the other.
#[derive(Debug, Clone, Copy, PartialEq, Eq, Structural)]
pub struct Sink {
    pub first: Raise,
    pub second: Option<Raise>,
}

impl Sink {
    /// Every panic reaching this entry point can raise.
    pub open spec fn spec_raises(self) -> Seq<Raise> {
        match self.second {
            Some(other) => seq![self.first, other],
            None => seq![self.first],
        }
    }

    /// Every panic reaching this entry point can raise.
    pub fn raises(self) -> (r: Vec<Raise>)
        ensures
            r@ == self.spec_raises(),
    {
        let mut out: Vec<Raise> = Vec::new();
        out.push(self.first);
        if let Some(other) = self.second {
            out.push(other);
        }
        assert(out@ =~= self.spec_raises());
        out
    }
}

/// An entry point that raises one panic, which unwinds.
pub open spec fn spec_unwind(category: Category) -> Sink {
    Sink { first: Raise { category, termination: Termination::Unwind }, second: None }
}

fn unwind(category: Category) -> (r: Sink)
    ensures
        r == spec_unwind(category),
{
    Sink { first: Raise { category, termination: Termination::Unwind }, second: None }
}

/// An entry point that raises one panic, which aborts.
pub open spec fn spec_abort(category: Category) -> Sink {
    Sink { first: Raise { category, termination: Termination::Abort }, second: None }
}

fn abort(category: Category) -> (r: Sink)
    ensures
        r == spec_abort(category),
{
    Sink { first: Raise { category, termination: Termination::Abort }, second: None }
}

/// An entry point that raises either of two panics, decided at run time: the
/// first unwinds and the second aborts.
pub open spec fn spec_funnel(first: Category, second: Category) -> Sink {
    Sink { second: Some(spec_abort(second).first), ..spec_unwind(first) }
}

fn funnel(first: Category, second: Category) -> (r: Sink)
    ensures
        r == spec_funnel(first, second),
{
    Sink { second: Some(abort(second).first), ..unwind(first) }
}

/// The entry points identified by crate name and path.
///
/// Names drift between compiler releases, so several historical spellings are
/// listed. An entry that no longer exists simply never matches. The single
/// funnel behind every infallible reserve or grow raises a capacity overflow
/// or hands the layout to the allocation error handler, and which one is
/// decided at run time, so it stands for both. Raising a caught payload again
/// is a panic in its own right; what the payload was is decided at run time,
/// so the raise is the fact to report, not a body to see through.
pub open spec fn spec_exact(krate: Seq<char>, path: Seq<char>) -> Option<Sink> {
    if krate == "core"@ && (
        path == "panicking::panic"@
        || path == "panicking::panic_fmt"@
        || path == "panicking::panic_str"@
        || path == "panicking::panic_explicit"@
        || path == "panicking::panic_display"@
        || path == "panicking::assert_failed_inner"@
    ) {
        Some(spec_unwind(Category::Explicit))
    } else if krate == "core"@ && (
        path == "panicking::panic_nounwind"@
        || path == "panicking::panic_nounwind_fmt"@
        || path == "panicking::panic_cannot_unwind"@
    ) {
        Some(spec_abort(Category::Explicit))
    } else if krate == "core"@ && (
        path == "panicking::panic_bounds_check"@
        || path == "slice::index::slice_index_fail"@
        || path == "slice::index::slice_start_index_len_fail"@
        || path == "slice::index::slice_end_index_len_fail"@
        || path == "slice::index::slice_index_order_fail"@
    ) {
        Some(spec_unwind(Category::Index))
    } else if krate == "core"@ && (
        path == "option::unwrap_failed"@
        || path == "option::expect_failed"@
        || path == "result::unwrap_failed"@
    ) {
        Some(spec_unwind(Category::Unwrap))
    } else if krate == "core"@ && (
        path == "str::slice_error_fail"@
    ) {
        Some(spec_unwind(Category::StrBoundary))
    } else if krate == "core"@ && (
        path == "cell::panic_already_borrowed"@
        || path == "cell::panic_already_mutably_borrowed"@
    ) {
        Some(spec_unwind(Category::Borrow))
    } else if krate == "alloc"@ && (
        path == "raw_vec::capacity_overflow"@
    ) {
        Some(spec_unwind(Category::CapacityOverflow))
    } else if krate == "alloc"@ && (
        path == "raw_vec::handle_error"@
        || path == "raw_vec::handle_reserve"@
    ) {
        Some(spec_funnel(Category::CapacityOverflow, Category::AllocFailure))
    } else if (krate == "alloc"@ && (
        path == "alloc::handle_alloc_error"@
    )) || (krate == "std"@ && (
        path == "alloc::handle_alloc_error"@
    )) {
        Some(spec_abort(Category::AllocFailure))
    } else if krate == "std"@ && (
        path == "panic::resume_unwind"@
        || path == "panicking::resume_unwind"@
        || path == "panicking::rust_panic_without_hook"@
        || path == "panicking::begin_panic"@
        || path == "rt::begin_panic"@
    ) {
        Some(spec_unwind(Category::Explicit))
    } else {
        None
    }
}

fn exact(krate: &str, path: &str) -> (r: Option<Sink>)
    ensures
        r == spec_exact(krate@, path@),
{
    if text::same(krate, "core") && (
        text::same(path, "panicking::panic")
        || text::same(path, "panicking::panic_fmt")
        || text::same(path, "panicking::panic_str")
        || text::same(path, "panicking::panic_explicit")
        || text::same(path, "panicking::panic_display")
        || text::same(path, "panicking::assert_failed_inner")
    ) {
        Some(unwind(Category::Explicit))
    } else if text::same(krate, "core") && (
        text::same(path, "panicking::panic_nounwind")
        || text::same(path, "panicking::panic_nounwind_fmt")
        || text::same(path, "panicking::panic_cannot_unwind")
    ) {
        Some(abort(Category::Explicit))
    } else if text::same(krate, "core") && (
        text::same(path, "panicking::panic_bounds_check")
        || text::same(path, "slice::index::slice_index_fail")
        || text::same(path, "slice::index::slice_start_index_len_fail")
        || text::same(path, "slice::index::slice_end_index_len_fail")
        || text::same(path, "slice::index::slice_index_order_fail")
    ) {
        Some(unwind(Category::Index))
    } else if text::same(krate, "core") && (
        text::same(path, "option::unwrap_failed")
        || text::same(path, "option::expect_failed")
        || text::same(path, "result::unwrap_failed")
    ) {
        Some(unwind(Category::Unwrap))
    } else if text::same(krate, "core") && (
        text::same(path, "str::slice_error_fail")
    ) {
        Some(unwind(Category::StrBoundary))
    } else if text::same(krate, "core") && (
        text::same(path, "cell::panic_already_borrowed")
        || text::same(path, "cell::panic_already_mutably_borrowed")
    ) {
        Some(unwind(Category::Borrow))
    } else if text::same(krate, "alloc") && (
        text::same(path, "raw_vec::capacity_overflow")
    ) {
        Some(unwind(Category::CapacityOverflow))
    } else if text::same(krate, "alloc") && (
        text::same(path, "raw_vec::handle_error")
        || text::same(path, "raw_vec::handle_reserve")
    ) {
        Some(funnel(Category::CapacityOverflow, Category::AllocFailure))
    } else if (text::same(krate, "alloc") && (
        text::same(path, "alloc::handle_alloc_error")
    )) || (text::same(krate, "std") && (
        text::same(path, "alloc::handle_alloc_error")
    )) {
        Some(abort(Category::AllocFailure))
    } else if text::same(krate, "std") && (
        text::same(path, "panic::resume_unwind")
        || text::same(path, "panicking::resume_unwind")
        || text::same(path, "panicking::rust_panic_without_hook")
        || text::same(path, "panicking::begin_panic")
        || text::same(path, "rt::begin_panic")
    ) {
        Some(unwind(Category::Explicit))
    } else {
        None
    }
}

/// The sink a conventional name stands for.
pub open spec fn spec_by_leaf_name(leaf: Seq<char>) -> Option<Sink> {
    if leaf == "capacity_overflow"@ {
        Some(spec_unwind(Category::CapacityOverflow))
    } else if leaf == "precondition_check"@ {
        Some(spec_abort(Category::UbCheck))
    } else if leaf == "handle_alloc_error"@ || leaf == "alloc_err"@ || leaf == "oom"@ {
        Some(spec_abort(Category::AllocFailure))
    } else if leaf == "panic_arc_overflow"@ || leaf == "panic_rc_overflow"@ {
        Some(spec_unwind(Category::RefCountOverflow))
    } else {
        None
    }
}

/// Matches conventional names used by allocation aware containers.
///
/// Third party collections carry their own allocation failure funnels,
/// for example hashbrown's `Fallibility::capacity_overflow`. Suppressing
/// allocation panics has to reach those too, otherwise every crate using
/// a hash map keeps reporting allocation noise. The check the standard
/// library's own macro generates is treated as a sink so that it is reported
/// rather than the generic panic entry point it happens to call.
fn by_leaf_name(leaf: &str) -> (r: Option<Sink>)
    ensures
        r == spec_by_leaf_name(leaf@),
{
    if text::same(leaf, "capacity_overflow") {
        Some(unwind(Category::CapacityOverflow))
    } else if text::same(leaf, "precondition_check") {
        Some(abort(Category::UbCheck))
    } else if text::same(leaf, "handle_alloc_error") || text::same(leaf, "alloc_err") || text::same(
        leaf,
        "oom",
    ) {
        Some(abort(Category::AllocFailure))
    } else if text::same(leaf, "panic_arc_overflow") || text::same(leaf, "panic_rc_overflow") {
        Some(unwind(Category::RefCountOverflow))
    } else {
        None
    }
}

/// Where the last segment of the first `n` characters of a path starts.
pub open spec fn leaf_start(path: Seq<char>, n: nat) -> nat
    decreases n,
{
    if n < 2 {
        0
    } else if path[n - 1] == ':' && path[n - 2] == ':' {
        n
    } else {
        leaf_start(path, (n - 1) as nat)
    }
}

/// The last segment of a path.
pub open spec fn leaf_of(path: Seq<char>) -> Seq<char> {
    path.skip(leaf_start(path, path.len()) as int)
}

fn leaf(path: &str) -> (r: String)
    ensures
        r@ == leaf_of(path@),
{
    let v = text::chars_of(path);
    let mut n: usize = v.len();
    while n >= 2 && !(v[n - 1] == ':' && v[n - 2] == ':')
        invariant
            n <= v@.len(),
            v@ == path@,
            leaf_start(path@, path@.len()) == leaf_start(path@, n as nat),
        decreases n,
    {
        n -= 1;
    }
    if n < 2 {
        n = 0;
    }
    let r = text::text_of(v.as_slice(), n, v.len());
    assert(r@ =~= leaf_of(path@));
    r
}

/// What the compiler says of a function that may be no entry point by name.
#[derive(Debug, Clone, Copy, PartialEq, Eq, Structural)]
pub struct Signature {
    /// Whether it is a function or a method.
    pub callable: bool,
    /// Whether a body can be read.
    pub readable: bool,
    /// Whether it never returns.
    pub diverges: bool,
    /// Whether the compiler guarantees it does not unwind.
    pub never_unwinds: bool,
}

/// The sink a core library function is that cannot return and cannot be read.
pub open spec fn spec_opaque_divergence(krate: Seq<char>, sig: Signature) -> Option<Sink> {
    if (krate == "core"@ || krate == "alloc"@) && sig.callable && !sig.readable && sig.diverges {
        Some(
            if sig.never_unwinds {
                spec_abort(Category::Explicit)
            } else {
                spec_unwind(Category::Explicit)
            },
        )
    } else {
        None
    }
}

/// Classifies a core library function that cannot return and cannot be
/// read.
///
/// The cold helper a container calls to report a failed check is neither
/// generic nor inlinable, so the shipped library keeps no body for it and
/// the analysis would otherwise call the panic inside `copy_from_slice`
/// unclassified. Nothing in `core` or `alloc` diverges except by
/// panicking, so the signature alone settles it. The rule is confined to
/// those two crates because `std` also owns `exit` and `abort`, which
/// diverge without raising anything.
fn opaque_divergence(krate: &str, sig: Signature) -> (r: Option<Sink>)
    ensures
        r == spec_opaque_divergence(krate@, sig),
{
    if !text::same(krate, "core") && !text::same(krate, "alloc") {
        return None;
    }
    if !sig.callable || sig.readable || !sig.diverges {
        return None;
    }
    if sig.never_unwinds {
        Some(abort(Category::Explicit))
    } else {
        Some(unwind(Category::Explicit))
    }
}

/// What a function raises, if it is a panic entry point.
///
/// Anything inside the panic machinery that is not listed still raises a
/// panic.
pub open spec fn spec_classify(krate: Seq<char>, path: Seq<char>, sig: Signature) -> Option<Sink> {
    match spec_exact(krate, path) {
        Some(sink) => Some(sink),
        None => if krate == "core"@ && text::occurs_at(path, "panicking::"@, 0) {
            Some(spec_unwind(Category::Explicit))
        } else {
            match spec_by_leaf_name(leaf_of(path)) {
                Some(sink) => Some(sink),
                None => spec_opaque_divergence(krate, sig),
            }
        },
    }
}

/// Works out whether a function raises a panic, and of what kind.
pub fn classify(krate: &str, path: &str, sig: Signature) -> (r: Option<Sink>)
    ensures
        r == spec_classify(krate@, path@, sig),
{
    if let Some(sink) = exact(krate, path) {
        return Some(sink);
    }
    if text::same(krate, "core") && text::starts_with(path, "panicking::") {
        return Some(unwind(Category::Explicit));
    }
    if let Some(sink) = by_leaf_name(leaf(path).as_str()) {
        return Some(sink);
    }
    opaque_divergence(krate, sig)
}

/// What an unwrap is of that discards an error of a type.
pub open spec fn discarding(krate: Seq<char>, path: Seq<char>) -> Option<Category> {
    if krate == "std"@ && path == "sync::poison::PoisonError"@ {
        Some(Category::Poison)
    } else if krate == "core"@ && path == "fmt::Error"@ {
        Some(Category::Fmt)
    } else {
        None
    }
}

/// A sink, once the error an unwrap discards is known.
pub open spec fn spec_refine_unwrap(sink: Sink, krate: Seq<char>, path: Seq<char>) -> Sink {
    match discarding(krate, path) {
        Some(category) => if sink.first.category is Unwrap {
            Sink { first: Raise { category, ..sink.first }, ..sink }
        } else {
            sink
        },
        None => sink,
    }
}

/// Refines an unwrap by the type of the error it discards.
///
/// Every unwrap goes through one entry point, so the error names the panic: a
/// poisoned lock is its own category, and so is the error a formatting trait
/// implementation returned.
pub fn refine_unwrap(sink: Sink, krate: &str, path: &str) -> (r: Sink)
    ensures
        r == spec_refine_unwrap(sink, krate@, path@),
{
    let category = if text::same(krate, "std") && text::same(path, "sync::poison::PoisonError") {
        Category::Poison
    } else if text::same(krate, "core") && text::same(path, "fmt::Error") {
        Category::Fmt
    } else {
        return sink;
    };
    if sink.first.category == Category::Unwrap {
        Sink { first: Raise { category, ..sink.first }, ..sink }
    } else {
        sink
    }
}

/// The segments of a path that have a name, among the first `n`.
pub open spec fn named(segments: Seq<Option<String>>, n: nat) -> Seq<Seq<char>>
    decreases n,
{
    if n == 0 {
        Seq::empty()
    } else {
        let before = named(segments, (n - 1) as nat);
        match segments[n - 1] {
            Some(name) => before.push(name@),
            None => before,
        }
    }
}

/// Renders a path from its segments, without crate qualification.
pub fn def_path(segments: &Vec<Option<String>>) -> (r: String)
    ensures
        r@ == text::joined(named(segments@, segments@.len()), "::"@),
{
    let mut names: Vec<String> = Vec::new();
    let mut i: usize = 0;
    while i < segments.len()
        invariant
            i <= segments@.len(),
            text::texts(names@) == named(segments@, i as nat),
        decreases segments@.len() - i,
    {
        if let Some(name) = &segments[i] {
            let ghost before = text::texts(names@);
            names.push(name.clone());
            assert(text::texts(names@) =~= before.push(name@));
        }
        i += 1;
    }
    text::join(&names, "::")
}

/// Panic entry points, with the answer kept for each function asked about.
pub struct SinkTable {
    index: Links,
    answers: Vec<Option<Sink>>,
}

impl SinkTable {
    #[verifier::type_invariant]
    spec fn wf(self) -> bool {
        forall|id: u64| #[trigger]
            table::linked(self.index).dom().contains(id) ==> table::linked(self.index)[id]
                < self.answers@.len()
    }

    /// The answers kept, by the number of the function asked about.
    pub closed spec fn kept(&self) -> Map<u64, Option<Sink>> {
        Map::new(
            |id: u64| table::linked(self.index).dom().contains(id),
            |id: u64| self.answers@[table::linked(self.index)[id] as int],
        )
    }

    /// Creates an empty table.
    pub fn new() -> (r: SinkTable)
        ensures
            r.kept().dom() == Set::<u64>::empty(),
    {
        let r = SinkTable { index: Links::new(), answers: Vec::new() };
        assert(r.kept().dom() =~= Set::<u64>::empty());
        r
    }

    /// Classifies a function, returning `None` when it is not a panic entry
    /// point.
    ///
    /// The answer is worked out once for each function, which a number tells
    /// apart from every other, and kept.
    pub fn get(self, id: u64, krate: &str, path: &str, sig: Signature) -> (r: (
        SinkTable,
        Option<Sink>,
    ))
        ensures
            r.1 == (if self.kept().dom().contains(id) {
                self.kept()[id]
            } else {
                spec_classify(krate@, path@, sig)
            }),
            r.0.kept() == self.kept().insert(id, r.1),
    {
        proof {
            use_type_invariant(&self);
        }
        if let Some(at) = self.index.get(id) {
            let hit = self.answers[at];
            assert(self.kept().insert(id, hit) =~= self.kept());
            return (self, hit);
        }
        let ghost was = self.kept();
        let ghost before = self;
        let sink = classify(krate, path, sig);
        let SinkTable { mut index, mut answers } = self;
        let at: usize = answers.len();
        answers.push(sink);
        index.insert(id, at);
        let r = SinkTable { index, answers };
        proof {
            assert forall|k: u64| was.dom().contains(k) && k != id implies #[trigger] r.kept()[k]
                == was[k] by {
                assert(table::linked(before.index).dom().contains(k));
            }
            assert(r.kept() =~= was.insert(id, sink));
        }
        (r, sink)
    }
}

/// Whether a path starts with a module's.
pub open spec fn within(path: Seq<char>, module: Seq<char>) -> bool {
    module.len() <= path.len() && path.take(module.len() as int) == module
}

/// Whether the last segment of a path is one that allocation failures go by.
pub open spec fn allocates(path: Seq<char>) -> bool {
    let leaf = leaf_of(path);
    leaf == "capacity_overflow"@ || leaf == "handle_alloc_error"@ || leaf == "alloc_err"@ || leaf
        == "oom"@
}

/// Whether a classification raises a panic of a category that ends the way
/// given.
pub open spec fn can_raise(sink: Option<Sink>, category: Category, termination: Termination) -> bool {
    match sink {
        Some(sink) => sink.spec_raises().contains(Raise { category, termination }),
        None => false,
    }
}

proof fn crates_differ()
    ensures
        "core"@ != "alloc"@,
        "core"@ != "std"@,
        "alloc"@ != "std"@,
{
    reveal_strlit("core");
    reveal_strlit("alloc");
    reveal_strlit("std");
    assert("core"@[0] == 'c' && "alloc"@[0] == 'a' && "std"@[0] == 's');
}

proof fn raises_one_of(sink: Sink, raise: Raise)
    ensures
        sink.spec_raises().contains(raise) <==> raise == sink.first || sink.second == Some(raise),
{
    let all = sink.spec_raises();
    if raise == sink.first {
        assert(all[0] == raise);
    }
    if sink.second == Some(raise) {
        assert(all[1] == raise);
    }
}

/// An entry point of the core library raises an allocation failure only where
/// its name is one that allocation failures go by, and then only as one, so
/// that assuming allocation failures away hides no other panic of it.
pub proof fn core_does_not_allocate(path: Seq<char>, sig: Signature, c: Category, t: Termination)
    requires
        !allocates(path),
        can_raise(spec_classify("core"@, path, sig), c, t),
    ensures
        !crate::category::allocation().contains(c),
{
    crates_differ();
    raises_one_of(
        spec_classify("core"@, path, sig)->0,
        Raise { category: c, termination: t },
    );
}

/// How a panic ends goes by its kind: a failed allocation and a failed
/// precondition end the process, and so does nothing else that is classified
/// but a panic that may not unwind; every other kind unwinds.
pub proof fn kinds_end_alike(krate: Seq<char>, path: Seq<char>, sig: Signature, c: Category, t: Termination)
    requires
        can_raise(spec_classify(krate, path, sig), c, t),
    ensures
        c is AllocFailure || c is UbCheck ==> t is Abort,
        t is Abort ==> c is AllocFailure || c is UbCheck || c is Explicit,
        c is Index || c is Unwrap || c is StrBoundary || c is Borrow || c is CapacityOverflow || c
            is RefCountOverflow || c is Explicit || c is AllocFailure || c is UbCheck,
{
    raises_one_of(
        spec_classify(krate, path, sig)->0,
        Raise { category: c, termination: t },
    );
}

proof fn core_paths_differ()
    ensures
        "panicking::panic"@ != "panicking::panic_nounwind"@,
        "panicking::panic"@ != "panicking::panic_nounwind_fmt"@,
        "panicking::panic"@ != "panicking::panic_cannot_unwind"@,
        "panicking::panic"@ != "panicking::panic_bounds_check"@,
        "panicking::panic"@ != "slice::index::slice_index_fail"@,
        "panicking::panic"@ != "slice::index::slice_start_index_len_fail"@,
        "panicking::panic"@ != "slice::index::slice_end_index_len_fail"@,
        "panicking::panic"@ != "slice::index::slice_index_order_fail"@,
        "panicking::panic"@ != "option::unwrap_failed"@,
        "panicking::panic"@ != "option::expect_failed"@,
        "panicking::panic"@ != "result::unwrap_failed"@,
        "panicking::panic"@ != "str::slice_error_fail"@,
        "panicking::panic"@ != "cell::panic_already_borrowed"@,
        "panicking::panic"@ != "cell::panic_already_mutably_borrowed"@,
        "panicking::panic_fmt"@ != "panicking::panic_nounwind"@,
        "panicking::panic_fmt"@ != "panicking::panic_nounwind_fmt"@,
        "panicking::panic_fmt"@ != "panicking::panic_cannot_unwind"@,
        "panicking::panic_fmt"@ != "panicking::panic_bounds_check"@,
        "panicking::panic_fmt"@ != "slice::index::slice_index_fail"@,
        "panicking::panic_fmt"@ != "slice::index::slice_start_index_len_fail"@,
        "panicking::panic_fmt"@ != "slice::index::slice_end_index_len_fail"@,
        "panicking::panic_fmt"@ != "slice::index::slice_index_order_fail"@,
        "panicking::panic_fmt"@ != "option::unwrap_failed"@,
        "panicking::panic_fmt"@ != "option::expect_failed"@,
        "panicking::panic_fmt"@ != "result::unwrap_failed"@,
        "panicking::panic_fmt"@ != "str::slice_error_fail"@,
        "panicking::panic_fmt"@ != "cell::panic_already_borrowed"@,
        "panicking::panic_fmt"@ != "cell::panic_already_mutably_borrowed"@,
        "panicking::panic_str"@ != "panicking::panic_nounwind"@,
        "panicking::panic_str"@ != "panicking::panic_nounwind_fmt"@,
        "panicking::panic_str"@ != "panicking::panic_cannot_unwind"@,
        "panicking::panic_str"@ != "panicking::panic_bounds_check"@,
        "panicking::panic_str"@ != "slice::index::slice_index_fail"@,
        "panicking::panic_str"@ != "slice::index::slice_start_index_len_fail"@,
        "panicking::panic_str"@ != "slice::index::slice_end_index_len_fail"@,
        "panicking::panic_str"@ != "slice::index::slice_index_order_fail"@,
        "panicking::panic_str"@ != "option::unwrap_failed"@,
        "panicking::panic_str"@ != "option::expect_failed"@,
        "panicking::panic_str"@ != "result::unwrap_failed"@,
        "panicking::panic_str"@ != "str::slice_error_fail"@,
        "panicking::panic_str"@ != "cell::panic_already_borrowed"@,
        "panicking::panic_str"@ != "cell::panic_already_mutably_borrowed"@,
        "panicking::panic_explicit"@ != "panicking::panic_nounwind"@,
        "panicking::panic_explicit"@ != "panicking::panic_nounwind_fmt"@,
        "panicking::panic_explicit"@ != "panicking::panic_cannot_unwind"@,
        "panicking::panic_explicit"@ != "panicking::panic_bounds_check"@,
        "panicking::panic_explicit"@ != "slice::index::slice_index_fail"@,
        "panicking::panic_explicit"@ != "slice::index::slice_start_index_len_fail"@,
        "panicking::panic_explicit"@ != "slice::index::slice_end_index_len_fail"@,
        "panicking::panic_explicit"@ != "slice::index::slice_index_order_fail"@,
        "panicking::panic_explicit"@ != "option::unwrap_failed"@,
        "panicking::panic_explicit"@ != "option::expect_failed"@,
        "panicking::panic_explicit"@ != "result::unwrap_failed"@,
        "panicking::panic_explicit"@ != "str::slice_error_fail"@,
        "panicking::panic_explicit"@ != "cell::panic_already_borrowed"@,
        "panicking::panic_explicit"@ != "cell::panic_already_mutably_borrowed"@,
        "panicking::panic_display"@ != "panicking::panic_nounwind"@,
        "panicking::panic_display"@ != "panicking::panic_nounwind_fmt"@,
        "panicking::panic_display"@ != "panicking::panic_cannot_unwind"@,
        "panicking::panic_display"@ != "panicking::panic_bounds_check"@,
        "panicking::panic_display"@ != "slice::index::slice_index_fail"@,
        "panicking::panic_display"@ != "slice::index::slice_start_index_len_fail"@,
        "panicking::panic_display"@ != "slice::index::slice_end_index_len_fail"@,
        "panicking::panic_display"@ != "slice::index::slice_index_order_fail"@,
        "panicking::panic_display"@ != "option::unwrap_failed"@,
        "panicking::panic_display"@ != "option::expect_failed"@,
        "panicking::panic_display"@ != "result::unwrap_failed"@,
        "panicking::panic_display"@ != "str::slice_error_fail"@,
        "panicking::panic_display"@ != "cell::panic_already_borrowed"@,
        "panicking::panic_display"@ != "cell::panic_already_mutably_borrowed"@,
        "panicking::assert_failed_inner"@ != "panicking::panic_nounwind"@,
        "panicking::assert_failed_inner"@ != "panicking::panic_nounwind_fmt"@,
        "panicking::assert_failed_inner"@ != "panicking::panic_cannot_unwind"@,
        "panicking::assert_failed_inner"@ != "panicking::panic_bounds_check"@,
        "panicking::assert_failed_inner"@ != "slice::index::slice_index_fail"@,
        "panicking::assert_failed_inner"@ != "slice::index::slice_start_index_len_fail"@,
        "panicking::assert_failed_inner"@ != "slice::index::slice_end_index_len_fail"@,
        "panicking::assert_failed_inner"@ != "slice::index::slice_index_order_fail"@,
        "panicking::assert_failed_inner"@ != "option::unwrap_failed"@,
        "panicking::assert_failed_inner"@ != "option::expect_failed"@,
        "panicking::assert_failed_inner"@ != "result::unwrap_failed"@,
        "panicking::assert_failed_inner"@ != "str::slice_error_fail"@,
        "panicking::assert_failed_inner"@ != "cell::panic_already_borrowed"@,
        "panicking::assert_failed_inner"@ != "cell::panic_already_mutably_borrowed"@,
        "panicking::panic_nounwind"@ != "panicking::panic_bounds_check"@,
        "panicking::panic_nounwind"@ != "slice::index::slice_index_fail"@,
        "panicking::panic_nounwind"@ != "slice::index::slice_start_index_len_fail"@,
        "panicking::panic_nounwind"@ != "slice::index::slice_end_index_len_fail"@,
        "panicking::panic_nounwind"@ != "slice::index::slice_index_order_fail"@,
        "panicking::panic_nounwind"@ != "option::unwrap_failed"@,
        "panicking::panic_nounwind"@ != "option::expect_failed"@,
        "panicking::panic_nounwind"@ != "result::unwrap_failed"@,
        "panicking::panic_nounwind"@ != "str::slice_error_fail"@,
        "panicking::panic_nounwind"@ != "cell::panic_already_borrowed"@,
        "panicking::panic_nounwind"@ != "cell::panic_already_mutably_borrowed"@,
        "panicking::panic_nounwind_fmt"@ != "panicking::panic_bounds_check"@,
        "panicking::panic_nounwind_fmt"@ != "slice::index::slice_index_fail"@,
        "panicking::panic_nounwind_fmt"@ != "slice::index::slice_start_index_len_fail"@,
        "panicking::panic_nounwind_fmt"@ != "slice::index::slice_end_index_len_fail"@,
        "panicking::panic_nounwind_fmt"@ != "slice::index::slice_index_order_fail"@,
        "panicking::panic_nounwind_fmt"@ != "option::unwrap_failed"@,
        "panicking::panic_nounwind_fmt"@ != "option::expect_failed"@,
        "panicking::panic_nounwind_fmt"@ != "result::unwrap_failed"@,
        "panicking::panic_nounwind_fmt"@ != "str::slice_error_fail"@,
        "panicking::panic_nounwind_fmt"@ != "cell::panic_already_borrowed"@,
        "panicking::panic_nounwind_fmt"@ != "cell::panic_already_mutably_borrowed"@,
        "panicking::panic_cannot_unwind"@ != "panicking::panic_bounds_check"@,
        "panicking::panic_cannot_unwind"@ != "slice::index::slice_index_fail"@,
        "panicking::panic_cannot_unwind"@ != "slice::index::slice_start_index_len_fail"@,
        "panicking::panic_cannot_unwind"@ != "slice::index::slice_end_index_len_fail"@,
        "panicking::panic_cannot_unwind"@ != "slice::index::slice_index_order_fail"@,
        "panicking::panic_cannot_unwind"@ != "option::unwrap_failed"@,
        "panicking::panic_cannot_unwind"@ != "option::expect_failed"@,
        "panicking::panic_cannot_unwind"@ != "result::unwrap_failed"@,
        "panicking::panic_cannot_unwind"@ != "str::slice_error_fail"@,
        "panicking::panic_cannot_unwind"@ != "cell::panic_already_borrowed"@,
        "panicking::panic_cannot_unwind"@ != "cell::panic_already_mutably_borrowed"@,
        "panicking::panic_bounds_check"@ != "option::unwrap_failed"@,
        "panicking::panic_bounds_check"@ != "option::expect_failed"@,
        "panicking::panic_bounds_check"@ != "result::unwrap_failed"@,
        "panicking::panic_bounds_check"@ != "str::slice_error_fail"@,
        "panicking::panic_bounds_check"@ != "cell::panic_already_borrowed"@,
        "panicking::panic_bounds_check"@ != "cell::panic_already_mutably_borrowed"@,
        "slice::index::slice_index_fail"@ != "option::unwrap_failed"@,
        "slice::index::slice_index_fail"@ != "option::expect_failed"@,
        "slice::index::slice_index_fail"@ != "result::unwrap_failed"@,
        "slice::index::slice_index_fail"@ != "str::slice_error_fail"@,
        "slice::index::slice_index_fail"@ != "cell::panic_already_borrowed"@,
        "slice::index::slice_index_fail"@ != "cell::panic_already_mutably_borrowed"@,
        "slice::index::slice_start_index_len_fail"@ != "option::unwrap_failed"@,
        "slice::index::slice_start_index_len_fail"@ != "option::expect_failed"@,
        "slice::index::slice_start_index_len_fail"@ != "result::unwrap_failed"@,
        "slice::index::slice_start_index_len_fail"@ != "str::slice_error_fail"@,
        "slice::index::slice_start_index_len_fail"@ != "cell::panic_already_borrowed"@,
        "slice::index::slice_start_index_len_fail"@ != "cell::panic_already_mutably_borrowed"@,
        "slice::index::slice_end_index_len_fail"@ != "option::unwrap_failed"@,
        "slice::index::slice_end_index_len_fail"@ != "option::expect_failed"@,
        "slice::index::slice_end_index_len_fail"@ != "result::unwrap_failed"@,
        "slice::index::slice_end_index_len_fail"@ != "str::slice_error_fail"@,
        "slice::index::slice_end_index_len_fail"@ != "cell::panic_already_borrowed"@,
        "slice::index::slice_end_index_len_fail"@ != "cell::panic_already_mutably_borrowed"@,
        "slice::index::slice_index_order_fail"@ != "option::unwrap_failed"@,
        "slice::index::slice_index_order_fail"@ != "option::expect_failed"@,
        "slice::index::slice_index_order_fail"@ != "result::unwrap_failed"@,
        "slice::index::slice_index_order_fail"@ != "str::slice_error_fail"@,
        "slice::index::slice_index_order_fail"@ != "cell::panic_already_borrowed"@,
        "slice::index::slice_index_order_fail"@ != "cell::panic_already_mutably_borrowed"@,
        "option::unwrap_failed"@ != "str::slice_error_fail"@,
        "option::unwrap_failed"@ != "cell::panic_already_borrowed"@,
        "option::unwrap_failed"@ != "cell::panic_already_mutably_borrowed"@,
        "option::expect_failed"@ != "str::slice_error_fail"@,
        "option::expect_failed"@ != "cell::panic_already_borrowed"@,
        "option::expect_failed"@ != "cell::panic_already_mutably_borrowed"@,
        "result::unwrap_failed"@ != "str::slice_error_fail"@,
        "result::unwrap_failed"@ != "cell::panic_already_borrowed"@,
        "result::unwrap_failed"@ != "cell::panic_already_mutably_borrowed"@,
        "str::slice_error_fail"@ != "cell::panic_already_borrowed"@,
        "str::slice_error_fail"@ != "cell::panic_already_mutably_borrowed"@,
{
    reveal_strlit("panicking::panic");
    assert("panicking::panic"@.len() == 16);
    reveal_strlit("panicking::panic_fmt");
    assert("panicking::panic_fmt"@.len() == 20);
    reveal_strlit("panicking::panic_str");
    assert("panicking::panic_str"@.len() == 20);
    reveal_strlit("panicking::panic_explicit");
    assert("panicking::panic_explicit"@.len() == 25);
    reveal_strlit("panicking::panic_display");
    assert("panicking::panic_display"@.len() == 24);
    reveal_strlit("panicking::assert_failed_inner");
    assert("panicking::assert_failed_inner"@.len() == 30);
    reveal_strlit("panicking::panic_nounwind");
    assert("panicking::panic_nounwind"@.len() == 25);
    reveal_strlit("panicking::panic_nounwind_fmt");
    assert("panicking::panic_nounwind_fmt"@.len() == 29);
    reveal_strlit("panicking::panic_cannot_unwind");
    assert("panicking::panic_cannot_unwind"@.len() == 30);
    reveal_strlit("panicking::panic_bounds_check");
    assert("panicking::panic_bounds_check"@.len() == 29);
    reveal_strlit("slice::index::slice_index_fail");
    assert("slice::index::slice_index_fail"@.len() == 30);
    reveal_strlit("slice::index::slice_start_index_len_fail");
    assert("slice::index::slice_start_index_len_fail"@.len() == 40);
    reveal_strlit("slice::index::slice_end_index_len_fail");
    assert("slice::index::slice_end_index_len_fail"@.len() == 38);
    reveal_strlit("slice::index::slice_index_order_fail");
    assert("slice::index::slice_index_order_fail"@.len() == 36);
    reveal_strlit("option::unwrap_failed");
    assert("option::unwrap_failed"@.len() == 21);
    reveal_strlit("option::expect_failed");
    assert("option::expect_failed"@.len() == 21);
    reveal_strlit("result::unwrap_failed");
    assert("result::unwrap_failed"@.len() == 21);
    reveal_strlit("str::slice_error_fail");
    assert("str::slice_error_fail"@.len() == 21);
    reveal_strlit("cell::panic_already_borrowed");
    assert("cell::panic_already_borrowed"@.len() == 28);
    reveal_strlit("cell::panic_already_mutably_borrowed");
    assert("cell::panic_already_mutably_borrowed"@.len() == 36);
    assert("panicking::panic_explicit"@[17] != "panicking::panic_nounwind"@[17]);
    assert("panicking::assert_failed_inner"@[11] != "panicking::panic_cannot_unwind"@[11]);
    assert("panicking::assert_failed_inner"@[0] != "slice::index::slice_index_fail"@[0]);
    assert("panicking::panic_nounwind_fmt"@[17] != "panicking::panic_bounds_check"@[17]);
    assert("panicking::panic_cannot_unwind"@[0] != "slice::index::slice_index_fail"@[0]);
    assert("slice::index::slice_index_order_fail"@[0] != "cell::panic_already_mutably_borrowed"@[0]);
    assert("option::unwrap_failed"@[0] != "str::slice_error_fail"@[0]);
    assert("option::expect_failed"@[0] != "str::slice_error_fail"@[0]);
    assert("result::unwrap_failed"@[0] != "str::slice_error_fail"@[0]);
}

/// Whether an entry point raises one panic and no other.
pub open spec fn raises_only(
    krate: Seq<char>,
    path: Seq<char>,
    sig: Signature,
    category: Category,
    termination: Termination,
) -> bool {
    match spec_classify(krate, path, sig) {
        Some(sink) => sink.spec_raises() == seq![Raise { category, termination }],
        None => false,
    }
}

/// What each entry point of the core library that is known by its path is for,
/// whatever its signature: a failed index, a failed unwrap, a string cut inside
/// a character and a second borrow are each told as themselves.
pub proof fn core_entry_points_are_told_apart(sig: Signature)
    ensures
        raises_only("core"@, "panicking::panic"@, sig, Category::Explicit, Termination::Unwind),
        raises_only("core"@, "panicking::panic_fmt"@, sig, Category::Explicit, Termination::Unwind),
        raises_only("core"@, "panicking::panic_str"@, sig, Category::Explicit, Termination::Unwind),
        raises_only("core"@, "panicking::panic_explicit"@, sig, Category::Explicit, Termination::Unwind),
        raises_only("core"@, "panicking::panic_display"@, sig, Category::Explicit, Termination::Unwind),
        raises_only("core"@, "panicking::assert_failed_inner"@, sig, Category::Explicit, Termination::Unwind),
        raises_only("core"@, "panicking::panic_nounwind"@, sig, Category::Explicit, Termination::Abort),
        raises_only("core"@, "panicking::panic_nounwind_fmt"@, sig, Category::Explicit, Termination::Abort),
        raises_only("core"@, "panicking::panic_cannot_unwind"@, sig, Category::Explicit, Termination::Abort),
        raises_only("core"@, "panicking::panic_bounds_check"@, sig, Category::Index, Termination::Unwind),
        raises_only("core"@, "slice::index::slice_index_fail"@, sig, Category::Index, Termination::Unwind),
        raises_only("core"@, "slice::index::slice_start_index_len_fail"@, sig, Category::Index, Termination::Unwind),
        raises_only("core"@, "slice::index::slice_end_index_len_fail"@, sig, Category::Index, Termination::Unwind),
        raises_only("core"@, "slice::index::slice_index_order_fail"@, sig, Category::Index, Termination::Unwind),
        raises_only("core"@, "option::unwrap_failed"@, sig, Category::Unwrap, Termination::Unwind),
        raises_only("core"@, "option::expect_failed"@, sig, Category::Unwrap, Termination::Unwind),
        raises_only("core"@, "result::unwrap_failed"@, sig, Category::Unwrap, Termination::Unwind),
        raises_only("core"@, "str::slice_error_fail"@, sig, Category::StrBoundary, Termination::Unwind),
        raises_only("core"@, "cell::panic_already_borrowed"@, sig, Category::Borrow, Termination::Unwind),
        raises_only("core"@, "cell::panic_already_mutably_borrowed"@, sig, Category::Borrow, Termination::Unwind),
{
    core_paths_differ();
    crates_differ();
}

/// A path that another starts with differs from one that starts otherwise.
proof fn modules_differ(path: Seq<char>)
    requires
        within(path, "panicking::"@),
    ensures
        path != "slice::index::slice_index_fail"@,
        path != "slice::index::slice_start_index_len_fail"@,
        path != "slice::index::slice_end_index_len_fail"@,
        path != "slice::index::slice_index_order_fail"@,
        path != "option::unwrap_failed"@,
        path != "option::expect_failed"@,
        path != "result::unwrap_failed"@,
        path != "str::slice_error_fail"@,
        path != "cell::panic_already_borrowed"@,
        path != "cell::panic_already_mutably_borrowed"@,
        text::occurs_at(path, "panicking::"@, 0),
{
    reveal_strlit("panicking::");
    assert(path.take("panicking::"@.len() as int)[0] == path[0]);
    assert(path[0] == 'p');
    reveal_strlit("slice::index::slice_index_fail");
    assert("slice::index::slice_index_fail"@[0] == 's');
    reveal_strlit("slice::index::slice_start_index_len_fail");
    assert("slice::index::slice_start_index_len_fail"@[0] == 's');
    reveal_strlit("slice::index::slice_end_index_len_fail");
    assert("slice::index::slice_end_index_len_fail"@[0] == 's');
    reveal_strlit("slice::index::slice_index_order_fail");
    assert("slice::index::slice_index_order_fail"@[0] == 's');
    reveal_strlit("option::unwrap_failed");
    assert("option::unwrap_failed"@[0] == 'o');
    reveal_strlit("option::expect_failed");
    assert("option::expect_failed"@[0] == 'o');
    reveal_strlit("result::unwrap_failed");
    assert("result::unwrap_failed"@[0] == 'r');
    reveal_strlit("str::slice_error_fail");
    assert("str::slice_error_fail"@[0] == 's');
    reveal_strlit("cell::panic_already_borrowed");
    assert("cell::panic_already_borrowed"@[0] == 'c');
    reveal_strlit("cell::panic_already_mutably_borrowed");
    assert("cell::panic_already_mutably_borrowed"@[0] == 'c');
    assert(path.subrange(0, "panicking::"@.len() as int) =~= path.take(
        "panicking::"@.len() as int,
    ));
}

/// The panic machinery always raises: whatever stands in `core::panicking` is
/// an entry point, and none of it passes for an allocation failure.
pub proof fn the_machinery_raises(path: Seq<char>, sig: Signature)
    requires
        within(path, "panicking::"@),
    ensures
        spec_classify("core"@, path, sig) is Some,
        forall|c: Category, t: Termination| #[trigger]
            can_raise(spec_classify("core"@, path, sig), c, t) ==> c is Explicit || c is Index && path
                == "panicking::panic_bounds_check"@,
{
    crates_differ();
    modules_differ(path);
    assert forall|c: Category, t: Termination| #[trigger]
        can_raise(spec_classify("core"@, path, sig), c, t) implies c is Explicit || c is Index && path
        == "panicking::panic_bounds_check"@ by {
        raises_one_of(
            spec_classify("core"@, path, sig)->0,
            Raise { category: c, termination: t },
        );
    }
}

/// The funnels of the allocating library stand for both ways an allocation
/// fails, so that assuming one away does not clear the other, and each of its
/// other entry points for the one it is named after.
pub proof fn allocation_failures_are_told_apart(sig: Signature)
    ensures
        raises_only(
            "alloc"@,
            "raw_vec::capacity_overflow"@,
            sig,
            Category::CapacityOverflow,
            Termination::Unwind,
        ),
        raises_only(
            "alloc"@,
            "alloc::handle_alloc_error"@,
            sig,
            Category::AllocFailure,
            Termination::Abort,
        ),
        raises_only(
            "std"@,
            "alloc::handle_alloc_error"@,
            sig,
            Category::AllocFailure,
            Termination::Abort,
        ),
        forall|path: Seq<char>|
            path == "raw_vec::handle_error"@ || path == "raw_vec::handle_reserve"@ ==> {
                &&& #[trigger] can_raise(
                    spec_classify("alloc"@, path, sig),
                    Category::CapacityOverflow,
                    Termination::Unwind,
                )
                &&& can_raise(
                    spec_classify("alloc"@, path, sig),
                    Category::AllocFailure,
                    Termination::Abort,
                )
            },
{
    crates_differ();
    reveal_strlit("raw_vec::capacity_overflow");
    reveal_strlit("raw_vec::handle_error");
    reveal_strlit("raw_vec::handle_reserve");
    reveal_strlit("alloc::handle_alloc_error");
    assert("raw_vec::capacity_overflow"@.len() == 26);
    assert("raw_vec::handle_error"@.len() == 21);
    assert("raw_vec::handle_reserve"@.len() == 23);
    assert("alloc::handle_alloc_error"@.len() == 25);
    assert forall|path: Seq<char>|
        path == "raw_vec::handle_error"@ || path == "raw_vec::handle_reserve"@ implies {
        &&& #[trigger] can_raise(
            spec_classify("alloc"@, path, sig),
            Category::CapacityOverflow,
            Termination::Unwind,
        )
        &&& can_raise(
            spec_classify("alloc"@, path, sig),
            Category::AllocFailure,
            Termination::Abort,
        )
    } by {
        let sink = spec_classify("alloc"@, path, sig)->0;
        raises_one_of(
            sink,
            Raise { category: Category::CapacityOverflow, termination: Termination::Unwind },
        );
        raises_one_of(
            sink,
            Raise { category: Category::AllocFailure, termination: Termination::Abort },
        );
    }
}

/// A function of another crate is an entry point only by the name it goes by:
/// what it looks like and where it stands do not matter, and no name makes it
/// raise anything but what containers and counters fail with.
pub proof fn other_crates_raise_by_name(
    krate: Seq<char>,
    path: Seq<char>,
    a: Signature,
    b: Signature,
)
    requires
        krate != "core"@,
        krate != "alloc"@,
        krate != "std"@,
    ensures
        spec_classify(krate, path, a) == spec_classify(krate, path, b),
        spec_classify(krate, path, a) is Some <==> allocates(path) || leaf_of(path)
            == "precondition_check"@ || leaf_of(path) == "panic_arc_overflow"@ || leaf_of(path)
            == "panic_rc_overflow"@,
        leaf_of(path) == "capacity_overflow"@ ==> raises_only(
            krate,
            path,
            a,
            Category::CapacityOverflow,
            Termination::Unwind,
        ),
        leaf_of(path) == "handle_alloc_error"@ || leaf_of(path) == "alloc_err"@ || leaf_of(path)
            == "oom"@ ==> raises_only(krate, path, a, Category::AllocFailure, Termination::Abort),
        leaf_of(path) == "precondition_check"@ ==> raises_only(
            krate,
            path,
            a,
            Category::UbCheck,
            Termination::Abort,
        ),
        leaf_of(path) == "panic_arc_overflow"@ || leaf_of(path) == "panic_rc_overflow"@
            ==> raises_only(krate, path, a, Category::RefCountOverflow, Termination::Unwind),
{
    reveal_strlit("capacity_overflow");
    reveal_strlit("precondition_check");
    reveal_strlit("handle_alloc_error");
    reveal_strlit("alloc_err");
    reveal_strlit("oom");
    reveal_strlit("panic_arc_overflow");
    reveal_strlit("panic_rc_overflow");
    assert("capacity_overflow"@.len() == 17 && "precondition_check"@.len() == 18);
    assert("handle_alloc_error"@.len() == 18 && "alloc_err"@.len() == 9 && "oom"@.len() == 3);
    assert("panic_arc_overflow"@.len() == 18 && "panic_rc_overflow"@.len() == 17);
    assert("precondition_check"@[0] == 'p' && "handle_alloc_error"@[0] == 'h');
    assert("precondition_check"@[1] == 'r' && "panic_arc_overflow"@[1] == 'a');
    assert("panic_arc_overflow"@[0] == 'p' && "panic_rc_overflow"@[0] == 'p');
    assert("capacity_overflow"@[0] == 'c');
}

/// What ends a path's last segment is what follows its last separator: the
/// segment holds none, and what stands before it ends in one or is nothing.
pub proof fn leaves_are_last_segments(path: Seq<char>, n: nat)
    requires
        n <= path.len(),
    ensures
        leaf_start(path, n) <= n,
        leaf_start(path, n) > 0 ==> leaf_start(path, n) >= 2 && path[leaf_start(path, n) - 1] == ':'
            && path[leaf_start(path, n) - 2] == ':',
        forall|k: int|
            leaf_start(path, n) < k && 2 <= k <= n ==> !(path[k - 1] == ':' && #[trigger] path[k - 2]
                == ':'),
    decreases n,
{
    if n >= 2 && !(path[n - 1] == ':' && path[n - 2] == ':') {
        leaves_are_last_segments(path, (n - 1) as nat);
    }
}

/// A function of the core or the allocating library that cannot be read and
/// never returns raises something, whatever it is called; one that can be read
/// and goes by no name is no entry point, and neither is one of `std` that
/// only never returns.
pub proof fn what_never_returns_raises(krate: Seq<char>, path: Seq<char>, sig: Signature)
    requires
        krate == "core"@ || krate == "alloc"@,
        sig.callable,
        !sig.readable,
        sig.diverges,
    ensures
        spec_classify(krate, path, sig) is Some,
{
}

/// An unwrap that discards the error of a poisoned lock is told as that, one
/// that discards a formatting error as that, and any other as it was; nothing
/// but an unwrap is told anew, and how it ends does not change.
pub proof fn unwraps_go_by_their_error(sink: Sink, krate: Seq<char>, path: Seq<char>)
    ensures
        ({
            let r = spec_refine_unwrap(sink, krate, path);
            &&& r.first.termination == sink.first.termination
            &&& r.second == sink.second
            &&& !(sink.first.category is Unwrap) ==> r == sink
            &&& sink.first.category is Unwrap ==> {
                ||| r == sink
                ||| r.first.category is Poison && krate == "std"@ && path
                    == "sync::poison::PoisonError"@
                ||| r.first.category is Fmt && krate == "core"@ && path == "fmt::Error"@
            }
            &&& sink.first.category is Unwrap && krate == "std"@ && path
                == "sync::poison::PoisonError"@ ==> r.first.category is Poison
            &&& sink.first.category is Unwrap && krate == "core"@ && path == "fmt::Error"@
                ==> r.first.category is Fmt
        }),
{
    crates_differ();
}

} // verus!
