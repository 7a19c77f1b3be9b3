//! What reading a body leaves out, which is nothing it should not.
//!
//! A body is read block by block, and each block leaves entries of its own.
//! What is shown here is what a block's end leaves, in terms of what the
//! compiler says of it: each check that can fail is a site, each call and each
//! drop an edge or the panics of the entry point it reaches, and each entry
//! has the cleanup path its end has.

use vstd::prelude::*;

use crate::category::{Category, Termination};
use crate::extract;
use crate::extract::{
    AssertKind, At, Build, Callee, End, Glue, Handed, Impl, Intrinsic, Outline, RawView, Runs, SeenView,
    Target, UnwindEdge, Write,
};
use crate::fold;
use crate::fold::Reached;
use crate::mir::{Function, Terminator, Unwind};
use crate::model;
use crate::model::{CallView, EdgeKind, SiteView, UnwindOrigin};
use crate::sinks;
use crate::sinks::{Raise, Sink};
use crate::value::BinOp;

verus! {

/// Whether one record comes of another by entries of one block.
pub open spec fn adds(a: RawView, b: RawView, at: At) -> bool {
    &&& a.wf()
    &&& b.wf()
    &&& a.sites.len() <= b.sites.len()
    &&& a.calls.len() <= b.calls.len()
    &&& a.unwind_edges.len() <= b.unwind_edges.len()
    &&& forall|m: int|
        0 <= m < a.sites.len() ==> #[trigger] b.sites[m] == a.sites[m] && b.site_blocks[m]
            == a.site_blocks[m] && b.site_fires[m] == a.site_fires[m]
    &&& forall|m: int|
        0 <= m < a.calls.len() ==> #[trigger] b.calls[m] == a.calls[m] && b.call_blocks[m]
            == a.call_blocks[m]
    &&& forall|m: int|
        0 <= m < a.unwind_edges.len() ==> #[trigger] b.unwind_edges[m] == a.unwind_edges[m]
    &&& forall|m: int|
        a.site_blocks.len() <= m < b.site_blocks.len() ==> #[trigger] b.site_blocks[m] == at.bb
    &&& forall|m: int|
        a.call_blocks.len() <= m < b.call_blocks.len() ==> #[trigger] b.call_blocks[m] == at.bb
    &&& b.resuming == a.resuming
    &&& forall|m: int|
        a.sites.len() <= m < b.sites.len() ==> (#[trigger] b.sites[m]).terminates == !a.leaves(
            at.unwind,
        )
    &&& forall|m: int|
        a.calls.len() <= m < b.calls.len() ==> (#[trigger] b.calls[m]).terminates == !a.leaves(
            at.unwind,
        )
    &&& at.unwind is Cleanup ==> forall|m: int|
        a.sites.len() <= m < b.sites.len() && m < u32::MAX ==> b.unwind_edges.contains(
            #[trigger] from_site(m, at.unwind->Cleanup_0),
        )
    &&& at.unwind is Cleanup ==> forall|m: int|
        a.calls.len() <= m < b.calls.len() && m < u32::MAX ==> b.unwind_edges.contains(
            #[trigger] from_call(m, at.unwind->Cleanup_0),
        )
    &&& forall|k: int|
        a.unwind_edges.len() <= k < b.unwind_edges.len() ==> leads(
            a,
            b,
            at,
            #[trigger] b.unwind_edges[k],
        )
}

/// The cleanup path of a site.
pub open spec fn from_site(m: int, target: usize) -> UnwindEdge {
    UnwindEdge { origin: UnwindOrigin::Site(m as u32), target }
}

/// The cleanup path of a call.
pub open spec fn from_call(m: int, target: usize) -> UnwindEdge {
    UnwindEdge { origin: UnwindOrigin::Call(m as u32), target }
}

/// Whether an edge is the cleanup path of an entry one record has and another
/// has not, as far as entries can be numbered.
pub open spec fn leads(a: RawView, b: RawView, at: At, edge: UnwindEdge) -> bool {
    &&& at.unwind == Unwind::Cleanup(edge.target)
    &&& match edge.origin {
        UnwindOrigin::Site(m) => m == u32::MAX || a.sites.len() <= m < b.sites.len(),
        UnwindOrigin::Call(m) => m == u32::MAX || a.calls.len() <= m < b.calls.len(),
    }
}

proof fn adding_nothing(a: RawView, at: At)
    requires
        a.wf(),
    ensures
        adds(a, a, at),
{
}

proof fn adding_twice(a: RawView, b: RawView, c: RawView, at: At)
    requires
        adds(a, b, at),
        adds(b, c, at),
    ensures
        adds(a, c, at),
{
    assert forall|m: int| 0 <= m < a.sites.len() implies #[trigger] c.sites[m] == a.sites[m]
        && c.site_blocks[m] == a.site_blocks[m] && c.site_fires[m] == a.site_fires[m] by {
        assert(b.sites[m] == a.sites[m]);
        assert(c.sites[m] == b.sites[m]);
        assert(c.site_blocks[m] == b.site_blocks[m]);
        assert(c.site_fires[m] == b.site_fires[m]);
    }
    assert forall|m: int| 0 <= m < a.calls.len() implies #[trigger] c.calls[m] == a.calls[m]
        && c.call_blocks[m] == a.call_blocks[m] by {
        assert(b.calls[m] == a.calls[m]);
    }
    assert forall|m: int| 0 <= m < a.unwind_edges.len() implies #[trigger] c.unwind_edges[m]
        == a.unwind_edges[m] by {
        assert(b.unwind_edges[m] == a.unwind_edges[m]);
    }
    assert forall|m: int| a.site_blocks.len() <= m < c.site_blocks.len() implies #[trigger] c.site_blocks[m]
        == at.bb by {
        if m < b.sites.len() {
            assert(c.sites[m] == b.sites[m]);
        }
    }
    assert forall|m: int| a.call_blocks.len() <= m < c.call_blocks.len() implies #[trigger] c.call_blocks[m]
        == at.bb by {
        if m < b.calls.len() {
            assert(c.calls[m] == b.calls[m]);
        }
    }
    assert forall|m: int| a.sites.len() <= m < c.sites.len() implies (
    #[trigger] c.sites[m]).terminates == !a.leaves(at.unwind) by {
        if m < b.sites.len() {
            assert(c.sites[m] == b.sites[m]);
        }
    }
    assert forall|m: int| a.calls.len() <= m < c.calls.len() implies (
    #[trigger] c.calls[m]).terminates == !a.leaves(at.unwind) by {
        if m < b.calls.len() {
            assert(c.calls[m] == b.calls[m]);
        }
    }
    if at.unwind is Cleanup {
        let t = at.unwind->Cleanup_0;
        assert forall|m: int|
            a.sites.len() <= m < c.sites.len() && m < u32::MAX implies c.unwind_edges.contains(
            #[trigger] from_site(m, t),
        ) by {
            if m < b.sites.len() {
                let e = from_site(m, t);
                let k = choose|k: int| 0 <= k < b.unwind_edges.len() && b.unwind_edges[k] == e;
                assert(c.unwind_edges[k] == e);
            }
        }
        assert forall|m: int|
            a.calls.len() <= m < c.calls.len() && m < u32::MAX implies c.unwind_edges.contains(
            #[trigger] from_call(m, t),
        ) by {
            if m < b.calls.len() {
                let e = from_call(m, t);
                let k = choose|k: int| 0 <= k < b.unwind_edges.len() && b.unwind_edges[k] == e;
                assert(c.unwind_edges[k] == e);
            }
        }
    }
    assert forall|k: int| a.unwind_edges.len() <= k < c.unwind_edges.len() implies leads(
        a,
        c,
        at,
        #[trigger] c.unwind_edges[k],
    ) by {
        if k < b.unwind_edges.len() {
            assert(c.unwind_edges[k] == b.unwind_edges[k]);
            assert(leads(a, b, at, b.unwind_edges[k]));
        } else {
            assert(leads(b, c, at, c.unwind_edges[k]));
        }
    }
}

proof fn a_site_adds(a: RawView, at: At, site: SiteView, fires: bool)
    requires
        a.wf(),
    ensures
        adds(a, a.with_site(at, site, fires), at),
{
    let b = a.with_site(at, site, fires);
    if at.unwind is Cleanup {
        assert(b.unwind_edges.last() == b.unwind_edges[a.unwind_edges.len() as int]);
        assert(a.sites.len() < u32::MAX ==> b.unwind_edges.last() == from_site(
            a.sites.len() as int,
            at.unwind->Cleanup_0,
        ));
    }
}

proof fn a_call_adds(a: RawView, at: At, call: CallView)
    requires
        a.wf(),
    ensures
        adds(a, a.with_call(at, call), at),
{
    let b = a.with_call(at, call);
    if at.unwind is Cleanup {
        assert(b.unwind_edges.last() == b.unwind_edges[a.unwind_edges.len() as int]);
        assert(a.calls.len() < u32::MAX ==> b.unwind_edges.last() == from_call(
            a.calls.len() as int,
            at.unwind->Cleanup_0,
        ));
    }
}

proof fn raises_add(a: RawView, at: At, target: Target, raises: Seq<Raise>, n: nat)
    requires
        a.wf(),
    ensures
        adds(a, extract::with_raises(a, at, target, raises, n), at),
        extract::with_raises(a, at, target, raises, n).sites.len() == a.sites.len() + n,
        extract::with_raises(a, at, target, raises, n).calls == a.calls,
        forall|k: int|
            0 <= k < n ==> {
                let site = #[trigger] extract::with_raises(a, at, target, raises, n).sites[a.sites.len()
                    + k];
                site.category == raises[k].category && site.termination == raises[k].termination
            },
    decreases n,
{
    if n == 0 {
        adding_nothing(a, at);
    } else {
        raises_add(a, at, target, raises, (n - 1) as nat);
        let before = extract::with_raises(a, at, target, raises, (n - 1) as nat);
        let site = extract::raised(
            raises[n - 1],
            extract::reason_for(target),
            Some(target.named.display@),
            model::loc_view(at.loc),
        );
        a_site_adds(before, at, site, true);
        adding_twice(a, before, before.with_site(at, site, true), at);
        let now = extract::with_raises(a, at, target, raises, n);
        assert forall|k: int| 0 <= k < n implies {
            let site = #[trigger] now.sites[a.sites.len() + k];
            site.category == raises[k].category && site.termination == raises[k].termination
        } by {
            if k < n - 1 {
                assert(now.sites[a.sites.len() + k] == before.sites[a.sites.len() + k]);
            }
        }
    }
}

proof fn a_candidate_adds(a: RawView, at: At, one: Impl, dropping: bool)
    requires
        a.wf(),
    ensures
        adds(a, extract::with_candidate(a, at, one, dropping), at),
{
    adding_nothing(a, at);
    match one.target {
        Some(named) => {
            let call = CallView {
                candidate: true,
                self_ty: Some(one.self_ty@),
                ..extract::edge(
                    model::key_view(named.key),
                    extract::candidate_display(one, named, dropping),
                    EdgeKind::Vtable,
                    model::loc_view(at.loc),
                )
            };
            a_call_adds(a, at, call);
        },
        None => {},
    }
}

/// Whether a call of a record stands for an implementation.
pub open spec fn is_candidate(call: CallView, one: Impl) -> bool {
    one.target is Some && call.callee == model::key_view(one.target->0.key) && call.kind is Vtable
        && call.candidate && !call.barrier
}

proof fn candidates_add(a: RawView, at: At, impls: Seq<Impl>, dropping: bool, n: nat)
    requires
        a.wf(),
    ensures
        adds(a, extract::with_candidates(a, at, impls, dropping, n), at),
        extract::with_candidates(a, at, impls, dropping, n).sites == a.sites,
        forall|m: int|
            a.calls.len() <= m < extract::with_candidates(a, at, impls, dropping, n).calls.len()
                ==> (#[trigger] extract::with_candidates(a, at, impls, dropping, n).calls[m]).candidate,
        forall|k: int|
            0 <= k < n && !(#[trigger] impls[k]).generic && (dropping ==> impls[k].needs_drop)
                && impls[k].target is Some && impls[k].target->0.key is Some ==> exists|m: int|
                a.calls.len() <= m < extract::with_candidates(a, at, impls, dropping, n).calls.len()
                    && is_candidate(
                    #[trigger] extract::with_candidates(a, at, impls, dropping, n).calls[m],
                    impls[k],
                ),
    decreases n,
{
    if n == 0 {
        adding_nothing(a, at);
    } else {
        candidates_add(a, at, impls, dropping, (n - 1) as nat);
        let before = extract::with_candidates(a, at, impls, dropping, (n - 1) as nat);
        let now = extract::with_candidates(a, at, impls, dropping, n);
        a_candidate_adds(before, at, impls[n - 1], dropping);
        adding_twice(a, before, now, at);
        assert forall|m: int| a.calls.len() <= m < now.calls.len() implies (
        #[trigger] now.calls[m]).candidate by {
            if m < before.calls.len() {
                assert(now.calls[m] == before.calls[m]);
            }
        }
        assert forall|k: int|
            0 <= k < n && !(#[trigger] impls[k]).generic && (dropping ==> impls[k].needs_drop)
                && impls[k].target is Some && impls[k].target->0.key is Some implies exists|m: int|
            a.calls.len() <= m < now.calls.len() && is_candidate(#[trigger] now.calls[m], impls[k]) by {
            if k < n - 1 {
                let m = choose|m: int|
                    a.calls.len() <= m < before.calls.len() && is_candidate(
                        #[trigger] before.calls[m],
                        impls[k],
                    );
                assert(now.calls[m] == before.calls[m]);
            } else {
                let m = before.calls.len() as int;
                assert(is_candidate(now.calls[m], impls[k]));
            }
        }
    }
}

proof fn an_edge_adds(
    a: RawView,
    at: At,
    callee: Option<Seq<char>>,
    display: Seq<char>,
    kind: EdgeKind,
    barrier: bool,
)
    requires
        a.wf(),
    ensures
        ({
            let b = a.with_plain_edge(at, callee, display, kind, barrier);
            &&& adds(a, b, at)
            &&& b.calls.len() == a.calls.len() + 1
            &&& b.sites == a.sites
            &&& b.calls.last().callee == callee
            &&& b.calls.last().kind == kind
            &&& b.calls.last().barrier == barrier
            &&& !b.calls.last().candidate
        }),
{
    a_call_adds(
        a,
        at,
        CallView { barrier, ..extract::edge(callee, display, kind, model::loc_view(at.loc)) },
    );
}

proof fn a_caught_function_adds(
    a: RawView,
    at: At,
    operands: Seq<Handed>,
    writes: Seq<Write>,
    index: int,
    barrier: bool,
)
    requires
        a.wf(),
    ensures
        ({
            let b = extract::with_caught(a, at, operands, writes, index, barrier);
            &&& adds(a, b, at)
            &&& b.calls.len() == a.calls.len() + 1
            &&& b.sites == a.sites
            &&& b.calls.last().barrier == barrier
            &&& !b.calls.last().candidate
            &&& b.calls.last().kind is Static || b.calls.last().callee is None
        }),
{
    let named = if index < operands.len() {
        extract::named_by(operands[index], writes)
    } else {
        None
    };
    match named {
        Some(f) => {
            an_edge_adds(a, at, model::key_view(f.key), f.display@, EdgeKind::Static, barrier);
        },
        None => {
            an_edge_adds(a, at, None, "<caught function>"@, EdgeKind::Unresolved, barrier);
        },
    }
}

proof fn an_intrinsic_adds(a: RawView, at: At, intrinsic: Intrinsic)
    requires
        a.wf(),
    ensures
        adds(a, extract::with_intrinsic(a, at, intrinsic), at),
{
    adding_nothing(a, at);
    match intrinsic {
        Intrinsic::Catch(operands, writes) => {
            a_caught_function_adds(a, at, operands@, writes@, 0, true);
            let b = extract::with_caught(a, at, operands@, writes@, 0, true);
            a_caught_function_adds(b, at, operands@, writes@, 2, false);
            adding_twice(
                a,
                b,
                extract::with_caught(b, at, operands@, writes@, 2, false),
                at,
            );
        },
        Intrinsic::Validity(validity) => {
            match validity.ty {
                None => {
                    let display = "<validity of an unknown type>"@;
                    an_edge_adds(a, at, None, display, EdgeKind::Unresolved, false);
                },
                Some(ty) => {
                    let display = "validity of "@ + ty@;
                    an_edge_adds(a, at, None, display, EdgeKind::Generic, false);
                    an_edge_adds(a, at, None, display, EdgeKind::Unresolved, false);
                    a_site_adds(
                        a,
                        at,
                        extract::raised(
                            Raise {
                                category: Category::Explicit,
                                termination: Termination::Abort,
                            },
                            "instantiating "@ + ty@
                                + " this way is invalid, so the check aborts"@,
                            None,
                            model::loc_view(at.loc),
                        ),
                        true,
                    );
                },
            }
        },
        Intrinsic::Abort(_, _, _) => {
            a_site_adds(
                a,
                at,
                extract::raised(
                    Raise {
                        category: Category::RefCountOverflow,
                        termination: Termination::Abort,
                    },
                    "the reference count would overflow"@,
                    Some("core::intrinsics::abort"@),
                    model::loc_view(at.loc),
                ),
                true,
            );
        },
        Intrinsic::Other => {},
    }
}

proof fn a_callee_adds(a: RawView, at: At, callee: Callee)
    requires
        a.wf(),
    ensures
        adds(a, extract::with_callee(a, at, callee), at),
{
    adding_nothing(a, at);
    match callee {
        Callee::Found(target) => {
            match extract::sink_of(target) {
                Some(sink) => {
                    raises_add(a, at, target, sink.spec_raises(), sink.spec_raises().len());
                },
                None => {
                    match target.runs {
                        Runs::Intrinsic(intrinsic) => {
                            an_intrinsic_adds(a, at, intrinsic);
                        },
                        Runs::Virtual(impls) => {
                            let key = model::key_view(target.named.key);
                            let display = target.named.display@;
                            an_edge_adds(a, at, key, display, EdgeKind::Vtable, false);
                            let b = a.with_plain_edge(at, key, display, EdgeKind::Vtable, false);
                            candidates_add(b, at, impls@, false, impls@.len());
                            adding_twice(
                                a,
                                b,
                                extract::with_candidates(b, at, impls@, false, impls@.len()),
                                at,
                            );
                        },
                        Runs::Function => {
                            an_edge_adds(
                                a,
                                at,
                                model::key_view(target.named.key),
                                target.named.display@,
                                EdgeKind::Static,
                                false,
                            );
                        },
                    }
                },
            }
        },
        Callee::Unsettled => {
            an_edge_adds(a, at, None, "<unresolved>"@, EdgeKind::Unresolved, false);
        },
        Callee::Pointer(sig) => {
            a_call_adds(
                a,
                at,
                CallView {
                    sig: Some(sig@),
                    ..extract::edge(
                        None,
                        "<fn pointer>"@,
                        EdgeKind::FnPtr,
                        model::loc_view(at.loc),
                    )
                },
            );
        },
        Callee::Open(display) => {
            an_edge_adds(a, at, None, display@, EdgeKind::Generic, false);
        },
        Callee::Lost(display) => {
            an_edge_adds(a, at, None, display@, EdgeKind::Unresolved, false);
        },
    }
}

proof fn a_drop_adds(a: RawView, at: At, glue: Glue)
    requires
        a.wf(),
    ensures
        adds(a, extract::with_drop(a, at, glue), at),
{
    adding_nothing(a, at);
    match glue {
        Glue::Object(ty, impls) => {
            let display = "drop glue for "@ + ty@;
            an_edge_adds(a, at, None, display, EdgeKind::Vtable, false);
            let b = a.with_plain_edge(at, None, display, EdgeKind::Vtable, false);
            candidates_add(b, at, impls@, true, impls@.len());
            adding_twice(
                a,
                b,
                extract::with_candidates(b, at, impls@, true, impls@.len()),
                at,
            );
        },
        Glue::Unsettled => {
            an_edge_adds(a, at, None, "<unresolved drop>"@, EdgeKind::Unresolved, false);
        },
        Glue::Nothing => {},
        Glue::Open(ty) => {
            an_edge_adds(a, at, None, "drop glue for "@ + ty@, EdgeKind::Generic, false);
        },
        Glue::Own(named) => {
            an_edge_adds(
                a,
                at,
                model::key_view(named.key),
                "drop glue for "@ + named.display@,
                EdgeKind::Drop,
                false,
            );
        },
    }
}

proof fn an_end_adds(a: RawView, build: Build, reached: Reached, outline: Outline, at: At)
    requires
        a.wf(),
    ensures
        adds(a, extract::with_end(a, build, reached, outline, at), at),
{
    adding_nothing(a, at);
    match outline.end {
        End::Call(callee) => {
            a_callee_adds(a, at, callee);
        },
        End::Drop(glue) => {
            a_drop_adds(a, at, glue);
        },
        End::Check(kind) => {
            let (raise, reason) = extract::spec_classify_assert(kind);
            a_site_adds(
                a,
                at,
                extract::raised(raise, reason, None, model::loc_view(at.loc)),
                fold::flag(reached.failing, at.bb, false),
            );
        },
        End::Assembly(_) => {
            a_site_adds(
                a,
                at,
                extract::raised(
                    extract::assembly_raise(),
                    "runs assembly that may unwind"@,
                    None,
                    model::loc_view(at.loc),
                ),
                false,
            );
        },
        End::Other => {},
    }
}

/// Whether two records have the same entries.
pub open spec fn alike(a: RawView, b: RawView) -> bool {
    &&& b.sites == a.sites
    &&& b.site_blocks == a.site_blocks
    &&& b.site_fires == a.site_fires
    &&& b.calls == a.calls
    &&& b.call_blocks == a.call_blocks
    &&& b.unwind_edges == a.unwind_edges
    &&& b.resuming == a.resuming
}

proof fn notes_leave_entries(
    seen: SeenView,
    raw: RawView,
    notes: Seq<extract::Note>,
    n: nat,
)
    ensures
        alike(raw, extract::with_notes(seen, raw, notes, n).1),
    decreases n,
{
    if n > 0 {
        notes_leave_entries(seen, raw, notes, (n - 1) as nat);
    }
}

/// Where the end of a block stands.
pub open spec fn end_of(build: Build, function: Function, outlines: Seq<Outline>, b: int) -> At {
    At {
        bb: b as usize,
        unwind: extract::spec_unwind_of(
            build.unwinds,
            extract::unwinds_to(function.blocks@[b].terminator),
        ),
        loc: outlines[b].loc,
    }
}

/// Whether the entries of a record are all of the blocks before one.
spec fn before_block(raw: RawView, n: nat) -> bool {
    &&& raw.wf()
    &&& forall|m: int| 0 <= m < raw.site_blocks.len() ==> #[trigger] raw.site_blocks[m] < n
    &&& forall|m: int| 0 <= m < raw.call_blocks.len() ==> #[trigger] raw.call_blocks[m] < n
}

/// Reading blocks in order leaves entries of those blocks alone.
proof fn reading_in_order(
    build: Build,
    function: Function,
    reached: Reached,
    outlines: Seq<Outline>,
    seen: SeenView,
    raw: RawView,
    n: nat,
)
    requires
        raw.wf(),
        raw.sites.len() == 0,
        raw.calls.len() == 0,
        n <= usize::MAX,
    ensures
        before_block(extract::scanned(build, function, reached, outlines, seen, raw, n).1, n),
        extract::scanned(build, function, reached, outlines, seen, raw, n).1.resuming
            == raw.resuming,
    decreases n,
{
    if n > 0 {
        reading_in_order(build, function, reached, outlines, seen, raw, (n - 1) as nat);
        let (s, r) = extract::scanned(build, function, reached, outlines, seen, raw, (n - 1) as nat);
        let b = n - 1;
        if fold::flag(reached.live, b as usize, true) {
            let outline = outlines[b];
            notes_leave_entries(s, r, outline.notes@, outline.notes@.len());
            let with = extract::with_notes(s, r, outline.notes@, outline.notes@.len()).1;
            let at = end_of(build, function, outlines, b);
            an_end_adds(with, build, reached, outline, at);
            let now = extract::with_end(with, build, reached, outline, at);
            assert forall|m: int| 0 <= m < now.site_blocks.len() implies #[trigger] now.site_blocks[m]
                < n by {
                if m < with.sites.len() {
                    assert(now.sites[m] == with.sites[m]);
                    assert(with.site_blocks[m] < b);
                }
            }
            assert forall|m: int| 0 <= m < now.call_blocks.len() implies #[trigger] now.call_blocks[m]
                < n by {
                if m < with.calls.len() {
                    assert(now.calls[m] == with.calls[m]);
                    assert(with.call_blocks[m] < b);
                }
            }
        }
    }
}

/// Whether a record has, of one block, what another has, and what it had
/// before.
pub open spec fn holds_block(raw: RawView, part: RawView, b: usize) -> bool {
    &&& part.wf()
    &&& raw.wf()
    &&& part.sites.len() <= raw.sites.len()
    &&& part.calls.len() <= raw.calls.len()
    &&& forall|m: int|
        0 <= m < part.sites.len() ==> #[trigger] raw.sites[m] == part.sites[m] && raw.site_blocks[m]
            == part.site_blocks[m] && raw.site_fires[m] == part.site_fires[m]
    &&& forall|m: int|
        0 <= m < part.calls.len() ==> #[trigger] raw.calls[m] == part.calls[m] && raw.call_blocks[m]
            == part.call_blocks[m]
    &&& forall|m: int|
        0 <= m < part.unwind_edges.len() ==> raw.unwind_edges.contains(
            #[trigger] part.unwind_edges[m],
        )
    &&& forall|m: int|
        part.site_blocks.len() <= m < raw.site_blocks.len() ==> #[trigger] raw.site_blocks[m] != b
    &&& forall|m: int|
        part.call_blocks.len() <= m < raw.call_blocks.len() ==> #[trigger] raw.call_blocks[m] != b
}

/// What reading a body keeps of one block, once it has read that far.
proof fn reading_keeps_a_block(
    build: Build,
    function: Function,
    reached: Reached,
    outlines: Seq<Outline>,
    seen: SeenView,
    raw: RawView,
    b: int,
    n: nat,
)
    requires
        raw.wf(),
        raw.sites.len() == 0,
        raw.calls.len() == 0,
        0 <= b < n <= usize::MAX,
    ensures
        holds_block(
            extract::scanned(build, function, reached, outlines, seen, raw, n).1,
            extract::scanned(build, function, reached, outlines, seen, raw, (b + 1) as nat).1,
            b as usize,
        ),
    decreases n,
{
    let part = extract::scanned(build, function, reached, outlines, seen, raw, (b + 1) as nat).1;
    reading_in_order(build, function, reached, outlines, seen, raw, (b + 1) as nat);
    if b + 1 == n {
        assert forall|m: int| 0 <= m < part.unwind_edges.len() implies part.unwind_edges.contains(
            #[trigger] part.unwind_edges[m],
        ) by {}
    } else {
        reading_keeps_a_block(build, function, reached, outlines, seen, raw, b, (n - 1) as nat);
        reading_in_order(build, function, reached, outlines, seen, raw, (n - 1) as nat);
        let (s, r) = extract::scanned(build, function, reached, outlines, seen, raw, (n - 1) as nat);
        let last = n - 1;
        if fold::flag(reached.live, last as usize, true) {
            let outline = outlines[last];
            notes_leave_entries(s, r, outline.notes@, outline.notes@.len());
            let with = extract::with_notes(s, r, outline.notes@, outline.notes@.len()).1;
            let at = end_of(build, function, outlines, last);
            an_end_adds(with, build, reached, outline, at);
            let now = extract::with_end(with, build, reached, outline, at);
            assert forall|m: int| 0 <= m < part.sites.len() implies #[trigger] now.sites[m]
                == part.sites[m] && now.site_blocks[m] == part.site_blocks[m] && now.site_fires[m]
                == part.site_fires[m] by {
                assert(r.sites[m] == part.sites[m]);
            }
            assert forall|m: int| 0 <= m < part.calls.len() implies #[trigger] now.calls[m]
                == part.calls[m] && now.call_blocks[m] == part.call_blocks[m] by {
                assert(r.calls[m] == part.calls[m]);
            }
            assert forall|m: int|
                0 <= m < part.unwind_edges.len() implies now.unwind_edges.contains(
                #[trigger] part.unwind_edges[m],
            ) by {
                assert(r.unwind_edges.contains(part.unwind_edges[m]));
                let k = choose|k: int|
                    0 <= k < r.unwind_edges.len() && r.unwind_edges[k] == part.unwind_edges[m];
                assert(now.unwind_edges[k] == with.unwind_edges[k]);
            }
            assert forall|m: int|
                part.site_blocks.len() <= m < now.site_blocks.len() implies #[trigger] now.site_blocks[m]
                != b as usize by {
                if m < with.sites.len() {
                    assert(now.sites[m] == with.sites[m]);
                    assert(r.site_blocks[m] != b as usize);
                }
            }
            assert forall|m: int|
                part.call_blocks.len() <= m < now.call_blocks.len() implies #[trigger] now.call_blocks[m]
                != b as usize by {
                if m < with.calls.len() {
                    assert(now.calls[m] == with.calls[m]);
                    assert(r.call_blocks[m] != b as usize);
                }
            }
        }
    }
}

/// Where a block's entries come from: what was recorded when its end was read
/// holds none of them, and what is recorded after all is read holds just those
/// that reading its end left.
proof fn entries_of_a_block(
    build: Build,
    function: Function,
    reached: Reached,
    outlines: Seq<Outline>,
    seen: SeenView,
    b: int,
) -> (before: RawView)
    requires
        0 <= b < function.blocks@.len() <= usize::MAX,
    ensures
        before.wf(),
        before.resuming == extract::resuming_blocks(function),
        forall|m: int|
            0 <= m < before.site_blocks.len() ==> #[trigger] before.site_blocks[m] != b as usize,
        forall|m: int|
            0 <= m < before.call_blocks.len() ==> #[trigger] before.call_blocks[m] != b as usize,
        ({
            let raw = extract::scanned(
                build,
                function,
                reached,
                outlines,
                seen,
                RawView::nothing(extract::resuming_blocks(function)),
                function.blocks@.len(),
            ).1;
            let part = if fold::flag(reached.live, b as usize, true) {
                extract::with_end(
                    before,
                    build,
                    reached,
                    outlines[b],
                    end_of(build, function, outlines, b),
                )
            } else {
                before
            };
            &&& holds_block(raw, part, b as usize)
            &&& adds(before, part, end_of(build, function, outlines, b))
        }),
{
    let first = RawView::nothing(extract::resuming_blocks(function));
    let n = function.blocks@.len();
    let (s, r) = extract::scanned(build, function, reached, outlines, seen, first, b as nat);
    reading_in_order(build, function, reached, outlines, seen, first, b as nat);
    reading_keeps_a_block(build, function, reached, outlines, seen, first, b, n);
    let outline = outlines[b];
    notes_leave_entries(s, r, outline.notes@, outline.notes@.len());
    let with = extract::with_notes(s, r, outline.notes@, outline.notes@.len()).1;
    let at = end_of(build, function, outlines, b);
    if fold::flag(reached.live, b as usize, true) {
        an_end_adds(with, build, reached, outline, at);
        with
    } else {
        adding_nothing(r, at);
        r
    }
}

/// What a record has of a block: a site that raises a category and ends so.
pub open spec fn has_site(raw: RawView, b: usize, m: int, c: Category, t: Termination) -> bool {
    0 <= m < raw.sites.len() && raw.site_blocks[m] == b && raw.sites[m].category == c
        && raw.sites[m].termination == t
}

/// What a record has of a block: an edge of a kind to a callee.
pub open spec fn has_call(
    raw: RawView,
    b: usize,
    m: int,
    callee: Option<Seq<char>>,
    kind: EdgeKind,
    barrier: bool,
) -> bool {
    0 <= m < raw.calls.len() && raw.call_blocks[m] == b && raw.calls[m].callee == callee
        && raw.calls[m].kind == kind && raw.calls[m].barrier == barrier && !raw.calls[m].candidate
}

/// Whether a record has no entry of a block.
pub open spec fn has_nothing(raw: RawView, b: usize) -> bool {
    !raw.site_blocks.contains(b) && !raw.call_blocks.contains(b)
}

/// Whether a build without overflow checks does without a check.
pub open spec fn wraps(kind: AssertKind) -> bool {
    match kind {
        AssertKind::Overflow(op) => op == BinOp::Add || op == BinOp::Sub || op == BinOp::Mul || op
            == BinOp::Shl || op == BinOp::Shr,
        AssertKind::OverflowNeg => true,
        _ => false,
    }
}

/// What fails with a check, and how it ends.
pub open spec fn fails_with(kind: AssertKind, c: Category, t: Termination) -> bool {
    &&& kind is BoundsCheck ==> c is Index && t is Unwind
    &&& kind is Overflow || kind is OverflowNeg ==> c is Overflow && t is Unwind
    &&& kind is DivisionByZero ==> c is DivideByZero && t is Unwind
    &&& kind is RemainderByZero ==> c is RemainderByZero && t is Unwind
    &&& kind is MisalignedPointerDereference ==> c is MisalignedRef && t is Abort
    &&& kind is NullPointerDereference || kind is NullReferenceConstructed ==> c is NullDeref && t
        is Abort
    &&& kind is InvalidEnumConstruction ==> c is Explicit && t is Abort
    &&& kind is ResumedAfterReturn || kind is ResumedAfterPanic || kind is ResumedAfterDrop ==> c
        is Explicit && t is Unwind
}

proof fn a_block_that_adds_nothing(raw: RawView, before: RawView, b: usize)
    requires
        holds_block(raw, before, b),
        forall|m: int| 0 <= m < before.site_blocks.len() ==> #[trigger] before.site_blocks[m] != b,
        forall|m: int| 0 <= m < before.call_blocks.len() ==> #[trigger] before.call_blocks[m] != b,
    ensures
        has_nothing(raw, b),
{
    assert forall|m: int| 0 <= m < raw.site_blocks.len() implies raw.site_blocks[m] != b by {
        if m < before.sites.len() {
            assert(raw.sites[m] == before.sites[m]);
            assert(before.site_blocks[m] != b);
        }
    }
    assert forall|m: int| 0 <= m < raw.call_blocks.len() implies raw.call_blocks[m] != b by {
        if m < before.calls.len() {
            assert(raw.calls[m] == before.calls[m]);
            assert(before.call_blocks[m] != b);
        }
    }
}

/// Every check that can fail is recorded: a live block whose end is a check
/// that is not settled leaves a site of the kind the check is, and no other,
/// unless the build does without the check; and a check that is settled, one
/// the build does without, and a block that nothing runs leave none.
pub proof fn checks_are_recorded(
    build: Build,
    function: Function,
    reached: Reached,
    outlines: Seq<Outline>,
    seen: SeenView,
    b: int,
)
    requires
        0 <= b < function.blocks@.len() <= usize::MAX,
        outlines[b].end is Check,
    ensures
        ({
            let raw = extract::spec_scan(build, function, reached, outlines, seen).1;
            let kind = outlines[b].end->Check_0;
            let recorded = fold::flag(reached.live, b as usize, true) && !fold::flag(
                reached.settled,
                b as usize,
                false,
            ) && (build.overflow_checks || !wraps(kind));
            &&& recorded ==> raw.site_blocks.contains(b as usize)
            &&& recorded ==> forall|m: int|
                0 <= m < raw.sites.len() && raw.site_blocks[m] == b as usize ==> fails_with(
                    kind,
                    (#[trigger] raw.sites[m]).category,
                    raw.sites[m].termination,
                )
            &&& !raw.call_blocks.contains(b as usize)
            &&& !recorded ==> has_nothing(raw, b as usize)
        }),
{
    let bb = b as usize;
    let before = entries_of_a_block(build, function, reached, outlines, seen, b);
    let raw = extract::scanned(
        build,
        function,
        reached,
        outlines,
        seen,
        RawView::nothing(extract::resuming_blocks(function)),
        function.blocks@.len(),
    ).1;
    let kind = outlines[b].end->Check_0;
    let at = end_of(build, function, outlines, b);
    let recorded = fold::flag(reached.live, bb, true) && !fold::flag(reached.settled, bb, false) && (
    build.overflow_checks || !wraps(kind));
    if recorded {
        let part = extract::with_end(before, build, reached, outlines[b], at);
        let m = before.sites.len() as int;
        assert(raw.sites[m] == part.sites[m]);
        assert(raw.site_blocks[m] == bb);
        assert forall|m: int| 0 <= m < raw.sites.len() && raw.site_blocks[m] == bb implies fails_with(
            kind,
            (#[trigger] raw.sites[m]).category,
            raw.sites[m].termination,
        ) by {
            if m < part.sites.len() {
                assert(raw.sites[m] == part.sites[m]);
                if m < before.sites.len() {
                    assert(part.sites[m] == before.sites[m]);
                    assert(before.site_blocks[m] != bb);
                }
            }
        }
        assert forall|m: int| 0 <= m < raw.call_blocks.len() implies raw.call_blocks[m] != bb by {
            if m < before.calls.len() {
                assert(raw.calls[m] == part.calls[m]);
                assert(part.calls[m] == before.calls[m]);
                assert(before.call_blocks[m] != bb);
            }
        }
        let done = extract::spec_scan(build, function, reached, outlines, seen).1;
        assert forall|m: int| 0 <= m < done.sites.len() && done.site_blocks[m] == bb implies fails_with(
            kind,
            (#[trigger] done.sites[m]).category,
            done.sites[m].termination,
        ) by {
            assert(fails_with(kind, raw.sites[m].category, raw.sites[m].termination));
        }
    } else {
        a_block_that_adds_nothing(raw, before, bb);
    }
}

/// Whether a record has no site of a block.
pub open spec fn has_no_site(raw: RawView, b: usize) -> bool {
    !raw.site_blocks.contains(b)
}

/// Whether a record has no edge of a block.
pub open spec fn has_no_call(raw: RawView, b: usize) -> bool {
    !raw.call_blocks.contains(b)
}

/// Whether a record keeps what another has of a block.
spec fn lasts(part: RawView, done: RawView, b: usize) -> bool {
    &&& part.wf()
    &&& done.wf()
    &&& part.sites.len() <= done.sites.len()
    &&& part.calls.len() <= done.calls.len()
    &&& forall|m: int|
        0 <= m < part.sites.len() ==> (#[trigger] done.sites[m]).category == part.sites[m].category
            && done.sites[m].termination == part.sites[m].termination && done.site_blocks[m]
            == part.site_blocks[m]
    &&& forall|m: int|
        0 <= m < part.calls.len() ==> #[trigger] done.calls[m] == part.calls[m]
            && done.call_blocks[m] == part.call_blocks[m]
    &&& has_no_site(part, b) ==> has_no_site(done, b)
    &&& has_no_call(part, b) ==> has_no_call(done, b)
}

/// What a block's end left is in the record, once all is read.
proof fn what_is_left_lasts(function: Function, reached: Reached, raw: RawView, part: RawView, b: usize)
    requires
        holds_block(raw, part, b),
    ensures
        lasts(part, extract::settled_certain(function, reached, raw), b),
{
    let done = extract::settled_certain(function, reached, raw);
    assert forall|m: int| 0 <= m < part.sites.len() implies (#[trigger] done.sites[m]).category
        == part.sites[m].category && done.sites[m].termination == part.sites[m].termination
        && done.site_blocks[m] == part.site_blocks[m] by {
        assert(raw.sites[m] == part.sites[m]);
    }
    assert forall|m: int| 0 <= m < part.calls.len() implies #[trigger] done.calls[m]
        == part.calls[m] && done.call_blocks[m] == part.call_blocks[m] by {
        assert(raw.calls[m] == part.calls[m]);
    }
    if has_no_site(part, b) {
        assert forall|m: int| 0 <= m < done.site_blocks.len() implies done.site_blocks[m] != b by {
            if m < part.sites.len() {
                assert(raw.sites[m] == part.sites[m]);
                assert(part.site_blocks[m] != b);
            }
        }
    }
    if has_no_call(part, b) {
        assert forall|m: int| 0 <= m < done.call_blocks.len() implies done.call_blocks[m] != b by {
            if m < part.calls.len() {
                assert(raw.calls[m] == part.calls[m]);
                assert(part.call_blocks[m] != b);
            }
        }
    }
}

proof fn none_of_a_block(before: RawView, part: RawView, at: At, b: usize)
    requires
        adds(before, part, at),
        at.bb == b,
        forall|m: int| 0 <= m < before.site_blocks.len() ==> #[trigger] before.site_blocks[m] != b,
        forall|m: int| 0 <= m < before.call_blocks.len() ==> #[trigger] before.call_blocks[m] != b,
    ensures
        part.sites.len() == before.sites.len() ==> has_no_site(part, b),
        part.calls.len() == before.calls.len() ==> has_no_call(part, b),
{
    if part.sites.len() == before.sites.len() {
        assert forall|m: int| 0 <= m < part.site_blocks.len() implies part.site_blocks[m] != b by {
            assert(part.sites[m] == before.sites[m]);
            assert(before.site_blocks[m] != b);
        }
    }
    if part.calls.len() == before.calls.len() {
        assert forall|m: int| 0 <= m < part.call_blocks.len() implies part.call_blocks[m] != b by {
            assert(part.calls[m] == before.calls[m]);
            assert(before.call_blocks[m] != b);
        }
    }
}

proof fn a_told_call_lasts(
    part: RawView,
    done: RawView,
    b: usize,
    callee: Option<Seq<char>>,
    kind: EdgeKind,
    barrier: bool,
)
    requires
        lasts(part, done, b),
        exists|m: int| #[trigger] has_call(part, b, m, callee, kind, barrier),
    ensures
        exists|m: int| #[trigger] has_call(done, b, m, callee, kind, barrier),
{
    let m = choose|m: int| #[trigger] has_call(part, b, m, callee, kind, barrier);
    assert(done.calls[m] == part.calls[m]);
    assert(has_call(done, b, m, callee, kind, barrier));
}

proof fn a_told_site_lasts(part: RawView, done: RawView, b: usize, c: Category, t: Termination)
    requires
        lasts(part, done, b),
        exists|m: int| #[trigger] has_site(part, b, m, c, t),
    ensures
        exists|m: int| #[trigger] has_site(done, b, m, c, t),
{
    let m = choose|m: int| #[trigger] has_site(part, b, m, c, t);
    assert(done.sites[m].category == part.sites[m].category);
    assert(has_site(done, b, m, c, t));
}

/// Whether a record has a site of a block for a panic of an entry point. An
/// unwrap may be told by the error it discards.
pub open spec fn tells_raise(raw: RawView, b: usize, m: int, raise: Raise, target: Target) -> bool {
    &&& 0 <= m < raw.sites.len()
    &&& raw.site_blocks[m] == b
    &&& raw.sites[m].termination == raise.termination
    &&& raw.sites[m].category == raise.category || raise.category is Unwrap && target.discards
        is Some && (raw.sites[m].category is Poison || raw.sites[m].category is Fmt)
}

/// What a call leaves in a record, in terms of what the compiler says of it.
///
/// One whose target is not known is an edge to no one, of the kind that says
/// why; one that reaches an entry point is a site for each panic it raises,
/// and no edge; one to a method of an object is an edge through its table and
/// a candidate for each implementation that can be named; and any other that
/// was resolved is an edge to the function it runs.
pub open spec fn tells_call(raw: RawView, b: usize, callee: Callee) -> bool {
    match callee {
        Callee::Unsettled => exists|m: int| #[trigger]
            has_call(raw, b, m, None, EdgeKind::Unresolved, false),
        Callee::Lost(_) => exists|m: int| #[trigger]
            has_call(raw, b, m, None, EdgeKind::Unresolved, false),
        Callee::Open(_) => exists|m: int| #[trigger]
            has_call(raw, b, m, None, EdgeKind::Generic, false),
        Callee::Pointer(sig) => exists|m: int| #[trigger]
            has_call(raw, b, m, None, EdgeKind::FnPtr, false) && raw.calls[m].sig == Some(sig@),
        Callee::Found(target) => match sinks::spec_classify(
            target.defined.krate@,
            target.defined.path@,
            target.signature,
        ) {
            Some(sink) => has_no_call(raw, b) && tells_both(raw, b, sink, target),
            None => match target.runs {
                Runs::Function => has_no_site(raw, b) && exists|m: int| #[trigger]
                    has_call(
                        raw,
                        b,
                        m,
                        model::key_view(target.named.key),
                        EdgeKind::Static,
                        false,
                    ),
                Runs::Virtual(impls) => {
                    &&& has_no_site(raw, b)
                    &&& exists|m: int| #[trigger]
                        has_call(
                            raw,
                            b,
                            m,
                            model::key_view(target.named.key),
                            EdgeKind::Vtable,
                            false,
                        )
                    &&& forall|k: int|
                        0 <= k < impls@.len() && !(#[trigger] impls@[k]).generic && impls@[k].target
                            is Some && impls@[k].target->0.key is Some ==> names(raw, b, impls@[k])
                },
                Runs::Intrinsic(intrinsic) => tells_intrinsic(raw, b, intrinsic),
            },
        },
    }
}

/// Whether a record has a site of a block for each panic of an entry point.
pub open spec fn tells_both(raw: RawView, b: usize, sink: Sink, target: Target) -> bool {
    &&& exists|m: int| #[trigger] tells_raise(raw, b, m, sink.first, target)
    &&& match sink.second {
        Some(other) => exists|m: int| #[trigger] tells_raise(raw, b, m, other, target),
        None => true,
    }
}

/// Whether a record names an implementation as one a block could call.
pub open spec fn names(raw: RawView, b: usize, one: Impl) -> bool {
    exists|m: int|
        0 <= m < raw.calls.len() && raw.call_blocks[m] == b && is_candidate(
            #[trigger] raw.calls[m],
            one,
        )
}

/// What an operation the compiler defines leaves in a record: a catch the
/// function it guards, behind a barrier, and the one it hands a panic to, in
/// front of it; a check of an instantiation what it raises, if anything; and
/// an abort inside a count of references that the count overflows.
pub open spec fn tells_intrinsic(raw: RawView, b: usize, intrinsic: Intrinsic) -> bool {
    match intrinsic {
        Intrinsic::Catch(operands, writes) => {
            &&& has_no_site(raw, b)
            &&& exists|m: int| #[trigger] has_edge(raw, b, m, true, first_function(operands@, 0))
            &&& exists|m: int| #[trigger] has_edge(raw, b, m, false, first_function(operands@, 2))
        },
        Intrinsic::Validity(validity) => match (validity.ty, validity.generic, validity.allowed) {
            (None, _, _) => exists|m: int| #[trigger]
                has_call(raw, b, m, None, EdgeKind::Unresolved, false),
            (Some(_), true, _) => exists|m: int| #[trigger]
                has_call(raw, b, m, None, EdgeKind::Generic, false),
            (Some(_), false, Some(true)) => has_nothing(raw, b),
            (Some(_), false, Some(false)) => exists|m: int| #[trigger]
                has_site(raw, b, m, Category::Explicit, Termination::Abort),
            (Some(_), false, None) => exists|m: int| #[trigger]
                has_call(raw, b, m, None, EdgeKind::Unresolved, false),
        },
        Intrinsic::Abort(defined, scope, scopes) => {
            &&& has_no_call(raw, b)
            &&& if extract::overflows_count(defined, scope, scopes@) {
                exists|m: int| #[trigger]
                    has_site(raw, b, m, Category::RefCountOverflow, Termination::Abort)
            } else {
                has_no_site(raw, b)
            }
        },
        Intrinsic::Other => has_nothing(raw, b),
    }
}

/// The key of the function an operand names outright.
pub open spec fn first_function(operands: Seq<Handed>, index: int) -> Option<Seq<char>> {
    if 0 <= index < operands.len() {
        match operands[index] {
            Handed::Constant(Some(named)) => model::key_view(named.key),
            _ => None,
        }
    } else {
        None
    }
}

/// What a record has of a block: an edge behind a barrier or in front of it,
/// to a function if it is known which.
pub open spec fn has_edge(
    raw: RawView,
    b: usize,
    m: int,
    barrier: bool,
    callee: Option<Seq<char>>,
) -> bool {
    &&& 0 <= m < raw.calls.len()
    &&& raw.call_blocks[m] == b
    &&& raw.calls[m].barrier == barrier
    &&& !raw.calls[m].candidate
    &&& callee is Some ==> raw.calls[m].callee == callee && raw.calls[m].kind is Static
}

proof fn a_call_is_told(a: RawView, at: At, callee: Callee)
    requires
        a.wf(),
        forall|m: int| 0 <= m < a.site_blocks.len() ==> #[trigger] a.site_blocks[m] != at.bb,
        forall|m: int| 0 <= m < a.call_blocks.len() ==> #[trigger] a.call_blocks[m] != at.bb,
    ensures
        tells_call(extract::with_callee(a, at, callee), at.bb, callee),
{
    let part = extract::with_callee(a, at, callee);
    let b = at.bb;
    let n = a.calls.len() as int;
    a_callee_adds(a, at, callee);
    none_of_a_block(a, part, at, b);
    match callee {
        Callee::Unsettled => {
            assert(has_call(part, b, n, None, EdgeKind::Unresolved, false));
        },
        Callee::Lost(_) => {
            assert(has_call(part, b, n, None, EdgeKind::Unresolved, false));
        },
        Callee::Open(_) => {
            assert(has_call(part, b, n, None, EdgeKind::Generic, false));
        },
        Callee::Pointer(sig) => {
            assert(has_call(part, b, n, None, EdgeKind::FnPtr, false));
        },
        Callee::Found(target) => {
            match extract::sink_of(target) {
                Some(sink) => {
                    let raises = sink.spec_raises();
                    raises_add(a, at, target, raises, raises.len());
                    let known = sinks::spec_classify(
                        target.defined.krate@,
                        target.defined.path@,
                        target.signature,
                    )->0;
                    assert(raises[0] == sink.first);
                    assert(tells_raise(part, b, a.sites.len() as int, known.first, target)) by {
                        assert(part.sites[a.sites.len() + 0int].category == raises[0].category);
                    }
                    if sink.second is Some {
                        assert(raises[1] == sink.second->0);
                        assert(tells_raise(
                            part,
                            b,
                            a.sites.len() + 1int,
                            known.second->0,
                            target,
                        )) by {
                            assert(part.sites[a.sites.len() + 1int].category == raises[1].category);
                        }
                    }
                },
                None => {
                    match target.runs {
                        Runs::Function => {
                            assert(has_call(
                                part,
                                b,
                                n,
                                model::key_view(target.named.key),
                                EdgeKind::Static,
                                false,
                            ));
                        },
                        Runs::Virtual(impls) => {
                            let key = model::key_view(target.named.key);
                            let display = target.named.display@;
                            an_edge_adds(a, at, key, display, EdgeKind::Vtable, false);
                            let first = a.with_plain_edge(at, key, display, EdgeKind::Vtable, false);
                            candidates_add(first, at, impls@, false, impls@.len());
                            assert(part.calls[n] == first.calls[n]);
                            assert(has_call(part, b, n, key, EdgeKind::Vtable, false));
                            assert forall|k: int|
                                0 <= k < impls@.len() && !(#[trigger] impls@[k]).generic
                                    && impls@[k].target is Some && impls@[k].target->0.key
                                    is Some implies names(part, b, impls@[k]) by {
                                let m = choose|m: int|
                                    first.calls.len() <= m < part.calls.len() && is_candidate(
                                        #[trigger] part.calls[m],
                                        impls@[k],
                                    );
                                assert(part.call_blocks[m] == b);
                            }
                        },
                        Runs::Intrinsic(intrinsic) => {
                            an_intrinsic_is_told(a, at, intrinsic);
                        },
                    }
                },
            }
        },
    }
}

proof fn an_intrinsic_is_told(a: RawView, at: At, intrinsic: Intrinsic)
    requires
        a.wf(),
        forall|m: int| 0 <= m < a.site_blocks.len() ==> #[trigger] a.site_blocks[m] != at.bb,
        forall|m: int| 0 <= m < a.call_blocks.len() ==> #[trigger] a.call_blocks[m] != at.bb,
    ensures
        tells_intrinsic(extract::with_intrinsic(a, at, intrinsic), at.bb, intrinsic),
{
    let part = extract::with_intrinsic(a, at, intrinsic);
    let b = at.bb;
    let n = a.calls.len() as int;
    an_intrinsic_adds(a, at, intrinsic);
    none_of_a_block(a, part, at, b);
    match intrinsic {
        Intrinsic::Catch(operands, writes) => {
            a_caught_function_adds(a, at, operands@, writes@, 0, true);
            let first = extract::with_caught(a, at, operands@, writes@, 0, true);
            a_caught_function_adds(first, at, operands@, writes@, 2, false);
            assert(part.calls[n] == first.calls[n]);
            assert(has_edge(part, b, n, true, first_function(operands@, 0)));
            assert(has_edge(part, b, n + 1, false, first_function(operands@, 2)));
        },
        Intrinsic::Validity(validity) => {
            match (validity.ty, validity.generic, validity.allowed) {
                (Some(_), true, _) => {
                    assert(has_call(part, b, n, None, EdgeKind::Generic, false));
                },
                (Some(_), false, Some(true)) => {},
                (Some(_), false, Some(false)) => {
                    assert(has_site(
                        part,
                        b,
                        a.sites.len() as int,
                        Category::Explicit,
                        Termination::Abort,
                    ));
                },
                _ => {
                    assert(has_call(part, b, n, None, EdgeKind::Unresolved, false));
                },
            }
        },
        Intrinsic::Abort(defined, scope, scopes) => {
            if extract::overflows_count(defined, scope, scopes@) {
                assert(has_site(
                    part,
                    b,
                    a.sites.len() as int,
                    Category::RefCountOverflow,
                    Termination::Abort,
                ));
            }
        },
        Intrinsic::Other => {},
    }
}

proof fn telling_lasts(part: RawView, done: RawView, b: usize, callee: Callee)
    requires
        lasts(part, done, b),
        tells_call(part, b, callee),
    ensures
        tells_call(done, b, callee),
{
    match callee {
        Callee::Unsettled => {
            a_told_call_lasts(part, done, b, None, EdgeKind::Unresolved, false);
        },
        Callee::Lost(_) => {
            a_told_call_lasts(part, done, b, None, EdgeKind::Unresolved, false);
        },
        Callee::Open(_) => {
            a_told_call_lasts(part, done, b, None, EdgeKind::Generic, false);
        },
        Callee::Pointer(sig) => {
            let m = choose|m: int| #[trigger]
                has_call(part, b, m, None, EdgeKind::FnPtr, false) && part.calls[m].sig == Some(
                    sig@,
                );
            assert(done.calls[m] == part.calls[m]);
            assert(has_call(done, b, m, None, EdgeKind::FnPtr, false));
        },
        Callee::Found(target) => {
            match sinks::spec_classify(
                target.defined.krate@,
                target.defined.path@,
                target.signature,
            ) {
                Some(sink) => {
                    let m = choose|m: int| #[trigger] tells_raise(part, b, m, sink.first, target);
                    assert(done.sites[m].category == part.sites[m].category);
                    assert(tells_raise(done, b, m, sink.first, target));
                    if sink.second is Some {
                        let other = sink.second->0;
                        let m = choose|m: int| #[trigger] tells_raise(part, b, m, other, target);
                        assert(done.sites[m].category == part.sites[m].category);
                        assert(tells_raise(done, b, m, other, target));
                    }
                },
                None => {
                    let key = model::key_view(target.named.key);
                    match target.runs {
                        Runs::Function => {
                            a_told_call_lasts(part, done, b, key, EdgeKind::Static, false);
                        },
                        Runs::Virtual(impls) => {
                            a_told_call_lasts(part, done, b, key, EdgeKind::Vtable, false);
                            assert forall|k: int|
                                0 <= k < impls@.len() && !(#[trigger] impls@[k]).generic
                                    && impls@[k].target is Some && impls@[k].target->0.key
                                    is Some implies names(done, b, impls@[k]) by {
                                naming_lasts(part, done, b, impls@[k]);
                            }
                        },
                        Runs::Intrinsic(intrinsic) => {
                            intrinsic_telling_lasts(part, done, b, intrinsic);
                        },
                    }
                },
            }
        },
    }
}

proof fn naming_lasts(part: RawView, done: RawView, b: usize, one: Impl)
    requires
        lasts(part, done, b),
        names(part, b, one),
    ensures
        names(done, b, one),
{
    let m = choose|m: int|
        0 <= m < part.calls.len() && part.call_blocks[m] == b && is_candidate(
            #[trigger] part.calls[m],
            one,
        );
    assert(done.calls[m] == part.calls[m]);
}

proof fn intrinsic_telling_lasts(part: RawView, done: RawView, b: usize, intrinsic: Intrinsic)
    requires
        lasts(part, done, b),
        tells_intrinsic(part, b, intrinsic),
    ensures
        tells_intrinsic(done, b, intrinsic),
{
    match intrinsic {
        Intrinsic::Catch(operands, writes) => {
            let m = choose|m: int| #[trigger]
                has_edge(part, b, m, true, first_function(operands@, 0));
            assert(done.calls[m] == part.calls[m]);
            assert(has_edge(done, b, m, true, first_function(operands@, 0)));
            let m = choose|m: int| #[trigger]
                has_edge(part, b, m, false, first_function(operands@, 2));
            assert(done.calls[m] == part.calls[m]);
            assert(has_edge(done, b, m, false, first_function(operands@, 2)));
        },
        Intrinsic::Validity(validity) => {
            match (validity.ty, validity.generic, validity.allowed) {
                (Some(_), true, _) => {
                    a_told_call_lasts(part, done, b, None, EdgeKind::Generic, false);
                },
                (Some(_), false, Some(true)) => {},
                (Some(_), false, Some(false)) => {
                    a_told_site_lasts(part, done, b, Category::Explicit, Termination::Abort);
                },
                _ => {
                    a_told_call_lasts(part, done, b, None, EdgeKind::Unresolved, false);
                },
            }
        },
        Intrinsic::Abort(defined, scope, scopes) => {
            if extract::overflows_count(defined, scope, scopes@) {
                a_told_site_lasts(part, done, b, Category::RefCountOverflow, Termination::Abort);
            }
        },
        Intrinsic::Other => {},
    }
}

/// Every call is recorded for what it is, unless the walk showed that it
/// raises nothing or that nothing runs it; then it leaves no entry.
pub proof fn calls_are_recorded(
    build: Build,
    function: Function,
    reached: Reached,
    outlines: Seq<Outline>,
    seen: SeenView,
    b: int,
)
    requires
        0 <= b < function.blocks@.len() <= usize::MAX,
        outlines[b].end is Call,
    ensures
        ({
            let raw = extract::spec_scan(build, function, reached, outlines, seen).1;
            if fold::flag(reached.live, b as usize, true) && !fold::flag(
                reached.quiet,
                b as usize,
                false,
            ) {
                tells_call(raw, b as usize, outlines[b].end->Call_0)
            } else {
                has_nothing(raw, b as usize)
            }
        }),
{
    let bb = b as usize;
    let before = entries_of_a_block(build, function, reached, outlines, seen, b);
    let raw = extract::scanned(
        build,
        function,
        reached,
        outlines,
        seen,
        RawView::nothing(extract::resuming_blocks(function)),
        function.blocks@.len(),
    ).1;
    let done = extract::settled_certain(function, reached, raw);
    let callee = outlines[b].end->Call_0;
    let at = end_of(build, function, outlines, b);
    if fold::flag(reached.live, bb, true) && !fold::flag(reached.quiet, bb, false) {
        let part = extract::with_callee(before, at, callee);
        a_call_is_told(before, at, callee);
        what_is_left_lasts(function, reached, raw, part, bb);
        telling_lasts(part, done, bb, callee);
    } else {
        adding_nothing(before, at);
        none_of_a_block(before, before, at, bb);
        what_is_left_lasts(function, reached, raw, before, bb);
    }
}

/// Whether a record has a site of a block that raises a category and ends so.
pub open spec fn raises_so(raw: RawView, b: usize, c: Category, t: Termination) -> bool {
    exists|m: int| #[trigger] has_site(raw, b, m, c, t)
}

/// What a drop leaves in a record, in terms of what the compiler says of it.
pub open spec fn tells_drop(raw: RawView, b: usize, glue: Glue) -> bool {
    &&& has_no_site(raw, b)
    &&& match glue {
        Glue::Unsettled => exists|m: int| #[trigger]
            has_call(raw, b, m, None, EdgeKind::Unresolved, false),
        Glue::Nothing => has_no_call(raw, b),
        Glue::Open(_) => exists|m: int| #[trigger]
            has_call(raw, b, m, None, EdgeKind::Generic, false),
        Glue::Object(_, impls) => {
            &&& exists|m: int| #[trigger] has_call(raw, b, m, None, EdgeKind::Vtable, false)
            &&& forall|k: int|
                0 <= k < impls@.len() && !(#[trigger] impls@[k]).generic && impls@[k].needs_drop
                    && impls@[k].target is Some && impls@[k].target->0.key is Some ==> names(
                    raw,
                    b,
                    impls@[k],
                )
        },
        Glue::Own(named) => exists|m: int| #[trigger]
            has_call(raw, b, m, model::key_view(named.key), EdgeKind::Drop, false),
    }
}

/// Every drop that runs something is recorded as the call it is: its type's
/// own glue by its key, a trait object's through its table with a candidate
/// for each implementation that needs dropping, and one that is not known yet
/// as an edge to no one. A drop that runs nothing leaves no entry.
pub proof fn drops_are_recorded(
    build: Build,
    function: Function,
    reached: Reached,
    outlines: Seq<Outline>,
    seen: SeenView,
    b: int,
)
    requires
        0 <= b < function.blocks@.len() <= usize::MAX,
        outlines[b].end is Drop,
        fold::flag(reached.live, b as usize, true),
    ensures
        ({
            let raw = extract::spec_scan(build, function, reached, outlines, seen).1;
            tells_drop(raw, b as usize, outlines[b].end->Drop_0)
        }),
{
    let bb = b as usize;
    let before = entries_of_a_block(build, function, reached, outlines, seen, b);
    let raw = extract::scanned(
        build,
        function,
        reached,
        outlines,
        seen,
        RawView::nothing(extract::resuming_blocks(function)),
        function.blocks@.len(),
    ).1;
    let done = extract::settled_certain(function, reached, raw);
    let glue = outlines[b].end->Drop_0;
    let at = end_of(build, function, outlines, b);
    let part = extract::with_drop(before, at, glue);
    let n = before.calls.len() as int;
    none_of_a_block(before, part, at, bb);
    what_is_left_lasts(function, reached, raw, part, bb);
    match glue {
        Glue::Unsettled => {
            assert(has_call(part, bb, n, None, EdgeKind::Unresolved, false));
            a_told_call_lasts(part, done, bb, None, EdgeKind::Unresolved, false);
        },
        Glue::Nothing => {},
        Glue::Open(_) => {
            assert(has_call(part, bb, n, None, EdgeKind::Generic, false));
            a_told_call_lasts(part, done, bb, None, EdgeKind::Generic, false);
        },
        Glue::Object(ty, impls) => {
            let display = "drop glue for "@ + ty@;
            an_edge_adds(before, at, None, display, EdgeKind::Vtable, false);
            let first = before.with_plain_edge(at, None, display, EdgeKind::Vtable, false);
            candidates_add(first, at, impls@, true, impls@.len());
            assert(part.calls[n] == first.calls[n]);
            assert(has_call(part, bb, n, None, EdgeKind::Vtable, false));
            a_told_call_lasts(part, done, bb, None, EdgeKind::Vtable, false);
            assert forall|k: int|
                0 <= k < impls@.len() && !(#[trigger] impls@[k]).generic && impls@[k].needs_drop
                    && impls@[k].target is Some && impls@[k].target->0.key is Some implies names(
                done,
                bb,
                impls@[k],
            ) by {
                let m = choose|m: int|
                    first.calls.len() <= m < part.calls.len() && is_candidate(
                        #[trigger] part.calls[m],
                        impls@[k],
                    );
                assert(part.call_blocks[m] == bb);
                assert(names(part, bb, impls@[k]));
                naming_lasts(part, done, bb, impls@[k]);
            }
        },
        Glue::Own(named) => {
            let key = model::key_view(named.key);
            assert(has_call(part, bb, n, key, EdgeKind::Drop, false));
            a_told_call_lasts(part, done, bb, key, EdgeKind::Drop, false);
        },
    }
}

/// Inline assembly that may unwind is recorded as foreign code that unwinds,
/// and assembly that may not leaves no entry.
pub proof fn assembly_is_recorded(
    build: Build,
    function: Function,
    reached: Reached,
    outlines: Seq<Outline>,
    seen: SeenView,
    b: int,
)
    requires
        0 <= b < function.blocks@.len() <= usize::MAX,
        outlines[b].end is Assembly,
        fold::flag(reached.live, b as usize, true),
    ensures
        ({
            let raw = extract::spec_scan(build, function, reached, outlines, seen).1;
            if outlines[b].end->Assembly_0 {
                raises_so(raw, b as usize, Category::Foreign, Termination::Unwind)
            } else {
                has_nothing(raw, b as usize)
            }
        }),
{
    let bb = b as usize;
    let before = entries_of_a_block(build, function, reached, outlines, seen, b);
    let raw = extract::scanned(
        build,
        function,
        reached,
        outlines,
        seen,
        RawView::nothing(extract::resuming_blocks(function)),
        function.blocks@.len(),
    ).1;
    let done = extract::settled_certain(function, reached, raw);
    let unwinds = outlines[b].end->Assembly_0;
    let at = end_of(build, function, outlines, b);
    let part = extract::with_assembly(before, at, unwinds);
    none_of_a_block(before, part, at, bb);
    what_is_left_lasts(function, reached, raw, part, bb);
    if unwinds {
        assert(has_site(
            part,
            bb,
            before.sites.len() as int,
            Category::Foreign,
            Termination::Unwind,
        ));
        a_told_site_lasts(part, done, bb, Category::Foreign, Termination::Unwind);
    }
}

/// Whether a panic out of a block's end unwinds into another block: its
/// terminator names that block as its cleanup path, and the build unwinds.
pub open spec fn unwinds_into(build: Build, function: Function, b: usize, to: usize) -> bool {
    build.unwinds && match function.blocks@[b as int].terminator {
        Some(Terminator::Assert(check)) => check.unwind == Unwind::Cleanup(to),
        Some(Terminator::Call(call)) => call.unwind == Unwind::Cleanup(to),
        Some(Terminator::Drop(_, _, _, unwind)) => unwind == Unwind::Cleanup(to),
        Some(Terminator::Assembly(_, unwind)) => unwind == Unwind::Cleanup(to),
        _ => false,
    }
}

/// Whether a panic out of a block's end can leave the function: it passes no
/// cleanup, or one that resumes it.
pub open spec fn gets_out(build: Build, function: Function, b: usize) -> bool {
    build.unwinds && match function.blocks@[b as int].terminator {
        Some(Terminator::Assert(check)) => passes(function, check.unwind),
        Some(Terminator::Call(call)) => passes(function, call.unwind),
        Some(Terminator::Drop(_, _, _, unwind)) => passes(function, unwind),
        Some(Terminator::Assembly(_, unwind)) => passes(function, unwind),
        Some(Terminator::TailCall(_)) => true,
        _ => false,
    }
}

/// Whether a panic that takes a path out of a terminator can leave the
/// function. A cleanup block that is not there is taken to resume.
pub open spec fn passes(function: Function, unwind: Unwind) -> bool {
    match unwind {
        Unwind::Continue => true,
        Unwind::Cleanup(to) => to >= function.blocks@.len() || crate::flow::can_resume(
            function,
            to as int,
        ),
        _ => false,
    }
}

/// Whether each entry of a record has the cleanup path of the block it is of,
/// and no other, as far as entries can be numbered; and says whether a panic
/// out of it stays in the function.
pub open spec fn led(raw: RawView, build: Build, function: Function) -> bool {
    &&& forall|m: int, to: usize|
        0 <= m < raw.sites.len() && m < u32::MAX && unwinds_into(
            build,
            function,
            raw.site_blocks[m],
            to,
        ) ==> raw.unwind_edges.contains(#[trigger] from_site(m, to))
    &&& forall|m: int, to: usize|
        0 <= m < raw.calls.len() && m < u32::MAX && unwinds_into(
            build,
            function,
            raw.call_blocks[m],
            to,
        ) ==> raw.unwind_edges.contains(#[trigger] from_call(m, to))
    &&& forall|k: int|
        0 <= k < raw.unwind_edges.len() ==> belongs(raw, build, function, #[trigger] raw.unwind_edges[k])
    &&& forall|m: int|
        0 <= m < raw.sites.len() ==> (#[trigger] raw.sites[m]).terminates == !gets_out(
            build,
            function,
            raw.site_blocks[m],
        )
    &&& forall|m: int|
        0 <= m < raw.calls.len() ==> (#[trigger] raw.calls[m]).terminates == !gets_out(
            build,
            function,
            raw.call_blocks[m],
        )
}

/// Whether an edge is the cleanup path of an entry of a record.
pub open spec fn belongs(raw: RawView, build: Build, function: Function, edge: UnwindEdge) -> bool {
    match edge.origin {
        UnwindOrigin::Site(m) => m == u32::MAX || m < raw.sites.len() && unwinds_into(
            build,
            function,
            raw.site_blocks[m as int],
            edge.target,
        ),
        UnwindOrigin::Call(m) => m == u32::MAX || m < raw.calls.len() && unwinds_into(
            build,
            function,
            raw.call_blocks[m as int],
            edge.target,
        ),
    }
}

proof fn adding_leads(a: RawView, b: RawView, at: At, build: Build, function: Function)
    requires
        adds(a, b, at),
        led(a, build, function),
        a.resuming == extract::resuming_blocks(function),
        at.bb < function.blocks@.len(),
        at.unwind == extract::spec_unwind_of(
            build.unwinds,
            extract::unwinds_to(function.blocks@[at.bb as int].terminator),
        ),
    ensures
        led(b, build, function),
{
    assert(a.leaves(at.unwind) == gets_out(build, function, at.bb));
    assert forall|to: usize| unwinds_into(build, function, at.bb, to) == (at.unwind
        == Unwind::Cleanup(to)) by {}
    assert forall|m: int, to: usize|
        0 <= m < b.sites.len() && m < u32::MAX && unwinds_into(
            build,
            function,
            b.site_blocks[m],
            to,
        ) implies b.unwind_edges.contains(#[trigger] from_site(m, to)) by {
        if m < a.sites.len() {
            assert(b.sites[m] == a.sites[m]);
            let e = from_site(m, to);
            assert(a.unwind_edges.contains(e));
            let k = choose|k: int| 0 <= k < a.unwind_edges.len() && a.unwind_edges[k] == e;
            assert(b.unwind_edges[k] == e);
        } else {
            assert(b.site_blocks[m] == at.bb);
            assert(at.unwind == Unwind::Cleanup(to));
        }
    }
    assert forall|m: int, to: usize|
        0 <= m < b.calls.len() && m < u32::MAX && unwinds_into(
            build,
            function,
            b.call_blocks[m],
            to,
        ) implies b.unwind_edges.contains(#[trigger] from_call(m, to)) by {
        if m < a.calls.len() {
            assert(b.calls[m] == a.calls[m]);
            let e = from_call(m, to);
            assert(a.unwind_edges.contains(e));
            let k = choose|k: int| 0 <= k < a.unwind_edges.len() && a.unwind_edges[k] == e;
            assert(b.unwind_edges[k] == e);
        } else {
            assert(b.call_blocks[m] == at.bb);
            assert(at.unwind == Unwind::Cleanup(to));
        }
    }
    assert forall|k: int| 0 <= k < b.unwind_edges.len() implies belongs(
        b,
        build,
        function,
        #[trigger] b.unwind_edges[k],
    ) by {
        let e = b.unwind_edges[k];
        if k < a.unwind_edges.len() {
            assert(e == a.unwind_edges[k]);
            assert(belongs(a, build, function, a.unwind_edges[k]));
            match e.origin {
                UnwindOrigin::Site(m) => {
                    if m < a.sites.len() {
                        assert(b.sites[m as int] == a.sites[m as int]);
                    }
                },
                UnwindOrigin::Call(m) => {
                    if m < a.calls.len() {
                        assert(b.calls[m as int] == a.calls[m as int]);
                    }
                },
            }
        } else {
            assert(leads(a, b, at, e));
            match e.origin {
                UnwindOrigin::Site(m) => {
                    if m < b.sites.len() && m >= a.sites.len() {
                        assert(b.site_blocks[m as int] == at.bb);
                    }
                },
                UnwindOrigin::Call(m) => {
                    if m < b.calls.len() && m >= a.calls.len() {
                        assert(b.call_blocks[m as int] == at.bb);
                    }
                },
            }
        }
    }
    assert forall|m: int| 0 <= m < b.sites.len() implies (#[trigger] b.sites[m]).terminates
        == !gets_out(build, function, b.site_blocks[m]) by {
        if m < a.sites.len() {
            assert(b.sites[m] == a.sites[m]);
            assert(a.sites[m].terminates == !gets_out(build, function, a.site_blocks[m]));
        } else {
            assert(b.site_blocks[m] == at.bb);
        }
    }
    assert forall|m: int| 0 <= m < b.calls.len() implies (#[trigger] b.calls[m]).terminates
        == !gets_out(build, function, b.call_blocks[m]) by {
        if m < a.calls.len() {
            assert(b.calls[m] == a.calls[m]);
            assert(a.calls[m].terminates == !gets_out(build, function, a.call_blocks[m]));
        } else {
            assert(b.call_blocks[m] == at.bb);
        }
    }
}

proof fn reading_leads(
    build: Build,
    function: Function,
    reached: Reached,
    outlines: Seq<Outline>,
    seen: SeenView,
    n: nat,
)
    requires
        n <= function.blocks@.len() <= usize::MAX,
    ensures
        ({
            let raw = extract::scanned(
                build,
                function,
                reached,
                outlines,
                seen,
                RawView::nothing(extract::resuming_blocks(function)),
                n,
            ).1;
            led(raw, build, function)
        }),
    decreases n,
{
    let first = RawView::nothing(extract::resuming_blocks(function));
    if n > 0 {
        reading_leads(build, function, reached, outlines, seen, (n - 1) as nat);
        reading_in_order(build, function, reached, outlines, seen, first, (n - 1) as nat);
        let (s, r) = extract::scanned(
            build,
            function,
            reached,
            outlines,
            seen,
            first,
            (n - 1) as nat,
        );
        let b = n - 1;
        if fold::flag(reached.live, b as usize, true) {
            let outline = outlines[b];
            notes_leave_entries(s, r, outline.notes@, outline.notes@.len());
            let with = extract::with_notes(s, r, outline.notes@, outline.notes@.len()).1;
            let at = end_of(build, function, outlines, b);
            assert(led(with, build, function)) by {
                assert forall|k: int| 0 <= k < with.unwind_edges.len() implies belongs(
                    with,
                    build,
                    function,
                    #[trigger] with.unwind_edges[k],
                ) by {
                    assert(belongs(r, build, function, r.unwind_edges[k]));
                }
            }
            an_end_adds(with, build, reached, outline, at);
            adding_leads(
                with,
                extract::with_end(with, build, reached, outline, at),
                at,
                build,
                function,
            );
        }
    }
}

/// Each entry a body is recorded with has the cleanup path of the terminator it
/// comes from, and none has another: what unwinds out of a check, a call, a
/// drop or assembly goes where its terminator says, and goes nowhere in a
/// build that aborts. An entry says it stays in the function exactly where no
/// panic out of it gets past its cleanup.
pub proof fn entries_have_their_cleanup(
    build: Build,
    function: Function,
    reached: Reached,
    outlines: Seq<Outline>,
    seen: SeenView,
)
    requires
        function.blocks@.len() <= usize::MAX,
    ensures
        led(extract::spec_scan(build, function, reached, outlines, seen).1, build, function),
{
    let n = function.blocks@.len();
    reading_leads(build, function, reached, outlines, seen, n);
    let raw = extract::scanned(
        build,
        function,
        reached,
        outlines,
        seen,
        RawView::nothing(extract::resuming_blocks(function)),
        n,
    ).1;
    let done = extract::settled_certain(function, reached, raw);
    assert forall|m: int, to: usize|
        0 <= m < done.sites.len() && m < u32::MAX && unwinds_into(
            build,
            function,
            done.site_blocks[m],
            to,
        ) implies done.unwind_edges.contains(#[trigger] from_site(m, to)) by {
        assert(raw.unwind_edges.contains(from_site(m, to)));
    }
    assert forall|k: int| 0 <= k < done.unwind_edges.len() implies belongs(
        done,
        build,
        function,
        #[trigger] done.unwind_edges[k],
    ) by {
        assert(belongs(raw, build, function, raw.unwind_edges[k]));
    }
    assert forall|m: int| 0 <= m < done.sites.len() implies (#[trigger] done.sites[m]).terminates
        == !gets_out(build, function, done.site_blocks[m]) by {
        assert(raw.sites[m].terminates == !gets_out(build, function, raw.site_blocks[m]));
    }
}

} // verus!
