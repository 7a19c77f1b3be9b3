//! The merged call graph.
//!
//! The driver emits one [`Artifact`] per crate. Merging them yields a single
//! graph in which every function has a dense index, which keeps the solver's
//! state in flat vectors.

use vstd::prelude::*;

use crate::lists;
use crate::lists::Order;
use crate::model;
use crate::model::{
    Artifact, ArtifactView, Body, BodyView, BuildConfig, CallSite, CallView, ConfigView, FuncKey,
    Guard, GuardView, Reified, ReifiedView, SiteView, UnwindOrigin,
};
use crate::table;
use crate::table::Table;
use crate::text;

verus! {

/// A dense index into [`Graph`].
#[derive(Debug, Clone, Copy, PartialEq, Eq, Hash, PartialOrd, Ord, Structural)]
pub struct FuncId(pub u32);

impl FuncId {
    /// The index as a `usize`, for slicing.
    pub fn index(self) -> (r: usize)
        ensures
            r == self.0,
    {
        self.0 as usize
    }

    /// A dense index turned into an identifier.
    ///
    /// A graph that large cannot be built in the first place, so clamping is
    /// only here to keep the conversion total.
    pub fn from_index(index: usize) -> (r: FuncId)
        ensures
            r.0 == (if index <= u32::MAX {
                index as int
            } else {
                u32::MAX as int
            }),
    {
        if index <= 0xffff_ffff {
            FuncId(index as u32)
        } else {
            FuncId(u32::MAX)
        }
    }
}

/// Whether the body at an index has a key.
pub open spec fn keyed(bodies: Seq<BodyView>, key: Seq<char>, i: int) -> bool {
    0 <= i < bodies.len() && bodies[i].key == key
}

/// Whether some body has a key.
pub open spec fn has_key(bodies: Seq<BodyView>, key: Seq<char>) -> bool {
    exists|i: int| keyed(bodies, key, i)
}

/// The index of the body that has a key.
pub open spec fn slot(bodies: Seq<BodyView>, key: Seq<char>) -> int {
    choose|i: int| keyed(bodies, key, i)
}

/// Whether no two bodies share a key.
pub open spec fn distinct(bodies: Seq<BodyView>) -> bool {
    forall|i: int, j: int|
        0 <= i < bodies.len() && 0 <= j < bodies.len() && (#[trigger] bodies[i]).key == (
        #[trigger] bodies[j]).key ==> i == j
}

/// Whether a record of a function replaces the one already there.
///
/// A real body always beats a placeholder, whichever crate each was seen in,
/// and between two of a kind a local definition beats a copy observed from a
/// downstream crate.
pub open spec fn upgrades(existing: BodyView, body: BodyView) -> bool {
    if existing.opaque != body.opaque {
        existing.opaque
    } else {
        !existing.local && body.local
    }
}

/// A list of bodies after one more record was seen.
pub open spec fn with_body(bodies: Seq<BodyView>, body: BodyView) -> Seq<BodyView> {
    if has_key(bodies, body.key) {
        let i = slot(bodies, body.key);
        if upgrades(bodies[i], body) {
            bodies.update(i, body)
        } else {
            bodies
        }
    } else {
        bodies.push(body)
    }
}

/// The bodies that remain of a list of records, in the order in which their
/// keys were first seen.
pub open spec fn merged(records: Seq<BodyView>) -> Seq<BodyView>
    decreases records.len(),
{
    if records.len() == 0 {
        Seq::empty()
    } else {
        with_body(merged(records.drop_last()), records.last())
    }
}

/// The records of a list of artifacts, in order.
pub open spec fn all_bodies(artifacts: Seq<ArtifactView>) -> Seq<BodyView>
    decreases artifacts.len(),
{
    if artifacts.len() == 0 {
        Seq::empty()
    } else {
        all_bodies(artifacts.drop_last()) + artifacts.last().bodies
    }
}

/// The functions that a list of artifacts saw become pointers, in order.
pub open spec fn all_reified(artifacts: Seq<ArtifactView>) -> Seq<ReifiedView>
    decreases artifacts.len(),
{
    if artifacts.len() == 0 {
        Seq::empty()
    } else {
        all_reified(artifacts.drop_last()) + artifacts.last().reified
    }
}

/// What a call through a pointer is if the pointer is to a given function.
pub open spec fn candidate(call: CallView, target: ReifiedView) -> CallView {
    CallView {
        callee: Some(target.key),
        callee_display: target.display,
        candidate: true,
        sig: None,
        ..call
    }
}

/// What one call could be, each with the index of the call.
pub open spec fn candidates_of(call: CallView, at: int, reified: Seq<ReifiedView>) -> Seq<
    (int, CallView),
>
    decreases reified.len(),
{
    if call.sig is None || reified.len() == 0 {
        Seq::empty()
    } else {
        let rest = candidates_of(call, at, reified.drop_last());
        if reified.last().sig == call.sig->0 {
            rest.push((at, candidate(call, reified.last())))
        } else {
            rest
        }
    }
}

/// What the calls of a body could be, each with the index of its call.
pub open spec fn candidates(calls: Seq<CallView>, reified: Seq<ReifiedView>) -> Seq<(int, CallView)>
    decreases calls.len(),
{
    if calls.len() == 0 {
        Seq::empty()
    } else {
        candidates(calls.drop_last(), reified) + candidates_of(
            calls.last(),
            calls.len() - 1,
            reified,
        )
    }
}

/// The unwind origins of a point once the candidates of a body's calls stand
/// behind its `first` calls.
///
/// A candidate unwinds into the cleanup that its call unwinds into.
pub open spec fn joined_origins(
    origins: Seq<UnwindOrigin>,
    extra: Seq<(int, CallView)>,
    first: int,
) -> Seq<UnwindOrigin>
    decreases extra.len(),
{
    if extra.len() == 0 {
        origins
    } else {
        let rest = joined_origins(origins, extra.drop_last(), first);
        if origins.contains(UnwindOrigin::Call(extra.last().0 as u32)) {
            rest.push(UnwindOrigin::Call((first + extra.len() - 1) as u32))
        } else {
            rest
        }
    }
}

/// A guard once the candidates of a body's calls stand behind its calls.
pub open spec fn widened(guard: GuardView, extra: Seq<(int, CallView)>, first: int) -> GuardView {
    GuardView { normal: guard.normal, origins: joined_origins(guard.origins, extra, first) }
}

/// The calls of a body with the candidates behind them.
pub open spec fn expanded_calls(calls: Seq<CallView>, reified: Seq<ReifiedView>) -> Seq<CallView> {
    calls + candidates(calls, reified).map_values(|p: (int, CallView)| p.1)
}

/// A body with the candidates of its calls through pointers.
///
/// A reachable function reified to a pointer of the right signature is what
/// such a call could be. The edges are marked as candidates, so following
/// them stays the caller's choice, and the unresolved edge stays alongside
/// them either way.
pub open spec fn expanded(body: BodyView, reified: Seq<ReifiedView>) -> BodyView {
    let extra = candidates(body.calls, reified);
    let first = body.calls.len() as int;
    BodyView {
        sites: body.sites.map_values(
            |s: SiteView| SiteView { guard: widened(s.guard, extra, first), ..s },
        ),
        calls: expanded_calls(body.calls, reified).map_values(
            |c: CallView| CallView { guard: widened(c.guard, extra, first), ..c },
        ),
        ..body
    }
}

/// The calls of a list of bodies, in order.
pub open spec fn all_calls(bodies: Seq<BodyView>) -> Seq<CallView>
    decreases bodies.len(),
{
    if bodies.len() == 0 {
        Seq::empty()
    } else {
        all_calls(bodies.drop_last()) + bodies.last().calls
    }
}

/// The crate a readable path starts with.
pub open spec fn crate_of(display: Seq<char>) -> Seq<char> {
    if text::holds(display, "::"@) {
        display.take(text::first_at(display, "::"@))
    } else {
        display
    }
}

/// A list of bodies with a placeholder for each callee that has none.
pub open spec fn with_callees(bodies: Seq<BodyView>, calls: Seq<CallView>) -> Seq<BodyView>
    decreases calls.len(),
{
    if calls.len() == 0 {
        bodies
    } else {
        let rest = with_callees(bodies, calls.drop_last());
        let call = calls.last();
        if call.callee is Some && !has_key(rest, call.callee->0) {
            rest.push(
                model::opaque_body(
                    call.callee->0,
                    call.callee_display,
                    crate_of(call.callee_display),
                ),
            )
        } else {
            rest
        }
    }
}

/// The bodies of a list of artifacts before placeholders are added.
pub open spec fn recorded(artifacts: Seq<ArtifactView>) -> Seq<BodyView> {
    merged(all_bodies(artifacts)).map_values(|b: BodyView| expanded(b, all_reified(artifacts)))
}

/// The bodies of the graph that a list of artifacts makes.
pub open spec fn graph_of(artifacts: Seq<ArtifactView>) -> Seq<BodyView> {
    with_callees(recorded(artifacts), all_calls(recorded(artifacts)))
}

/// Whether every callee that a body names has a body.
pub open spec fn complete(bodies: Seq<BodyView>) -> bool {
    forall|i: int, j: int|
        0 <= i < bodies.len() && 0 <= j < bodies[i].calls.len() && (
        #[trigger] bodies[i].calls[j]).callee is Some ==> has_key(bodies, bodies[i].calls[j].callee->0)
}

/// Whether every call of a body, and every candidate behind its calls, has a
/// number that an unwind origin can hold. A body without candidates is left as
/// it is.
pub open spec fn numbered(body: BodyView, reified: Seq<ReifiedView>) -> bool {
    let extra = candidates(body.calls, reified).len();
    extra > 0 ==> body.calls.len() + extra <= u32::MAX
}

/// Whether every function of a build can have an index of its own, and every
/// call of each a number of its own.
pub open spec fn indexable(artifacts: Seq<ArtifactView>) -> bool {
    let plain = merged(all_bodies(artifacts));
    &&& forall|i: int|
        0 <= i < plain.len() ==> numbered(#[trigger] plain[i], all_reified(artifacts))
    &&& graph_of(artifacts).len() <= u32::MAX
}

/// What a list of artifacts says.
pub open spec fn artifact_views(artifacts: Seq<Artifact>) -> Seq<ArtifactView> {
    artifacts.map_values(|a: Artifact| a@)
}

/// Whether a body calls the body at an index.
pub open spec fn calls_to(bodies: Seq<BodyView>, caller: int, target: int) -> bool {
    &&& 0 <= caller < bodies.len()
    &&& 0 <= target < bodies.len()
    &&& exists|j: int|
        0 <= j < bodies[caller].calls.len() && (#[trigger] bodies[caller].calls[j]).callee == Some(
            bodies[target].key,
        )
}

/// Merging keeps keys distinct.
pub proof fn merged_is_distinct(records: Seq<BodyView>)
    ensures
        distinct(merged(records)),
    decreases records.len(),
{
    if records.len() > 0 {
        merged_is_distinct(records.drop_last());
        with_body_is_distinct(merged(records.drop_last()), records.last());
    }
}

proof fn with_body_is_distinct(bodies: Seq<BodyView>, body: BodyView)
    requires
        distinct(bodies),
    ensures
        distinct(with_body(bodies, body)),
        forall|key: Seq<char>|
            has_key(with_body(bodies, body), key) <==> has_key(bodies, key) || key == body.key,
{
    let after = with_body(bodies, body);
    if has_key(bodies, body.key) {
        let i = slot(bodies, body.key);
        assert(keyed(bodies, body.key, i));
        assert forall|key: Seq<char>| has_key(after, key) <==> has_key(bodies, key) || key
            == body.key by {
            if has_key(after, key) {
                let k = slot(after, key);
                assert(keyed(after, key, k));
                assert(keyed(bodies, key, k));
            }
            if has_key(bodies, key) {
                let k = slot(bodies, key);
                assert(keyed(bodies, key, k));
                assert(keyed(after, key, k));
            }
        }
    } else {
        assert forall|key: Seq<char>| has_key(after, key) <==> has_key(bodies, key) || key
            == body.key by {
            if has_key(after, key) {
                let k = slot(after, key);
                assert(keyed(after, key, k));
                if k < bodies.len() {
                    assert(keyed(bodies, key, k));
                }
            }
            if has_key(bodies, key) {
                let k = slot(bodies, key);
                assert(keyed(bodies, key, k));
                assert(keyed(after, key, k));
            }
            if key == body.key {
                assert(keyed(after, key, bodies.len() as int));
            }
        }
        assert forall|i: int, j: int|
            0 <= i < after.len() && 0 <= j < after.len() && (#[trigger] after[i]).key == (
            #[trigger] after[j]).key implies i == j by {
            if i < bodies.len() && j == bodies.len() {
                assert(keyed(bodies, body.key, i));
            }
            if j < bodies.len() && i == bodies.len() {
                assert(keyed(bodies, body.key, j));
            }
        }
    }
}

/// A function observed in any crate is in the merged list, and nothing else
/// is.
pub proof fn merging_keeps_every_key(records: Seq<BodyView>, key: Seq<char>)
    ensures
        has_key(merged(records), key) <==> has_key(records, key),
    decreases records.len(),
{
    if records.len() > 0 {
        let front = records.drop_last();
        merging_keeps_every_key(front, key);
        merged_is_distinct(front);
        with_body_is_distinct(merged(front), records.last());
        if has_key(records, key) {
            let k = slot(records, key);
            assert(keyed(records, key, k));
            if k < front.len() {
                assert(keyed(front, key, k));
            }
        }
        if has_key(front, key) {
            let k = slot(front, key);
            assert(keyed(front, key, k));
            assert(keyed(records, key, k));
        }
        if key == records.last().key {
            assert(keyed(records, key, records.len() - 1));
        }
    } else {
        assert(!has_key(merged(records), key));
        assert(!has_key(records, key));
    }
}

/// The richest record wins: what is kept for a key is one of its records, it
/// is a real body if any of them is, and among those of its kind it is local
/// if any of them is.
pub proof fn richest_record_wins(records: Seq<BodyView>, i: int, k: int)
    requires
        0 <= i < merged(records).len(),
        0 <= k < records.len(),
        records[k].key == merged(records)[i].key,
    ensures
        records.contains(merged(records)[i]),
        merged(records)[i].opaque ==> records[k].opaque,
        merged(records)[i].opaque == records[k].opaque && records[k].local
            ==> merged(records)[i].local,
    decreases records.len(),
{
    let front = records.drop_last();
    let was = merged(front);
    let last = records.last();
    merged_is_distinct(front);
    merged_is_distinct(records);
    merging_keeps_every_key(front, last.key);
    let key = merged(records)[i].key;
    if has_key(was, last.key) {
        let at = slot(was, last.key);
        assert(keyed(was, last.key, at));
        if i == at {
            let old_k = slot(front, last.key);
            assert(keyed(front, last.key, old_k));
            richest_record_wins(front, i, old_k);
            if k < front.len() {
                richest_record_wins(front, i, k);
            }
            let m = choose|m: int| 0 <= m < front.len() && front[m] == was[at];
            assert(records[m] == was[at]);
            assert(records[records.len() - 1] == last);
        } else {
            assert(k < front.len());
            richest_record_wins(front, i, k);
            let m = choose|m: int| 0 <= m < front.len() && front[m] == was[i];
            assert(records[m] == was[i]);
        }
    } else if i == was.len() {
        assert(records[records.len() - 1] == last);
        if k < front.len() {
            assert(keyed(front, last.key, k));
        }
    } else {
        if k == front.len() {
            assert(keyed(was, last.key, i));
        }
        richest_record_wins(front, i, k);
        let m = choose|m: int| 0 <= m < front.len() && front[m] == was[i];
        assert(records[m] == was[i]);
    }
}

/// Adding placeholders keeps what was there, and adds only what is missing.
proof fn callees_are_added(bodies: Seq<BodyView>, calls: Seq<CallView>)
    requires
        distinct(bodies),
    ensures
        distinct(with_callees(bodies, calls)),
        with_callees(bodies, calls).len() >= bodies.len(),
        with_callees(bodies, calls).len() <= bodies.len() + calls.len(),
        with_callees(bodies, calls).take(bodies.len() as int) == bodies,
        forall|i: int|
            bodies.len() <= i < with_callees(bodies, calls).len() ==> {
                &&& (#[trigger] with_callees(bodies, calls)[i]).opaque
                &&& with_callees(bodies, calls)[i].calls.len() == 0
                &&& with_callees(bodies, calls)[i].sites.len() == 0
                &&& !with_callees(bodies, calls)[i].foreign
            },
        forall|j: int|
            0 <= j < calls.len() && (#[trigger] calls[j]).callee is Some ==> has_key(
                with_callees(bodies, calls),
                calls[j].callee->0,
            ),
    decreases calls.len(),
{
    if calls.len() == 0 {
        assert(bodies.take(bodies.len() as int) =~= bodies);
    } else {
        let front = calls.drop_last();
        callees_are_added(bodies, front);
        let rest = with_callees(bodies, front);
        let call = calls.last();
        let all = with_callees(bodies, calls);
        if call.callee is Some && !has_key(rest, call.callee->0) {
            let fresh = model::opaque_body(
                call.callee->0,
                call.callee_display,
                crate_of(call.callee_display),
            );
            assert(all == with_body(rest, fresh));
            with_body_is_distinct(rest, fresh);
            assert(all.take(bodies.len() as int) =~= bodies) by {
                assert(rest.take(bodies.len() as int) =~= bodies);
            }
        }
        assert forall|j: int| 0 <= j < calls.len() && (#[trigger] calls[j]).callee is Some implies
            has_key(all, calls[j].callee->0) by {
            if j < front.len() {
                assert(front[j] == calls[j]);
                assert(has_key(rest, calls[j].callee->0));
                let k = slot(rest, calls[j].callee->0);
                assert(keyed(rest, calls[j].callee->0, k));
                assert(keyed(all, calls[j].callee->0, k));
            }
        }
    }
}

proof fn all_calls_hold(bodies: Seq<BodyView>, i: int, j: int)
    requires
        0 <= i < bodies.len(),
        0 <= j < bodies[i].calls.len(),
    ensures
        exists|k: int|
            0 <= k < all_calls(bodies).len() && #[trigger] all_calls(bodies)[k]
                == bodies[i].calls[j],
    decreases bodies.len(),
{
    let front = bodies.drop_last();
    let before = all_calls(front);
    if i == bodies.len() - 1 {
        let k = before.len() + j;
        assert(all_calls(bodies)[k] == bodies[i].calls[j]);
    } else {
        all_calls_hold(front, i, j);
        let k = choose|k: int| 0 <= k < before.len() && #[trigger] before[k] == front[i].calls[j];
        assert(all_calls(bodies)[k] == bodies[i].calls[j]);
    }
}

/// Every function that a graph's bodies call has a body in it: one that no
/// artifact recorded is an opaque placeholder, so it is unknown rather than
/// taken for clean.
pub proof fn graphs_are_complete(artifacts: Seq<ArtifactView>)
    ensures
        distinct(graph_of(artifacts)),
        complete(graph_of(artifacts)),
        graph_of(artifacts).take(recorded(artifacts).len() as int) == recorded(artifacts),
        forall|i: int|
            recorded(artifacts).len() <= i < graph_of(artifacts).len() ==> (#[trigger] graph_of(
                artifacts,
            )[i]).opaque && !graph_of(artifacts)[i].foreign,
{
    let base = recorded(artifacts);
    let all = graph_of(artifacts);
    merged_is_distinct(all_bodies(artifacts));
    assert(distinct(base)) by {
        let m = merged(all_bodies(artifacts));
        assert forall|i: int, j: int|
            0 <= i < base.len() && 0 <= j < base.len() && (#[trigger] base[i]).key == (
            #[trigger] base[j]).key implies i == j by {
            assert(m[i].key == m[j].key);
        }
    }
    callees_are_added(base, all_calls(base));
    assert forall|i: int, j: int|
        0 <= i < all.len() && 0 <= j < all[i].calls.len() && (
        #[trigger] all[i].calls[j]).callee is Some implies has_key(all, all[i].calls[j].callee->0) by {
        if i < base.len() {
            assert(all.take(base.len() as int)[i] == base[i]);
            all_calls_hold(base, i, j);
        }
    }
}

/// Whether a table tells where each key stands in a list of bodies.
spec fn indexed(t: Map<Seq<char>, usize>, bodies: Seq<BodyView>) -> bool {
    &&& forall|key: Seq<char>| #[trigger]
        t.dom().contains(key) ==> keyed(bodies, key, t[key] as int)
    &&& forall|i: int|
        0 <= i < bodies.len() ==> t.dom().contains((#[trigger] bodies[i]).key) && t[bodies[i].key]
            == i
}

proof fn indexed_is_distinct(t: Map<Seq<char>, usize>, bodies: Seq<BodyView>)
    requires
        indexed(t, bodies),
    ensures
        distinct(bodies),
        forall|key: Seq<char>| #[trigger] t.dom().contains(key) <==> has_key(bodies, key),
        forall|key: Seq<char>| #[trigger] t.dom().contains(key) ==> t[key] == slot(bodies, key),
{
    assert forall|key: Seq<char>| #[trigger] t.dom().contains(key) implies t[key] == slot(
        bodies,
        key,
    ) by {
        assert(keyed(bodies, key, t[key] as int));
        let k = slot(bodies, key);
        assert(keyed(bodies, key, k));
        assert(bodies[k].key == key);
    }
    assert forall|key: Seq<char>| #[trigger] t.dom().contains(key) <==> has_key(bodies, key) by {
        if has_key(bodies, key) {
            let k = slot(bodies, key);
            assert(keyed(bodies, key, k));
            assert(bodies[k].key == key);
        }
        if t.dom().contains(key) {
            assert(keyed(bodies, key, t[key] as int));
        }
    }
}

/// The bodies seen so far, and where each of their keys stands.
struct Merge {
    bodies: Vec<Body>,
    by_key: Table,
}

impl Merge {
    spec fn ok(self) -> bool {
        indexed(table::entries(self.by_key), model::body_views(self.bodies@))
    }

    /// Starts with no body.
    fn new() -> (r: Merge)
        ensures
            r.ok(),
            r.bodies@.len() == 0,
    {
        Merge { bodies: Vec::new(), by_key: Table::new() }
    }

    /// Appends a body whose key no body has.
    fn append(&mut self, body: Body)
        requires
            old(self).ok(),
            !has_key(model::body_views(old(self).bodies@), body@.key),
        ensures
            final(self).ok(),
            final(self).bodies@ == old(self).bodies@.push(body),
            model::body_views(final(self).bodies@) == model::body_views(old(self).bodies@).push(
                body@,
            ),
    {
        let ghost views = model::body_views(self.bodies@);
        let ghost t = table::entries(self.by_key);
        proof {
            indexed_is_distinct(t, views);
        }
        let id: usize = self.bodies.len();
        let key = body.key.0.clone();
        self.by_key.insert(key, id);
        self.bodies.push(body);
        proof {
            let now = model::body_views(self.bodies@);
            let u = table::entries(self.by_key);
            assert(now =~= views.push(body@));
            assert forall|k: Seq<char>| #[trigger] u.dom().contains(k) implies keyed(
                now,
                k,
                u[k] as int,
            ) by {
                if k != body@.key {
                    assert(t.dom().contains(k));
                    assert(keyed(views, k, t[k] as int));
                }
            }
            assert forall|i: int| 0 <= i < now.len() implies u.dom().contains(
                (#[trigger] now[i]).key,
            ) && u[now[i].key] == i by {
                if i < views.len() {
                    assert(now[i] == views[i]);
                    assert(keyed(views, views[i].key, i));
                }
            }
        }
    }

    /// Adds or upgrades one body.
    fn insert_body(&mut self, body: Body)
        requires
            old(self).ok(),
        ensures
            final(self).ok(),
            model::body_views(final(self).bodies@) == with_body(
                model::body_views(old(self).bodies@),
                body@,
            ),
    {
        let ghost views = model::body_views(self.bodies@);
        let ghost t = table::entries(self.by_key);
        proof {
            indexed_is_distinct(t, views);
        }
        match self.by_key.get(body.key.0.as_str()) {
            Some(id) => {
                assert(keyed(views, body@.key, id as int));
                assert(views[id as int] == self.bodies@[id as int]@);
                let existing = &self.bodies[id];
                // A real body always beats a placeholder, whichever crate each
                // was seen in, and between two of a kind a local definition
                // beats a copy observed from a downstream crate.
                let upgrade = if existing.opaque != body.opaque {
                    existing.opaque
                } else {
                    !existing.local && body.local
                };
                if upgrade {
                    let ghost seen = body@;
                    self.bodies[id] = body;
                    proof {
                        let now = model::body_views(self.bodies@);
                        assert(now =~= views.update(id as int, seen));
                        assert forall|k: Seq<char>| #[trigger] t.dom().contains(k) implies keyed(
                            now,
                            k,
                            t[k] as int,
                        ) by {
                            assert(keyed(views, k, t[k] as int));
                        }
                        assert forall|i: int| 0 <= i < now.len() implies t.dom().contains(
                            (#[trigger] now[i]).key,
                        ) && t[now[i].key] == i by {
                            assert(views[i].key == now[i].key);
                        }
                    }
                }
            },
            None => {
                self.append(body);
            },
        }
    }
}

proof fn candidates_of_step(call: CallView, at: int, reified: Seq<ReifiedView>, n: int)
    requires
        0 <= n < reified.len(),
    ensures
        candidates_of(call, at, reified.take(n + 1)) == (if call.sig is Some && reified[n].sig
            == call.sig->0 {
            candidates_of(call, at, reified.take(n)).push((at, candidate(call, reified[n])))
        } else {
            candidates_of(call, at, reified.take(n))
        }),
{
    assert(reified.take(n + 1).drop_last() =~= reified.take(n));
    assert(reified.take(n + 1).last() == reified[n]);
}

proof fn candidates_step(calls: Seq<CallView>, reified: Seq<ReifiedView>, n: int)
    requires
        0 <= n < calls.len(),
    ensures
        candidates(calls.take(n + 1), reified) == candidates(calls.take(n), reified)
            + candidates_of(calls[n], n, reified),
{
    assert(calls.take(n + 1).drop_last() =~= calls.take(n));
    assert(calls.take(n + 1).last() == calls[n]);
}

/// A list of candidate calls, and the call each is a candidate of.
spec fn paired(bases: Seq<usize>, extra: Seq<CallSite>, pairs: Seq<(int, CallView)>) -> bool {
    &&& bases.len() == pairs.len()
    &&& extra.len() == pairs.len()
    &&& forall|k: int| 0 <= k < pairs.len() ==> #[trigger] pairs[k] == (bases[k] as int, extra[k]@)
}

/// The candidates of a body's calls through pointers.
fn pointer_candidates(calls: &Vec<CallSite>, reified: &Vec<Reified>) -> (r: (
    Vec<usize>,
    Vec<CallSite>,
))
    ensures
        paired(
            r.0@,
            r.1@,
            candidates(model::call_views(calls@), model::reified_views(reified@)),
        ),
        forall|k: int| 0 <= k < r.0@.len() ==> #[trigger] r.0@[k] < calls@.len(),
{
    let mut bases: Vec<usize> = Vec::new();
    let mut extra: Vec<CallSite> = Vec::new();
    let ghost views = model::call_views(calls@);
    let ghost targets = model::reified_views(reified@);
    let mut i: usize = 0;
    while i < calls.len()
        invariant
            i <= calls@.len(),
            views == model::call_views(calls@),
            targets == model::reified_views(reified@),
            paired(bases@, extra@, candidates(views.take(i as int), targets)),
            forall|k: int| 0 <= k < bases@.len() ==> #[trigger] bases@[k] < calls@.len(),
        decreases calls.len() - i,
    {
        let ghost done = candidates(views.take(i as int), targets);
        let call = &calls[i];
        assert(call@ == views[i as int]);
        match &call.sig {
            Some(sig) => {
                let mut j: usize = 0;
                assert(done + candidates_of(call@, i as int, targets.take(0)) =~= done);
                while j < reified.len()
                    invariant
                        i < calls@.len(),
                        j <= reified@.len(),
                        targets == model::reified_views(reified@),
                        call.sig == Some(*sig),
                        paired(
                            bases@,
                            extra@,
                            done + candidates_of(call@, i as int, targets.take(j as int)),
                        ),
                        forall|k: int| 0 <= k < bases@.len() ==> #[trigger] bases@[k] < calls@.len(),
                    decreases reified.len() - j,
                {
                    let target = &reified[j];
                    proof {
                        candidates_of_step(call@, i as int, targets, j as int);
                        assert(targets[j as int] == target@);
                    }
                    let ghost pairs = done + candidates_of(
                        call@,
                        i as int,
                        targets.take(j as int),
                    );
                    if text::same(target.sig.as_str(), sig.as_str()) {
                        let mut made = call.clone();
                        made.callee = Some(target.key.clone());
                        made.callee_display = target.display.clone();
                        made.candidate = true;
                        made.sig = None;
                        assert(made@ =~= candidate(call@, target@));
                        bases.push(i);
                        extra.push(made);
                        assert(pairs.push((i as int, candidate(call@, target@))) =~= done
                            + candidates_of(call@, i as int, targets.take(j + 1)));
                    }
                    j += 1;
                }
                assert(targets.take(j as int) =~= targets);
            },
            None => {
                assert(candidates_of(call@, i as int, targets) =~= Seq::empty());
                assert(done + candidates_of(call@, i as int, targets) =~= done);
            },
        }
        proof {
            candidates_step(views, targets, i as int);
        }
        i += 1;
    }
    assert(views.take(i as int) =~= views);
    (bases, extra)
}

proof fn joined_origins_step(
    origins: Seq<UnwindOrigin>,
    extra: Seq<(int, CallView)>,
    first: int,
    n: int,
)
    requires
        0 <= n < extra.len(),
    ensures
        joined_origins(origins, extra.take(n + 1), first) == (if origins.contains(
            UnwindOrigin::Call(extra[n].0 as u32),
        ) {
            joined_origins(origins, extra.take(n), first).push(
                UnwindOrigin::Call((first + n) as u32),
            )
        } else {
            joined_origins(origins, extra.take(n), first)
        }),
{
    assert(extra.take(n + 1).drop_last() =~= extra.take(n));
    assert(extra.take(n + 1).last() == extra[n]);
}

/// Whether a list names the call that each candidate is one of.
spec fn based(bases: Seq<usize>, pairs: Seq<(int, CallView)>, first: int) -> bool {
    &&& bases.len() == pairs.len()
    &&& forall|k: int|
        0 <= k < pairs.len() ==> (#[trigger] pairs[k]).0 == bases[k] && bases[k] < first
}

/// Lets candidates unwind into what their calls unwind into.
fn widen(guard: &mut Guard, bases: &Vec<usize>, first: usize, extra: Ghost<Seq<(int, CallView)>>)
    requires
        based(bases@, extra@, first as int),
        first + bases@.len() <= u32::MAX,
    ensures
        final(guard)@ == widened(old(guard)@, extra@, first as int),
{
    let known: usize = guard.origins.len();
    let ghost origins = guard.origins@;
    let ghost normal = guard.normal;
    let mut k: usize = 0;
    while k < bases.len()
        invariant
            k <= bases@.len(),
            known == origins.len(),
            guard.normal == normal,
            guard.origins@ == joined_origins(origins, extra@.take(k as int), first as int),
            guard.origins@.len() >= known,
            guard.origins@.take(known as int) == origins,
            based(bases@, extra@, first as int),
            first + bases@.len() <= u32::MAX,
        decreases bases.len() - k,
    {
        assert(extra@[k as int].0 == bases@[k as int]);
        let base = UnwindOrigin::Call(bases[k] as u32);
        let mut found = false;
        let mut i: usize = 0;
        while i < known
            invariant
                i <= known <= guard.origins@.len(),
                guard.origins@.take(known as int) == origins,
                known == origins.len(),
                found == origins.take(i as int).contains(base),
            decreases known - i,
        {
            assert(guard.origins@[i as int] == guard.origins@.take(known as int)[i as int]);
            let ghost seen = origins.take(i as int);
            assert(origins.take(i + 1) =~= seen.push(origins[i as int]));
            if guard.origins[i] == base {
                found = true;
                assert(origins.take(i + 1)[i as int] == base);
            }
            proof {
                if seen.contains(base) {
                    let m = choose|m: int| 0 <= m < seen.len() && seen[m] == base;
                    assert(origins.take(i + 1)[m] == base);
                }
                if origins.take(i + 1).contains(base) {
                    let m = choose|m: int|
                        0 <= m < i + 1 && #[trigger] origins.take(i + 1)[m] == base;
                    if m < i {
                        assert(seen[m] == base);
                    }
                }
            }
            i += 1;
        }
        assert(origins.take(i as int) =~= origins);
        proof {
            joined_origins_step(origins, extra@, first as int, k as int);
        }
        if found {
            let ghost was = guard.origins@;
            guard.origins.push(UnwindOrigin::Call((first + k) as u32));
            assert(guard.origins@.take(known as int) =~= was.take(known as int));
        }
        k += 1;
    }
    assert(extra@.take(k as int) =~= extra@);
}

/// Appends candidate edges for calls made through function pointers, unless
/// they cannot be numbered.
fn expand_fn_pointers(body: &mut Body, reified: &Vec<Reified>) -> (r: bool)
    ensures
        r == numbered(old(body)@, model::reified_views(reified@)),
        r ==> final(body)@ == expanded(old(body)@, model::reified_views(reified@)),
{
    let ghost before = body@;
    let ghost targets = model::reified_views(reified@);
    let ghost pairs = candidates(before.calls, targets);
    let first: usize = body.calls.len();
    let (bases, mut extra) = pointer_candidates(&body.calls, reified);
    if extra.len() == 0 {
        proof {
            nothing_is_added(before, targets);
        }
        return true;
    }
    if first > 0xffff_ffff || extra.len() > 0xffff_ffff - first {
        return false;
    }
    let ghost made = extra@;
    body.calls.append(&mut extra);
    let ghost calls = expanded_calls(before.calls, targets);
    assert(model::call_views(body.calls@) =~= calls) by {
        assert forall|k: int| 0 <= k < made.len() implies made[k]@ == pairs.map_values(
            |p: (int, CallView)| p.1,
        )[k] by {
            assert(pairs[k] == (bases@[k] as int, made[k]@));
        }
    }
    assert(based(bases@, pairs, first as int)) by {
        assert forall|k: int| 0 <= k < bases@.len() implies (#[trigger] pairs[k]).0 == bases@[k]
            && bases@[k] < first by {
            assert(pairs[k] == (bases@[k] as int, made[k]@));
        }
    }
    let ghost wide_site = |s: SiteView|
        SiteView { guard: widened(s.guard, pairs, first as int), ..s };
    let ghost wide_call = |c: CallView|
        CallView { guard: widened(c.guard, pairs, first as int), ..c };
    let mut i: usize = 0;
    while i < body.sites.len()
        invariant
            i <= body.sites@.len(),
            body.sites@.len() == before.sites.len(),
            model::call_views(body.calls@) == calls,
            body@ == (BodyView { sites: body@.sites, calls: calls, ..before }),
            based(bases@, pairs, first as int),
            first + bases@.len() <= u32::MAX,
            wide_site == (|s: SiteView|
                SiteView { guard: widened(s.guard, pairs, first as int), ..s }),
            forall|k: int| 0 <= k < i ==> #[trigger] body.sites@[k]@ == wide_site(before.sites[k]),
            forall|k: int|
                i <= k < body.sites@.len() ==> #[trigger] body.sites@[k]@ == before.sites[k],
        decreases body.sites.len() - i,
    {
        let ghost was = body.sites@;
        widen(&mut body.sites[i].guard, &bases, first, Ghost(pairs));
        assert(body.sites@[i as int]@ =~= wide_site(was[i as int]@));
        i += 1;
    }
    assert(model::site_views(body.sites@) =~= before.sites.map_values(wide_site));
    let ghost sites = before.sites.map_values(wide_site);
    let mut j: usize = 0;
    while j < body.calls.len()
        invariant
            j <= body.calls@.len(),
            body.calls@.len() == calls.len(),
            body@ == (BodyView { sites: sites, calls: body@.calls, ..before }),
            based(bases@, pairs, first as int),
            first + bases@.len() <= u32::MAX,
            wide_call == (|c: CallView|
                CallView { guard: widened(c.guard, pairs, first as int), ..c }),
            forall|k: int| 0 <= k < j ==> #[trigger] body.calls@[k]@ == wide_call(calls[k]),
            forall|k: int| j <= k < body.calls@.len() ==> #[trigger] body.calls@[k]@ == calls[k],
        decreases body.calls.len() - j,
    {
        let ghost was = body.calls@;
        widen(&mut body.calls[j].guard, &bases, first, Ghost(pairs));
        assert(body.calls@[j as int]@ =~= wide_call(was[j as int]@));
        j += 1;
    }
    assert(model::call_views(body.calls@) =~= calls.map_values(wide_call));
    true
}

proof fn nothing_is_added(body: BodyView, reified: Seq<ReifiedView>)
    requires
        candidates(body.calls, reified).len() == 0,
    ensures
        expanded(body, reified) == body,
{
    let extra = candidates(body.calls, reified);
    let first = body.calls.len() as int;
    assert(expanded_calls(body.calls, reified) =~= body.calls);
    assert(body.sites.map_values(
        |s: SiteView| SiteView { guard: widened(s.guard, extra, first), ..s },
    ) =~= body.sites);
    assert(body.calls.map_values(
        |c: CallView| CallView { guard: widened(c.guard, extra, first), ..c },
    ) =~= body.calls);
}

proof fn all_bodies_step(artifacts: Seq<ArtifactView>, n: int)
    requires
        0 <= n < artifacts.len(),
    ensures
        all_bodies(artifacts.take(n + 1)) == all_bodies(artifacts.take(n)) + artifacts[n].bodies,
        all_reified(artifacts.take(n + 1)) == all_reified(artifacts.take(n)) + artifacts[n].reified,
{
    assert(artifacts.take(n + 1).drop_last() =~= artifacts.take(n));
    assert(artifacts.take(n + 1).last() == artifacts[n]);
}

proof fn merged_step(before: Seq<BodyView>, list: Seq<BodyView>, n: int)
    requires
        0 <= n < list.len(),
    ensures
        merged(before + list.take(n + 1)) == with_body(merged(before + list.take(n)), list[n]),
{
    assert((before + list.take(n + 1)).drop_last() =~= before + list.take(n));
    assert((before + list.take(n + 1)).last() == list[n]);
}

proof fn all_calls_step(bodies: Seq<BodyView>, n: int)
    requires
        0 <= n < bodies.len(),
    ensures
        all_calls(bodies.take(n + 1)) == all_calls(bodies.take(n)) + bodies[n].calls,
{
    assert(bodies.take(n + 1).drop_last() =~= bodies.take(n));
    assert(bodies.take(n + 1).last() == bodies[n]);
}

/// The crate a readable path starts with.
fn crate_name(display: &str) -> (r: String)
    ensures
        r@ == crate_of(display@),
{
    match text::find(display, "::") {
        Some(at) => {
            proof {
                text::first_at_is(display@, "::"@, at as int);
            }
            display.substring_char(0, at).to_owned()
        },
        None => display.to_owned(),
    }
}

/// Creates opaque placeholders for callees nothing ever defined.
fn materialize_missing_callees(merge: &mut Merge)
    requires
        old(merge).ok(),
    ensures
        final(merge).ok(),
        model::body_views(final(merge).bodies@) == with_callees(
            model::body_views(old(merge).bodies@),
            all_calls(model::body_views(old(merge).bodies@)),
        ),
{
    let ghost base = model::body_views(merge.bodies@);
    let known: usize = merge.bodies.len();
    let mut i: usize = 0;
    assert(all_calls(base.take(0)) =~= Seq::empty());
    while i < known
        invariant
            i <= known == base.len(),
            merge.ok(),
            merge.bodies@.len() >= known,
            model::body_views(merge.bodies@).take(known as int) == base,
            model::body_views(merge.bodies@) == with_callees(base, all_calls(base.take(i as int))),
        decreases known - i,
    {
        let ghost done = all_calls(base.take(i as int));
        let ghost calls = base[i as int].calls;
        assert(model::body_views(merge.bodies@).take(known as int)[i as int] == base[i as int]);
        let mut j: usize = 0;
        assert(done + calls.take(0) =~= done);
        while j < merge.bodies[i].calls.len()
            invariant
                i < known == base.len(),
                merge.ok(),
                merge.bodies@.len() >= known,
                model::body_views(merge.bodies@).take(known as int) == base,
                calls == base[i as int].calls,
                merge.bodies@[i as int]@ == base[i as int],
                j <= calls.len(),
                model::body_views(merge.bodies@) == with_callees(base, done + calls.take(j as int)),
            decreases calls.len() - j,
        {
            let ghost views = model::body_views(merge.bodies@);
            proof {
                indexed_is_distinct(table::entries(merge.by_key), views);
                assert((done + calls.take(j + 1)).drop_last() =~= done + calls.take(j as int));
                assert((done + calls.take(j + 1)).last() == calls[j as int]);
                assert(merge.bodies@[i as int]@.calls[j as int] == calls[j as int]);
            }
            let call = &merge.bodies[i].calls[j];
            match &call.callee {
                Some(key) => {
                    if merge.by_key.get(key.0.as_str()).is_none() {
                        let key = key.clone();
                        let display = call.callee_display.clone();
                        let krate = crate_name(display.as_str());
                        merge.append(Body::opaque(key, display, krate));
                        assert(model::body_views(merge.bodies@).take(known as int) =~= views.take(
                            known as int,
                        ));
                        assert(model::body_views(merge.bodies@)[i as int] == views[i as int]);
                    }
                },
                None => {},
            }
            j += 1;
        }
        assert(calls.take(j as int) =~= calls);
        proof {
            all_calls_step(base, i as int);
        }
        i += 1;
    }
    assert(base.take(i as int) =~= base);
}

/// Whether one of the first `n` calls of a body goes to the body at an index.
spec fn calls_among(bodies: Seq<BodyView>, caller: int, target: int, n: int) -> bool {
    exists|j: int|
        0 <= j < n && (#[trigger] bodies[caller].calls[j]).callee == Some(bodies[target].key)
}

/// Whether a list names the functions below `n` that call a target, in order.
spec fn lists_callers(list: Seq<FuncId>, bodies: Seq<BodyView>, target: int, n: int) -> bool {
    &&& forall|a: int, b: int| 0 <= a < b < list.len() ==> (#[trigger] list[a]).0 < (#[trigger] list[b]).0
    &&& forall|a: int|
        0 <= a < list.len() ==> (#[trigger] list[a]).0 < n && calls_to(
            bodies,
            list[a].0 as int,
            target,
        )
    &&& forall|c: int|
        0 <= c < n && #[trigger] calls_to(bodies, c, target) ==> list.contains(FuncId(c as u32))
}

/// As [`lists_callers`], with the first `m` calls of one more function.
spec fn lists_callers_up_to(
    list: Seq<FuncId>,
    bodies: Seq<BodyView>,
    target: int,
    n: int,
    m: int,
) -> bool {
    if calls_among(bodies, n, target, m) {
        list.len() > 0 && list.last() == FuncId(n as u32) && lists_callers(
            list.drop_last(),
            bodies,
            target,
            n,
        )
    } else {
        lists_callers(list, bodies, target, n)
    }
}

/// Builds the caller index used to drive the solver's worklist.
fn build_reverse_edges(bodies: &Vec<Body>, by_key: &Table) -> (callers: Vec<Vec<FuncId>>)
    requires
        indexed(table::entries(*by_key), model::body_views(bodies@)),
        bodies@.len() <= u32::MAX,
    ensures
        callers@.len() == bodies@.len(),
        forall|t: int|
            0 <= t < callers@.len() ==> lists_callers(
                #[trigger] callers@[t]@,
                model::body_views(bodies@),
                t,
                bodies@.len() as int,
            ),
{
    let ghost views = model::body_views(bodies@);
    let ghost t = table::entries(*by_key);
    let mut callers: Vec<Vec<FuncId>> = Vec::new();
    let mut n: usize = 0;
    while n < bodies.len()
        invariant
            n <= bodies@.len(),
            callers@.len() == n,
            forall|t: int| 0 <= t < n ==> (#[trigger] callers@[t])@.len() == 0,
        decreases bodies.len() - n,
    {
        callers.push(Vec::new());
        n += 1;
    }
    let mut i: usize = 0;
    while i < bodies.len()
        invariant
            i <= bodies@.len() <= u32::MAX,
            views == model::body_views(bodies@),
            t == table::entries(*by_key),
            indexed(t, views),
            callers@.len() == bodies@.len(),
            forall|t: int|
                0 <= t < callers@.len() ==> lists_callers(
                    #[trigger] callers@[t]@,
                    views,
                    t,
                    i as int,
                ),
        decreases bodies.len() - i,
    {
        let caller = FuncId::from_index(i);
        let ghost calls = views[i as int].calls;
        let mut j: usize = 0;
        while j < bodies[i].calls.len()
            invariant
                i < bodies@.len() <= u32::MAX,
                caller.0 == i,
                views == model::body_views(bodies@),
                t == table::entries(*by_key),
                indexed(t, views),
                calls == views[i as int].calls,
                bodies@[i as int]@.calls == calls,
                j <= calls.len(),
                callers@.len() == bodies@.len(),
                forall|t: int|
                    0 <= t < callers@.len() ==> lists_callers_up_to(
                        #[trigger] callers@[t]@,
                        views,
                        t,
                        i as int,
                        j as int,
                    ),
            decreases calls.len() - j,
        {
            assert(bodies@[i as int]@.calls[j as int] == calls[j as int]);
            let ghost was = callers@;
            proof {
                indexed_is_distinct(t, views);
                assert forall|u: int| #![auto]
                    calls_among(views, i as int, u, j + 1) == (calls_among(
                        views,
                        i as int,
                        u,
                        j as int,
                    ) || calls[j as int].callee == Some(views[u].key)) by {
                    if calls[j as int].callee == Some(views[u].key) {
                        assert(views[i as int].calls[j as int].callee == Some(views[u].key));
                    }
                    if calls_among(views, i as int, u, j as int) {
                        let m = choose|m: int|
                            0 <= m < j && (#[trigger] views[i as int].calls[m]).callee == Some(
                                views[u].key,
                            );
                        assert(views[i as int].calls[m].callee == Some(views[u].key));
                    }
                }
            }
            match &bodies[i].calls[j].callee {
                Some(key) => match by_key.get(key.0.as_str()) {
                    Some(target) => {
                        assert(keyed(views, key@, target as int));
                        let len: usize = callers[target].len();
                        let known = len > 0 && callers[target][len - 1] == caller;
                        proof {
                            let list = callers@[target as int]@;
                            assert(lists_callers_up_to(
                                list,
                                views,
                                target as int,
                                i as int,
                                j as int,
                            ));
                            if known && !calls_among(views, i as int, target as int, j as int) {
                                assert(list[list.len() - 1].0 < i);
                            }
                        }
                        if !known {
                            callers[target].push(caller);
                            assert(callers@[target as int]@.drop_last() =~= was[target as int]@);
                        }
                        assert forall|u: int| 0 <= u < callers@.len() implies lists_callers_up_to(
                            #[trigger] callers@[u]@,
                            views,
                            u,
                            i as int,
                            j + 1,
                        ) by {
                            assert(lists_callers_up_to(was[u]@, views, u, i as int, j as int));
                            if u != target {
                                assert(views[u].key != views[target as int].key);
                            }
                        }
                    },
                    None => {
                        assert forall|u: int| 0 <= u < callers@.len() implies lists_callers_up_to(
                            #[trigger] callers@[u]@,
                            views,
                            u,
                            i as int,
                            j + 1,
                        ) by {
                            assert(keyed(views, views[u].key, u));
                        }
                    },
                },
                None => {},
            }
            j += 1;
        }
        assert forall|u: int| 0 <= u < callers@.len() implies lists_callers(
            #[trigger] callers@[u]@,
            views,
            u,
            i + 1,
        ) by {
            let list = callers@[u]@;
            assert(lists_callers_up_to(list, views, u, i as int, calls.len() as int));
            if calls_among(views, i as int, u, calls.len() as int) {
                let front = list.drop_last();
                let m = choose|m: int|
                    0 <= m < calls.len() && (#[trigger] views[i as int].calls[m]).callee == Some(
                        views[u].key,
                    );
                assert(calls_to(views, i as int, u));
                assert(list =~= front.push(FuncId(i as u32)));
                assert forall|c: int| 0 <= c < i + 1 && #[trigger] calls_to(views, c, u) implies list.contains(
                    FuncId(c as u32),
                ) by {
                    if c < i {
                        assert(front.contains(FuncId(c as u32)));
                        let k = choose|k: int| 0 <= k < front.len() && front[k] == FuncId(c as u32);
                        assert(list[k] == FuncId(c as u32));
                    } else {
                        assert(list[list.len() - 1] == FuncId(c as u32));
                    }
                }
                assert forall|a: int| 0 <= a < list.len() implies (#[trigger] list[a]).0 < i + 1
                    && calls_to(views, list[a].0 as int, u) by {
                    if a < front.len() {
                        assert(front[a] == list[a]);
                    }
                }
                assert forall|a: int, b: int| 0 <= a < b < list.len() implies (
                #[trigger] list[a]).0 < (#[trigger] list[b]).0 by {
                    assert(front[a] == list[a]);
                    if b < front.len() {
                        assert(front[b] == list[b]);
                    }
                }
            } else {
                assert(!calls_to(views, i as int, u));
            }
        }
        i += 1;
    }
    callers
}

/// What a [`Graph`] says.
#[verifier::ext_equal]
pub struct GraphView {
    pub bodies: Seq<BodyView>,
    pub config: Option<ConfigView>,
}

/// A merged, indexed call graph.
pub struct Graph {
    bodies: Vec<Body>,
    by_key: Table,
    callers: Vec<Vec<FuncId>>,
    config: Option<BuildConfig>,
}

impl View for Graph {
    type V = GraphView;

    closed spec fn view(&self) -> GraphView {
        GraphView {
            bodies: model::body_views(self.bodies@),
            config: match self.config {
                Some(c) => Some(c@),
                None => None,
            },
        }
    }
}

/// Whether a graph has an index for each function, one body for each key, and
/// a body for each callee.
pub open spec fn sound(bodies: Seq<BodyView>) -> bool {
    bodies.len() <= u32::MAX && distinct(bodies) && complete(bodies)
}

/// The ids of a graph's functions that come below `n` and satisfy a
/// predicate, in order.
pub open spec fn ids_where(n: int, p: spec_fn(int) -> bool) -> Seq<FuncId>
    decreases n,
{
    if n <= 0 {
        Seq::empty()
    } else if p(n - 1) {
        ids_where(n - 1, p).push(FuncId((n - 1) as u32))
    } else {
        ids_where(n - 1, p)
    }
}

/// The functions that satisfy a predicate are listed in order, each once.
pub proof fn ids_are_listed(n: int, p: spec_fn(int) -> bool)
    requires
        n <= u32::MAX,
    ensures
        forall|k: int|
            0 <= k < ids_where(n, p).len() ==> (#[trigger] ids_where(n, p)[k]).0 < n && p(
                ids_where(n, p)[k].0 as int,
            ),
        forall|a: int, b: int|
            0 <= a < b < ids_where(n, p).len() ==> (#[trigger] ids_where(n, p)[a]).0 < (
            #[trigger] ids_where(n, p)[b]).0,
        forall|i: int|
            0 <= i < n && #[trigger] p(i) ==> ids_where(n, p).contains(FuncId(i as u32)),
        n >= 0 ==> ids_where(n, p).len() <= n,
    decreases n,
{
    if n > 0 {
        ids_are_listed(n - 1, p);
        let rest = ids_where(n - 1, p);
        let all = ids_where(n, p);
        assert forall|i: int| 0 <= i < n && #[trigger] p(i) implies all.contains(FuncId(i as u32)) by {
            if i < n - 1 {
                let k = choose|k: int| 0 <= k < rest.len() && rest[k] == FuncId(i as u32);
                assert(all[k] == FuncId(i as u32));
            } else {
                assert(all[all.len() - 1] == FuncId(i as u32));
            }
        }
    }
}

/// Keeping some of the functions that satisfy a predicate is to list those
/// that satisfy both.
pub proof fn ids_filtered(n: int, p: spec_fn(int) -> bool, q: spec_fn(int) -> bool)
    requires
        n <= u32::MAX,
    ensures
        ids_where(n, p).filter(|id: FuncId| q(id.0 as int)) == ids_where(
            n,
            |i: int| p(i) && q(i),
        ),
    decreases n,
{
    let f = |id: FuncId| q(id.0 as int);
    let both = |i: int| p(i) && q(i);
    reveal(Seq::filter);
    if n > 0 {
        ids_filtered(n - 1, p, q);
        let rest = ids_where(n - 1, p);
        if p(n - 1) {
            let id = FuncId((n - 1) as u32);
            assert(rest.push(id).drop_last() =~= rest);
            assert(ids_where(n, p).filter(f) == (if f(id) {
                rest.filter(f).push(id)
            } else {
                rest.filter(f)
            }));
        }
    } else {
        assert(ids_where(n, p) =~= Seq::empty());
    }
}

impl Graph {
    #[verifier::type_invariant]
    spec fn wf(self) -> bool {
        let views = model::body_views(self.bodies@);
        &&& indexed(table::entries(self.by_key), views)
        &&& self.bodies@.len() <= u32::MAX
        &&& complete(views)
        &&& self.callers@.len() == self.bodies@.len()
        &&& forall|t: int|
            0 <= t < self.callers@.len() ==> lists_callers(
                #[trigger] self.callers@[t]@,
                views,
                t,
                views.len() as int,
            )
    }

    /// Whether a graph is what a list of artifacts makes.
    pub open spec fn is_of(self, artifacts: Seq<Artifact>) -> bool {
        &&& self@.bodies == graph_of(artifact_views(artifacts))
        &&& self@.config == (if artifacts.len() > 0 {
            Some(artifacts[0]@.config)
        } else {
            None
        })
    }

    /// Merges per-crate artifacts into one graph.
    ///
    /// A function may be observed more than once, because a generic body is
    /// instantiated in every crate that uses it. The richest record wins: a
    /// body with MIR always replaces an opaque placeholder.
    pub fn from_artifacts(artifacts: Vec<Artifact>) -> (graph: Graph)
        requires
            indexable(artifact_views(artifacts@)),
        ensures
            graph.is_of(artifacts@),
            sound(graph@.bodies),
    {
        Graph::assembled(artifacts).unwrap()
    }

    /// Merges per-crate artifacts into one graph, unless it has more functions
    /// or calls than there are numbers for them.
    pub fn assembled(artifacts: Vec<Artifact>) -> (r: Option<Graph>)
        ensures
            r is Some <==> indexable(artifact_views(artifacts@)),
            match r {
                Some(graph) => graph.is_of(artifacts@) && sound(graph@.bodies),
                None => true,
            },
    {
        let ghost views = artifact_views(artifacts@);
        let ghost given = artifacts@;
        let mut merge = Merge::new();
        let mut reified: Vec<Reified> = Vec::new();
        let mut config: Option<BuildConfig> = None;
        assert(model::body_views(merge.bodies@) =~= merged(all_bodies(views.take(0))));
        assert(model::reified_views(reified@) =~= all_reified(views.take(0)));
        for artifact in it: artifacts
            invariant
                it.seq() == given,
                views == artifact_views(given),
                merge.ok(),
                model::body_views(merge.bodies@) == merged(
                    all_bodies(views.take(it.index() as int)),
                ),
                model::reified_views(reified@) == all_reified(views.take(it.index() as int)),
                config == (if it.index() > 0 {
                    config
                } else {
                    None
                }),
                it.index() > 0 ==> config is Some && config->0@ == given[0]@.config,
        {
            let ghost n = it.index() as int;
            let ghost before = all_bodies(views.take(n));
            let ghost list = views[n].bodies;
            proof {
                all_bodies_step(views, n);
            }
            let Artifact { krate: _, config: made, bodies, reified: mut more } = artifact;
            if config.is_none() {
                config = Some(made);
            }
            let ghost had = bodies@;
            assert(list == model::body_views(had));
            assert(before + list.take(0) =~= before);
            for body in inner: bodies
                invariant
                    inner.seq() == had,
                    list == model::body_views(had),
                    merge.ok(),
                    model::body_views(merge.bodies@) == merged(
                        before + list.take(inner.index() as int),
                    ),
            {
                proof {
                    merged_step(before, list, inner.index() as int);
                }
                merge.insert_body(body);
            }
            assert(before + list.take(had.len() as int) =~= before + list);
            let ghost were = reified@;
            reified.append(&mut more);
            assert(model::reified_views(reified@) =~= all_reified(views.take(n + 1)));
        }
        assert(views.take(given.len() as int) =~= views);
        let ghost plain = model::body_views(merge.bodies@);
        let ghost targets = model::reified_views(reified@);
        let ghost wide = |b: BodyView| expanded(b, targets);
        let mut i: usize = 0;
        while i < merge.bodies.len()
            invariant
                i <= merge.bodies@.len() == plain.len(),
                plain == merged(all_bodies(views)),
                targets == model::reified_views(reified@),
                targets == all_reified(views),
                wide == (|b: BodyView| expanded(b, targets)),
                indexed(table::entries(merge.by_key), plain),
                views == artifact_views(given),
                given == artifacts@,
                forall|k: int| 0 <= k < i ==> #[trigger] merge.bodies@[k]@ == wide(plain[k]),
                forall|k: int| 0 <= k < i ==> numbered(#[trigger] plain[k], targets),
                forall|k: int|
                    i <= k < merge.bodies@.len() ==> #[trigger] merge.bodies@[k]@ == plain[k],
            decreases merge.bodies.len() - i,
        {
            let ghost was = merge.bodies@;
            assert(was[i as int]@ == plain[i as int]);
            if !expand_fn_pointers(&mut merge.bodies[i], &reified) {
                return None;
            }
            i += 1;
        }
        proof {
            let now = model::body_views(merge.bodies@);
            let t = table::entries(merge.by_key);
            assert(now =~= plain.map_values(wide));
            assert forall|key: Seq<char>| #[trigger] t.dom().contains(key) implies keyed(
                now,
                key,
                t[key] as int,
            ) by {
                assert(keyed(plain, key, t[key] as int));
            }
            assert forall|k: int| 0 <= k < now.len() implies t.dom().contains((#[trigger] now[k]).key)
                && t[now[k].key] == k by {
                assert(now[k].key == plain[k].key);
            }
            assert(now == recorded(views));
            graphs_are_complete(views);
            indexed_is_distinct(t, now);
            callees_are_added(now, all_calls(now));
        }
        materialize_missing_callees(&mut merge);
        let Merge { bodies, by_key } = merge;
        if bodies.len() > 0xffff_ffff {
            return None;
        }
        let callers = build_reverse_edges(&bodies, &by_key);
        let graph = Graph { bodies, by_key, callers, config };
        proof {
            indexed_is_distinct(table::entries(by_key), model::body_views(bodies@));
        }
        Some(graph)
    }

    /// The number of functions in the graph.
    pub fn len(&self) -> (r: usize)
        ensures
            r == self@.bodies.len(),
            sound(self@.bodies),
    {
        proof {
            use_type_invariant(self);
            indexed_is_distinct(table::entries(self.by_key), model::body_views(self.bodies@));
        }
        self.bodies.len()
    }

    /// Returns whether the graph holds no functions.
    pub fn is_empty(&self) -> (r: bool)
        ensures
            r == (self@.bodies.len() == 0),
    {
        self.bodies.len() == 0
    }

    /// The body behind an index.
    pub fn body(&self, id: FuncId) -> (r: &Body)
        requires
            id.0 < self@.bodies.len(),
        ensures
            r@ == self@.bodies[id.0 as int],
    {
        &self.bodies[id.index()]
    }

    /// Every body, with its index.
    pub fn iter(&self) -> (r: Vec<(FuncId, &Body)>)
        ensures
            r@.len() == self@.bodies.len(),
            forall|i: int|
                0 <= i < r@.len() ==> (#[trigger] r@[i]).0 == FuncId(i as u32) && r@[i].1@
                    == self@.bodies[i],
            sound(self@.bodies),
    {
        let n = self.len();
        let mut out: Vec<(FuncId, &Body)> = Vec::new();
        let mut i: usize = 0;
        while i < n
            invariant
                i <= n == self@.bodies.len() <= u32::MAX,
                out@.len() == i,
                forall|k: int|
                    0 <= k < i ==> (#[trigger] out@[k]).0 == FuncId(k as u32) && out@[k].1@
                        == self@.bodies[k],
            decreases n - i,
        {
            let id = FuncId::from_index(i);
            out.push((id, self.body(id)));
            i += 1;
        }
        out
    }

    /// The functions defined in the crate under analysis.
    pub fn locals(&self) -> (r: Vec<FuncId>)
        ensures
            r@ == ids_where(
                self@.bodies.len() as int,
                |i: int| self@.bodies[i].local,
            ),
            sound(self@.bodies),
    {
        let n = self.len();
        let mut out: Vec<FuncId> = Vec::new();
        let mut i: usize = 0;
        while i < n
            invariant
                i <= n == self@.bodies.len() <= u32::MAX,
                out@ == ids_where(i as int, |i: int| self@.bodies[i].local),
            decreases n - i,
        {
            let id = FuncId::from_index(i);
            if self.body(id).local {
                out.push(id);
            }
            i += 1;
        }
        out
    }

    /// Looks a function up by key.
    pub fn id_of(&self, key: &FuncKey) -> (r: Option<FuncId>)
        ensures
            match r {
                Some(id) => keyed(self@.bodies, key@, id.0 as int) && id.0 == slot(
                    self@.bodies,
                    key@,
                ),
                None => !has_key(self@.bodies, key@),
            },
    {
        proof {
            use_type_invariant(self);
            indexed_is_distinct(table::entries(self.by_key), model::body_views(self.bodies@));
        }
        match self.by_key.get(key.0.as_str()) {
            Some(at) => {
                assert(keyed(self@.bodies, key@, at as int));
                Some(FuncId::from_index(at))
            },
            None => None,
        }
    }

    /// The functions that call `id`.
    pub fn callers(&self, id: FuncId) -> (r: &[FuncId])
        requires
            id.0 < self@.bodies.len(),
        ensures
            forall|a: int, b: int| 0 <= a < b < r@.len() ==> (#[trigger] r@[a]).0 < (#[trigger] r@[b]).0,
            forall|caller: FuncId| #[trigger]
                r@.contains(caller) <==> calls_to(self@.bodies, caller.0 as int, id.0 as int),
    {
        proof {
            use_type_invariant(self);
            let list = self.callers@[id.0 as int]@;
            let views = self@.bodies;
            assert(lists_callers(list, views, id.0 as int, views.len() as int));
            assert forall|caller: FuncId| #[trigger] list.contains(caller) <==> calls_to(
                views,
                caller.0 as int,
                id.0 as int,
            ) by {
                if list.contains(caller) {
                    let k = choose|k: int| 0 <= k < list.len() && list[k] == caller;
                    assert(list[k].0 < views.len());
                }
                if calls_to(views, caller.0 as int, id.0 as int) {
                    assert(list.contains(FuncId(caller.0)));
                }
            }
        }
        self.callers[id.index()].as_slice()
    }

    /// The build configuration the artifacts were produced under.
    pub fn config(&self) -> (r: Option<&BuildConfig>)
        ensures
            match r {
                Some(config) => self@.config == Some(config@),
                None => self@.config is None,
            },
    {
        self.config.as_ref()
    }
}

/// The length of a text in bytes.
pub open spec fn width(s: Seq<char>) -> usize {
    vstd::utf8::encode_utf8(s).len() as usize
}

/// Whether one function's path is a closer match of a name than another's.
///
/// A path equal to the name beats one that merely contains it, a shorter path
/// beats a longer one, and of two of a length the first in order wins.
pub open spec fn nearer(bodies: Seq<BodyView>, needle: Seq<char>, a: int, b: int) -> bool {
    let x = bodies[a].display;
    let y = bodies[b].display;
    if (x == needle) != (y == needle) {
        x == needle
    } else if width(x) != width(y) {
        width(x) < width(y)
    } else if x != y {
        text::comes_before(x, y)
    } else {
        a < b
    }
}

/// Whether a list is the functions whose path contains a name, the closest
/// match first.
pub open spec fn is_match(bodies: Seq<BodyView>, needle: Seq<char>, list: Seq<FuncId>) -> bool {
    &&& forall|id: FuncId| #[trigger]
        list.contains(id) <==> id.0 < bodies.len() && text::holds(
            bodies[id.0 as int].display,
            needle,
        )
    &&& forall|i: int, j: int|
        0 <= i < j < list.len() ==> nearer(
            bodies,
            needle,
            (#[trigger] list[i]).0 as int,
            (#[trigger] list[j]).0 as int,
        )
}

/// The order in which a graph's functions match a name.
struct Nearness<'a> {
    graph: &'a Graph,
    needle: &'a str,
}

impl<'a> Order for Nearness<'a> {
    closed spec fn covers(&self, a: usize) -> bool {
        a < self.graph@.bodies.len() <= u32::MAX
    }

    closed spec fn precedes(&self, a: usize, b: usize) -> bool {
        nearer(self.graph@.bodies, self.needle@, a as int, b as int)
    }

    proof fn total(&self, a: usize, b: usize) {
        let bodies = self.graph@.bodies;
        text::texts_are_ordered(bodies[a as int].display, bodies[b as int].display);
    }

    proof fn transitive(&self, a: usize, b: usize, c: usize) {
        let bodies = self.graph@.bodies;
        let x = bodies[a as int].display;
        let y = bodies[b as int].display;
        let z = bodies[c as int].display;
        text::texts_are_ordered(x, y);
        text::texts_are_ordered(y, z);
        text::texts_are_ordered(x, z);
        if text::comes_before(x, y) && text::comes_before(y, z) {
            text::text_order_is_transitive(x, y, z);
        }
    }

    fn less(&self, a: usize, b: usize) -> (r: bool) {
        let x = self.graph.body(FuncId::from_index(a)).display.as_str();
        let y = self.graph.body(FuncId::from_index(b)).display.as_str();
        let exact = text::same(x, self.needle);
        if exact != text::same(y, self.needle) {
            exact
        } else if x.len() != y.len() {
            x.len() < y.len()
        } else if !text::same(x, y) {
            text::before(x, y)
        } else {
            a < b
        }
    }
}

/// Whether one function comes before another by name, and by number where the
/// names are the same.
pub open spec fn alphabetical(bodies: Seq<BodyView>, a: int, b: int) -> bool {
    let x = bodies[a].display;
    let y = bodies[b].display;
    if x != y {
        text::comes_before(x, y)
    } else {
        a < b
    }
}

/// The order of a graph's functions by name.
pub struct Alphabet<'a> {
    /// The graph.
    pub graph: &'a Graph,
}

impl<'a> Order for Alphabet<'a> {
    open spec fn covers(&self, a: usize) -> bool {
        a < self.graph@.bodies.len() <= u32::MAX
    }

    open spec fn precedes(&self, a: usize, b: usize) -> bool {
        alphabetical(self.graph@.bodies, a as int, b as int)
    }

    proof fn total(&self, a: usize, b: usize) {
        let bodies = self.graph@.bodies;
        text::texts_are_ordered(bodies[a as int].display, bodies[b as int].display);
    }

    proof fn transitive(&self, a: usize, b: usize, c: usize) {
        let bodies = self.graph@.bodies;
        let x = bodies[a as int].display;
        let y = bodies[b as int].display;
        let z = bodies[c as int].display;
        text::texts_are_ordered(x, y);
        text::texts_are_ordered(y, z);
        text::texts_are_ordered(x, z);
        if text::comes_before(x, y) && text::comes_before(y, z) {
            text::text_order_is_transitive(x, y, z);
        }
    }

    fn less(&self, a: usize, b: usize) -> (r: bool) {
        let x = self.graph.body(FuncId::from_index(a)).display.as_str();
        let y = self.graph.body(FuncId::from_index(b)).display.as_str();
        if !text::same(x, y) {
            text::before(x, y)
        } else {
            a < b
        }
    }
}

impl Graph {
    /// Finds functions whose display path contains `needle`.
    ///
    /// Used to turn a user supplied name into an index without requiring the
    /// full mangled symbol. The closest match comes first: a path equal to
    /// the needle beats one that merely contains it, and a shorter path beats
    /// a longer one, so asking about `parse` explains `parse` rather than the
    /// closure inside it.
    pub fn find_by_display(&self, needle: &str) -> (r: Vec<FuncId>)
        ensures
            is_match(self@.bodies, needle@, r@),
    {
        let n = self.len();
        let mut found: Vec<usize> = Vec::new();
        let mut i: usize = 0;
        while i < n
            invariant
                i <= n == self@.bodies.len() <= u32::MAX,
                forall|a: int, b: int|
                    0 <= a < b < found@.len() ==> #[trigger] found@[a] < #[trigger] found@[b],
                forall|a: int| 0 <= a < found@.len() ==> #[trigger] found@[a] < i,
                forall|x: usize| #[trigger]
                    found@.contains(x) <==> x < i && text::holds(
                        self@.bodies[x as int].display,
                        needle@,
                    ),
            decreases n - i,
        {
            let ghost was = found@;
            if text::contains(self.body(FuncId::from_index(i)).display.as_str(), needle) {
                found.push(i);
            }
            assert forall|x: usize| #[trigger] found@.contains(x) <==> x < i + 1 && text::holds(
                self@.bodies[x as int].display,
                needle@,
            ) by {
                if was.contains(x) {
                    let k = choose|k: int| 0 <= k < was.len() && was[k] == x;
                    assert(found@[k] == x);
                }
                if x == i && text::holds(self@.bodies[x as int].display, needle@) {
                    assert(found@[found@.len() - 1] == x);
                }
                if found@.contains(x) {
                    let k = choose|k: int| 0 <= k < found@.len() && found@[k] == x;
                    if k < was.len() {
                        assert(was[k] == x);
                    }
                }
            }
            i += 1;
        }
        let order = Nearness { graph: self, needle };
        let sorted = lists::sort(&order, &found);
        assert forall|m: int| 0 <= m < sorted@.len() implies #[trigger] sorted@[m] <= u32::MAX by {
            assert(sorted@.contains(sorted@[m]));
            assert(found@.contains(sorted@[m]));
        }
        let mut out: Vec<FuncId> = Vec::new();
        let mut k: usize = 0;
        while k < sorted.len()
            invariant
                k <= sorted@.len(),
                out@.len() == k,
                forall|m: int| 0 <= m < k ==> #[trigger] out@[m] == FuncId(sorted@[m] as u32),
                forall|m: int| 0 <= m < sorted@.len() ==> #[trigger] sorted@[m] <= u32::MAX,
            decreases sorted.len() - k,
        {
            out.push(FuncId::from_index(sorted[k]));
            k += 1;
        }
        proof {
            assert forall|id: FuncId| #[trigger] out@.contains(id) <==> id.0 < self@.bodies.len()
                && text::holds(self@.bodies[id.0 as int].display, needle@) by {
                if out@.contains(id) {
                    let m = choose|m: int| 0 <= m < out@.len() && out@[m] == id;
                    assert(sorted@.contains(sorted@[m]));
                    assert(found@.contains(sorted@[m]));
                }
                if id.0 < self@.bodies.len() && text::holds(
                    self@.bodies[id.0 as int].display,
                    needle@,
                ) {
                    assert(found@.contains(id.0 as usize));
                    assert(sorted@.contains(id.0 as usize));
                    let m = choose|m: int| 0 <= m < sorted@.len() && sorted@[m] == id.0;
                    assert(out@[m] == id);
                }
            }
            assert forall|i: int, j: int| 0 <= i < j < out@.len() implies nearer(
                self@.bodies,
                needle@,
                (#[trigger] out@[i]).0 as int,
                (#[trigger] out@[j]).0 as int,
            ) by {
                assert(order.precedes(sorted@[i], sorted@[j]));
            }
        }
        out
    }
}

} // verus!
