//! The suppression-aware reachability solver.
//!
//! Suppressing a category does not hide findings, it assumes the panic cannot
//! happen. That assumption has to be applied before propagation, because a
//! caller that only panics through a suppressed callee is genuinely clean, and
//! it has to reach into control flow, because a cleanup block that is only
//! reachable while a suppressed panic unwinds is unreachable too.

use std::collections::VecDeque;

use vstd::prelude::*;

use crate::category;
use crate::category::{Category, CategorySet, Termination};
use crate::graph;
use crate::graph::{FuncId, Graph};
use crate::lists;
use crate::model::{Body, BodyView, CallSite, CallView, Guard, GuardView, UnwindOrigin};

verus! {

/// Which edges of the graph are followed.
#[derive(Debug, Clone, Copy, PartialEq, Eq, Structural)]
pub struct Edges {
    /// Whether to follow edges that are not exact, namely vtable, function
    /// pointer and generic calls.
    pub follow_inexact: bool,
    /// Whether to follow the targets such a call could have, where only
    /// candidates are known.
    pub candidates: bool,
}

impl Default for Edges {
    fn default() -> (r: Edges)
        ensures
            r == (Edges { follow_inexact: true, candidates: false }),
    {
        Edges { follow_inexact: true, candidates: false }
    }
}

/// What the user wants assumed impossible.
#[derive(Debug, Clone, Copy)]
pub struct Policy {
    /// Categories treated as though they cannot occur.
    pub suppressed: CategorySet,
    /// Which edges are followed.
    pub edges: Edges,
}

impl Default for Policy {
    fn default() -> (r: Policy)
        ensures
            r.suppressed@ == category::allocation(),
            r.edges == (Edges { follow_inexact: true, candidates: false }),
    {
        Policy { suppressed: CategorySet::oom(), edges: Edges::default() }
    }
}

/// The solved state of one function.
#[derive(Debug, Clone, Copy, PartialEq, Eq)]
pub struct NodeState {
    /// Categories this function can raise, after suppression.
    pub enabled: CategorySet,
    /// Those of them that no catch contains, because the process aborts.
    pub aborting: CategorySet,
    /// Whether this function can unwind into its caller's cleanup blocks.
    pub unwinds: bool,
}

/// What a [`NodeState`] says.
#[verifier::ext_equal]
pub struct StateView {
    pub enabled: Set<Category>,
    pub aborting: Set<Category>,
    pub unwinds: bool,
}

impl View for NodeState {
    type V = StateView;

    open spec fn view(&self) -> StateView {
        StateView { enabled: self.enabled@, aborting: self.aborting@, unwinds: self.unwinds }
    }
}

/// The state of a function that raises nothing.
pub open spec fn silent() -> StateView {
    StateView { enabled: Set::empty(), aborting: Set::empty(), unwinds: false }
}

impl Default for NodeState {
    fn default() -> (r: NodeState)
        ensures
            r@ == silent(),
    {
        NodeState { enabled: CategorySet::empty(), aborting: CategorySet::empty(), unwinds: false }
    }
}

/// What a list of states says.
pub open spec fn state_views(states: Seq<NodeState>) -> Seq<StateView> {
    states.map_values(|s: NodeState| s@)
}

/// Whether a state raises nothing that another does not.
pub open spec fn below(a: StateView, b: StateView) -> bool {
    &&& a.enabled.subset_of(b.enabled)
    &&& a.aborting.subset_of(b.aborting)
    &&& a.unwinds ==> b.unwinds
}

/// Whether each state of a list lies below its counterpart.
pub open spec fn all_below(a: Seq<StateView>, b: Seq<StateView>) -> bool {
    a.len() == b.len() && forall|i: int| 0 <= i < a.len() ==> #[trigger] below(a[i], b[i])
}

/// The state a target the analysis cannot read contributes.
///
/// Unknown code may unwind and may abort, so no catch contains it.
pub open spec fn unread_state(policy: Policy, c: Category) -> StateView {
    let raised = Set::empty().insert(c).difference(policy.suppressed@);
    StateView { enabled: raised, aborting: raised, unwinds: !policy.suppressed@.contains(c) }
}

/// Whether the policy admits an edge.
pub open spec fn admitted(policy: Policy, call: CallView) -> bool {
    &&& policy.edges.follow_inexact || call.kind.exact()
    &&& policy.edges.candidates || !call.candidate
}

/// What of a state passes a call: behind a barrier only what aborts.
pub open spec fn through(call: CallView, state: StateView) -> StateView {
    if call.barrier {
        StateView { enabled: state.aborting, aborting: state.aborting, unwinds: false }
    } else {
        state
    }
}

/// The sites and calls of a body taken to be reachable.
pub struct Live {
    pub sites: Set<int>,
    pub calls: Set<int>,
}

/// A graph, a policy, and what is known of each function.
pub struct Env {
    pub bodies: Seq<BodyView>,
    pub policy: Policy,
    pub states: Seq<StateView>,
}

impl Env {
    /// The state of a call's target.
    pub open spec fn target(self, call: CallView) -> StateView {
        match call.callee {
            None => unread_state(self.policy, call.kind.unknown_target()),
            Some(key) => if graph::has_key(self.bodies, key) {
                self.states[graph::slot(self.bodies, key)]
            } else {
                silent()
            },
        }
    }

    /// What a call contributes to the function that makes it.
    pub open spec fn contributed(self, call: CallView) -> StateView {
        through(call, self.target(call))
    }

    /// Whether the panic behind an unwind origin can happen and unwinds.
    pub open spec fn origin_holds(self, body: BodyView, live: Live, origin: UnwindOrigin) -> bool {
        match origin {
            UnwindOrigin::Site(i) => {
                &&& i < body.sites.len()
                &&& live.sites.contains(i as int)
                &&& body.sites[i as int].termination is Unwind
                &&& !self.policy.suppressed@.contains(body.sites[i as int].category)
            },
            UnwindOrigin::Call(i) => {
                &&& i < body.calls.len()
                &&& live.calls.contains(i as int)
                &&& admitted(self.policy, body.calls[i as int])
                &&& self.contributed(body.calls[i as int]).unwinds
            },
        }
    }

    /// Whether a guard is satisfied.
    pub open spec fn guard_holds(self, body: BodyView, live: Live, guard: GuardView) -> bool {
        guard.normal || exists|k: int|
            0 <= k < guard.origins.len() && self.origin_holds(
                body,
                live,
                #[trigger] guard.origins[k],
            )
    }

    /// Whether what is taken to be reachable includes all that it reaches.
    pub open spec fn closed_under(self, body: BodyView, live: Live) -> bool {
        &&& forall|i: int|
            0 <= i < body.sites.len() && self.guard_holds(
                body,
                live,
                (#[trigger] body.sites[i]).guard,
            ) ==> live.sites.contains(i)
        &&& forall|i: int|
            0 <= i < body.calls.len() && self.guard_holds(
                body,
                live,
                (#[trigger] body.calls[i]).guard,
            ) ==> live.calls.contains(i)
    }

    /// Whether a site of a body is reachable.
    ///
    /// Ordinary control flow is reachable unconditionally. Cleanup paths are
    /// reachable only while the panic that unwinds into them is enabled, so
    /// what is reachable is the least set closed under the guards.
    pub open spec fn site_runs(self, body: BodyView, i: int) -> bool {
        forall|live: Live| #[trigger] self.closed_under(body, live) ==> live.sites.contains(i)
    }

    /// Whether a call of a body is reachable.
    pub open spec fn call_runs(self, body: BodyView, i: int) -> bool {
        forall|live: Live| #[trigger] self.closed_under(body, live) ==> live.calls.contains(i)
    }

    /// Whether a site is reachable and the policy lets it raise.
    pub open spec fn site_raises(self, body: BodyView, i: int) -> bool {
        &&& 0 <= i < body.sites.len()
        &&& self.site_runs(body, i)
        &&& !self.policy.suppressed@.contains(body.sites[i].category)
    }

    /// Whether a call is reachable and the policy follows it.
    pub open spec fn call_counts(self, body: BodyView, i: int) -> bool {
        &&& 0 <= i < body.calls.len()
        &&& self.call_runs(body, i)
        &&& admitted(self.policy, body.calls[i])
    }

    /// Whether a body can raise a category.
    pub open spec fn raises(self, body: BodyView, c: Category) -> bool {
        ||| exists|i: int| #[trigger] self.site_raises(body, i) && body.sites[i].category == c
        ||| exists|i: int| #[trigger]
            self.call_counts(body, i) && self.contributed(body.calls[i]).enabled.contains(c)
    }

    /// Whether a body can raise a category by aborting.
    pub open spec fn aborts(self, body: BodyView, c: Category) -> bool {
        ||| exists|i: int| #[trigger]
            self.site_raises(body, i) && body.sites[i].category == c
                && body.sites[i].termination is Abort
        ||| exists|i: int| #[trigger]
            self.call_counts(body, i) && self.contributed(body.calls[i]).aborting.contains(c)
    }

    /// Whether a body can unwind into its callers.
    pub open spec fn unwinds(self, body: BodyView) -> bool {
        ||| exists|i: int| #[trigger]
            self.site_raises(body, i) && body.sites[i].termination is Unwind
        ||| exists|i: int| #[trigger]
            self.call_counts(body, i) && self.contributed(body.calls[i]).unwinds
    }

    /// A function's state, given the state of its callees.
    pub open spec fn evaluated(self, id: int) -> StateView {
        let body = self.bodies[id];
        if body.opaque {
            unread_state(self.policy, body.unreadable())
        } else {
            StateView {
                enabled: Set::new(|c: Category| self.raises(body, c)),
                aborting: Set::new(|c: Category| self.aborts(body, c)),
                unwinds: self.unwinds(body),
            }
        }
    }

    /// Whether the states are those that the bodies give from them.
    pub open spec fn settled(self) -> bool {
        self.states.len() == self.bodies.len() && forall|i: int|
            0 <= i < self.bodies.len() ==> #[trigger] self.evaluated(i) == self.states[i]
    }

    /// Whether the states hold all that the bodies give from them.
    pub open spec fn covering(self) -> bool {
        self.states.len() == self.bodies.len() && forall|i: int|
            0 <= i < self.bodies.len() ==> below(#[trigger] self.evaluated(i), self.states[i])
    }
}

/// Whether states are the solution of a graph under a policy: the least ones
/// that the bodies give from themselves.
pub open spec fn solved(bodies: Seq<BodyView>, policy: Policy, states: Seq<StateView>) -> bool {
    &&& (Env { bodies, policy, states }).settled()
    &&& forall|other: Seq<StateView>|
        #![trigger (Env { bodies, policy, states: other }).covering()]
        (Env { bodies, policy, states: other }).covering() ==> all_below(states, other)
}

/// What is reachable only grows with what the callees raise.
pub(crate) proof fn reach_grows(a: Env, b: Env, body: BodyView)
    requires
        a.bodies == b.bodies,
        a.policy.edges == b.policy.edges || (a.policy.edges.follow_inexact
            ==> b.policy.edges.follow_inexact) && (a.policy.edges.candidates
            ==> b.policy.edges.candidates),
        b.policy.suppressed@.subset_of(a.policy.suppressed@),
        forall|j: int|
            0 <= j < body.calls.len() ==> below(
                a.target(#[trigger] body.calls[j]),
                b.target(body.calls[j]),
            ),
    ensures
        forall|i: int| #[trigger] a.site_runs(body, i) ==> b.site_runs(body, i),
        forall|i: int| #[trigger] a.call_runs(body, i) ==> b.call_runs(body, i),
{
    assert forall|live: Live| #[trigger] b.closed_under(body, live) implies a.closed_under(body, live) by {
        assert forall|g: GuardView| a.guard_holds(body, live, g) implies #[trigger] b.guard_holds(
            body,
            live,
            g,
        ) by {
            if !g.normal {
                let k = choose|k: int|
                    0 <= k < g.origins.len() && a.origin_holds(body, live, #[trigger] g.origins[k]);
                assert(b.origin_holds(body, live, g.origins[k])) by {
                    match g.origins[k] {
                        UnwindOrigin::Site(i) => {},
                        UnwindOrigin::Call(i) => {
                            let call = body.calls[i as int];
                            assert(below(a.target(call), b.target(call)));
                        },
                    }
                }
            }
        }
    }
    assert forall|i: int| #[trigger] a.site_runs(body, i) implies b.site_runs(body, i) by {
        assert forall|live: Live| #[trigger] b.closed_under(body, live) implies live.sites.contains(
            i,
        ) by {
            assert(a.closed_under(body, live));
        }
    }
    assert forall|i: int| #[trigger] a.call_runs(body, i) implies b.call_runs(body, i) by {
        assert forall|live: Live| #[trigger] b.closed_under(body, live) implies live.calls.contains(
            i,
        ) by {
            assert(a.closed_under(body, live));
        }
    }
}

/// A function's state only grows with what its callees raise.
pub(crate) proof fn evaluation_grows(a: Env, b: Env, id: int)
    requires
        a.bodies == b.bodies,
        0 <= id < a.bodies.len(),
        (a.policy.edges.follow_inexact ==> b.policy.edges.follow_inexact),
        (a.policy.edges.candidates ==> b.policy.edges.candidates),
        b.policy.suppressed@.subset_of(a.policy.suppressed@),
        forall|j: int|
            0 <= j < a.bodies[id].calls.len() ==> below(
                a.target(#[trigger] a.bodies[id].calls[j]),
                b.target(a.bodies[id].calls[j]),
            ),
    ensures
        below(a.evaluated(id), b.evaluated(id)),
{
    let body = a.bodies[id];
    if !body.opaque {
        reach_grows(a, b, body);
        assert forall|i: int| #[trigger] a.call_counts(body, i) implies b.call_counts(body, i)
            && below(a.contributed(body.calls[i]), b.contributed(body.calls[i])) by {
            assert(a.call_runs(body, i));
            assert(below(a.target(body.calls[i]), b.target(body.calls[i])));
        }
        assert forall|i: int| #[trigger] a.site_raises(body, i) implies b.site_raises(body, i) by {
            assert(a.site_runs(body, i));
        }
        assert forall|c: Category| a.raises(body, c) implies b.raises(body, c) by {
            if exists|i: int| #[trigger] a.site_raises(body, i) && body.sites[i].category == c {
                let i = choose|i: int| #[trigger]
                    a.site_raises(body, i) && body.sites[i].category == c;
                assert(b.site_raises(body, i));
            } else {
                let i = choose|i: int| #[trigger]
                    a.call_counts(body, i) && a.contributed(body.calls[i]).enabled.contains(c);
                assert(b.call_counts(body, i));
            }
        }
        assert forall|c: Category| a.aborts(body, c) implies b.aborts(body, c) by {
            if exists|i: int| #[trigger]
                a.site_raises(body, i) && body.sites[i].category == c
                    && body.sites[i].termination is Abort {
                let i = choose|i: int| #[trigger]
                    a.site_raises(body, i) && body.sites[i].category == c
                        && body.sites[i].termination is Abort;
                assert(b.site_raises(body, i));
            } else {
                let i = choose|i: int| #[trigger]
                    a.call_counts(body, i) && a.contributed(body.calls[i]).aborting.contains(c);
                assert(b.call_counts(body, i));
            }
        }
        if a.unwinds(body) {
            if exists|i: int| #[trigger]
                a.site_raises(body, i) && body.sites[i].termination is Unwind {
                let i = choose|i: int| #[trigger]
                    a.site_raises(body, i) && body.sites[i].termination is Unwind;
                assert(b.site_raises(body, i));
            } else {
                let i = choose|i: int| #[trigger]
                    a.call_counts(body, i) && a.contributed(body.calls[i]).unwinds;
                assert(b.call_counts(body, i));
            }
        }
    }
}

/// The target of a call only grows with what is known of each function.
pub(crate) proof fn targets_grow(a: Env, b: Env, call: CallView)
    requires
        a.bodies == b.bodies,
        b.policy.suppressed@.subset_of(a.policy.suppressed@),
        all_below(a.states, b.states),
        a.states.len() == a.bodies.len(),
    ensures
        below(a.target(call), b.target(call)),
{
    match call.callee {
        None => {},
        Some(key) => {
            if graph::has_key(a.bodies, key) {
                let i = graph::slot(a.bodies, key);
                assert(graph::keyed(a.bodies, key, i));
                assert(below(a.states[i], b.states[i]));
            }
        },
    }
}

/// Which sites and calls of one body are reachable under a policy.
#[derive(Debug)]
pub struct Activity {
    /// Reachability of each entry in [`Body::sites`].
    pub sites: Vec<bool>,
    /// Reachability of each entry in [`Body::calls`].
    pub calls: Vec<bool>,
}

impl Activity {
    /// Whether this is what runs of a body.
    pub open spec fn tells(self, env: Env, body: BodyView) -> bool {
        &&& self.sites@.len() == body.sites.len()
        &&& self.calls@.len() == body.calls.len()
        &&& forall|i: int|
            0 <= i < body.sites.len() ==> #[trigger] self.sites@[i] == env.site_runs(body, i)
        &&& forall|i: int|
            0 <= i < body.calls.len() ==> #[trigger] self.calls@[i] == env.call_runs(body, i)
    }

    /// The sites and calls that are marked.
    spec fn live(self) -> Live {
        Live {
            sites: Set::new(|i: int| 0 <= i < self.sites@.len() && self.sites@[i]),
            calls: Set::new(|i: int| 0 <= i < self.calls@.len() && self.calls@[i]),
        }
    }

    /// Whether the site at an index is reachable.
    pub fn site(&self, i: usize) -> (r: bool)
        ensures
            r == (i < self.sites@.len() && self.sites@[i as int]),
    {
        i < self.sites.len() && self.sites[i]
    }

    /// Whether the call at an index is reachable.
    pub fn call(&self, i: usize) -> (r: bool)
        ensures
            r == (i < self.calls@.len() && self.calls@[i as int]),
    {
        i < self.calls.len() && self.calls[i]
    }
}

/// Shared evaluation logic, used both while solving and while explaining.
struct Eval<'a> {
    graph: &'a Graph,
    policy: Policy,
    states: &'a Vec<NodeState>,
}

impl<'a> Eval<'a> {
    spec fn env(self) -> Env {
        Env {
            bodies: self.graph@.bodies,
            policy: self.policy,
            states: state_views(self.states@),
        }
    }

    /// The state a target the analysis cannot read contributes.
    fn unreadable(&self, category: Category) -> (r: NodeState)
        ensures
            r@ == unread_state(self.policy, category),
    {
        let raised = CategorySet::single(category).difference(self.policy.suppressed);
        let hidden = self.policy.suppressed.contains(category);
        let r = NodeState { enabled: raised, aborting: raised, unwinds: !hidden };
        assert(r@ =~= unread_state(self.policy, category));
        r
    }

    /// Whether the policy admits this edge.
    fn follows(&self, call: &CallSite) -> (r: bool)
        ensures
            r == admitted(self.policy, call@),
    {
        follows(self.policy, call)
    }

    /// The current state of a call's target.
    fn callee_state(&self, call: &CallSite) -> (r: NodeState)
        requires
            self.states@.len() == self.graph@.bodies.len(),
        ensures
            r@ == self.env().target(call@),
    {
        match &call.callee {
            None => {
                // An unresolved target is unknown, and unknown code may unwind.
                self.unreadable(call.kind.unresolved())
            },
            Some(key) => match self.graph.id_of(key) {
                Some(id) => {
                    assert(graph::has_key(self.graph@.bodies, key@));
                    self.states[id.index()]
                },
                None => NodeState::default(),
            },
        }
    }

    /// What a call contributes to the function that makes it.
    fn contributed(&self, call: &CallSite) -> (r: NodeState)
        requires
            self.states@.len() == self.graph@.bodies.len(),
        ensures
            r@ == self.env().contributed(call@),
    {
        let state = self.callee_state(call);
        if call.barrier {
            NodeState { enabled: state.aborting, aborting: state.aborting, unwinds: false }
        } else {
            state
        }
    }

    /// Evaluates a reachability guard against the current local activity.
    fn guard_live(&self, guard: &Guard, body: &Body, act: &Activity) -> (r: bool)
        requires
            self.states@.len() == self.graph@.bodies.len(),
            act.sites@.len() == body@.sites.len(),
            act.calls@.len() == body@.calls.len(),
        ensures
            r == self.env().guard_holds(body@, act.live(), guard@),
    {
        if guard.normal {
            return true;
        }
        let mut k: usize = 0;
        while k < guard.origins.len()
            invariant
                k <= guard.origins@.len(),
                self.states@.len() == self.graph@.bodies.len(),
                act.sites@.len() == body@.sites.len(),
                act.calls@.len() == body@.calls.len(),
                forall|m: int|
                    0 <= m < k ==> !self.env().origin_holds(
                        body@,
                        act.live(),
                        #[trigger] guard.origins@[m],
                    ),
            decreases guard.origins.len() - k,
        {
            let live = match guard.origins[k] {
                UnwindOrigin::Site(i) => {
                    let i: usize = i as usize;
                    if i < body.sites.len() {
                        assert(body@.sites[i as int] == body.sites@[i as int]@);
                        act.sites[i] && body.sites[i].termination == Termination::Unwind
                            && !self.policy.suppressed.contains(body.sites[i].category)
                    } else {
                        false
                    }
                },
                UnwindOrigin::Call(i) => {
                    let i: usize = i as usize;
                    if i < body.calls.len() {
                        assert(body@.calls[i as int] == body.calls@[i as int]@);
                        act.calls[i] && self.follows(&body.calls[i]) && self.contributed(
                            &body.calls[i],
                        ).unwinds
                    } else {
                        false
                    }
                },
            };
            if live {
                assert(self.env().origin_holds(body@, act.live(), guard@.origins[k as int]));
                return true;
            }
            k += 1;
        }
        false
    }

    /// Determines which sites and calls of a body are reachable.
    ///
    /// Ordinary control flow is reachable unconditionally. Cleanup paths are
    /// reachable only while the panic that unwinds into them is enabled, so
    /// this runs to a local fixpoint.
    fn activity(&self, body: &Body) -> (act: Activity)
        requires
            self.states@.len() == self.graph@.bodies.len(),
        ensures
            act.tells(self.env(), body@),
    {
        let ghost env = self.env();
        let ghost view = body@;
        let mut act = Activity {
            sites: lists::unset_flags(body.sites.len()),
            calls: lists::unset_flags(body.calls.len()),
        };
        let mut changed = true;
        // Each productive round sets at least one flag, and flags never
        // clear, so the number of flags bounds the number of rounds.
        while changed
            invariant
                env == self.env(),
                view == body@,
                self.states@.len() == self.graph@.bodies.len(),
                act.sites@.len() == view.sites.len(),
                act.calls@.len() == view.calls.len(),
                forall|i: int| #![trigger act.sites@[i]]
                    0 <= i < act.sites@.len() && act.sites@[i] ==> env.site_runs(view, i),
                forall|i: int| #![trigger act.calls@[i]]
                    0 <= i < act.calls@.len() && act.calls@[i] ==> env.call_runs(view, i),
                !changed ==> env.closed_under(view, act.live()),
            decreases lists::unset(act.sites@) + lists::unset(act.calls@) + (if changed { 1nat } else { 0 }),
        {
            let ghost first = lists::unset(act.sites@) + lists::unset(act.calls@);
            changed = false;
            let mut i: usize = 0;
            while i < body.sites.len()
                invariant
                    i <= view.sites.len(),
                    env == self.env(),
                    view == body@,
                    self.states@.len() == self.graph@.bodies.len(),
                    act.sites@.len() == view.sites.len(),
                    act.calls@.len() == view.calls.len(),
                    forall|i: int| #![trigger act.sites@[i]]
                        0 <= i < act.sites@.len() && act.sites@[i] ==> env.site_runs(view, i),
                    forall|i: int| #![trigger act.calls@[i]]
                        0 <= i < act.calls@.len() && act.calls@[i] ==> env.call_runs(view, i),
                    !changed ==> forall|k: int|
                        0 <= k < i && env.guard_holds(
                            view,
                            act.live(),
                            (#[trigger] view.sites[k]).guard,
                        ) ==> act.live().sites.contains(k),
                    !changed ==> lists::unset(act.sites@) + lists::unset(act.calls@) == first,
                    changed ==> lists::unset(act.sites@) + lists::unset(act.calls@) < first,
                decreases body.sites.len() - i,
            {
                assert(view.sites[i as int] == body.sites@[i as int]@);
                if !act.sites[i] && self.guard_live(&body.sites[i].guard, body, &act) {
                    proof {
                        self.marked_is_live(view, act, view.sites[i as int].guard);
                        assert forall|live: Live| #[trigger] env.closed_under(view, live) implies live.sites.contains(
                            i as int,
                        ) by {
                            assert(env.guard_holds(view, live, view.sites[i as int].guard));
                        }
                        assert(env.site_runs(view, i as int));
                        lists::setting_one(act.sites@, i as int);
                    }
                    act.sites[i] = true;
                    changed = true;
                }
                i += 1;
            }
            let mut j: usize = 0;
            while j < body.calls.len()
                invariant
                    j <= view.calls.len(),
                    env == self.env(),
                    view == body@,
                    self.states@.len() == self.graph@.bodies.len(),
                    act.sites@.len() == view.sites.len(),
                    act.calls@.len() == view.calls.len(),
                    forall|i: int| #![trigger act.sites@[i]]
                        0 <= i < act.sites@.len() && act.sites@[i] ==> env.site_runs(view, i),
                    forall|i: int| #![trigger act.calls@[i]]
                        0 <= i < act.calls@.len() && act.calls@[i] ==> env.call_runs(view, i),
                    !changed ==> forall|k: int|
                        0 <= k < view.sites.len() && env.guard_holds(
                            view,
                            act.live(),
                            (#[trigger] view.sites[k]).guard,
                        ) ==> act.live().sites.contains(k),
                    !changed ==> forall|k: int|
                        0 <= k < j && env.guard_holds(
                            view,
                            act.live(),
                            (#[trigger] view.calls[k]).guard,
                        ) ==> act.live().calls.contains(k),
                    !changed ==> lists::unset(act.sites@) + lists::unset(act.calls@) == first,
                    changed ==> lists::unset(act.sites@) + lists::unset(act.calls@) < first,
                decreases body.calls.len() - j,
            {
                assert(view.calls[j as int] == body.calls@[j as int]@);
                if !act.calls[j] && self.guard_live(&body.calls[j].guard, body, &act) {
                    proof {
                        self.marked_is_live(view, act, view.calls[j as int].guard);
                        assert forall|live: Live| #[trigger] env.closed_under(view, live) implies live.calls.contains(
                            j as int,
                        ) by {
                            assert(env.guard_holds(view, live, view.calls[j as int].guard));
                        }
                        assert(env.call_runs(view, j as int));
                        lists::setting_one(act.calls@, j as int);
                    }
                    act.calls[j] = true;
                    changed = true;
                }
                j += 1;
            }
        }
        proof {
            let live = act.live();
            assert(env.closed_under(view, live));
            assert forall|i: int| 0 <= i < view.sites.len() implies #[trigger] act.sites@[i]
                == env.site_runs(view, i) by {
                if env.site_runs(view, i) {
                    assert(live.sites.contains(i));
                }
            }
            assert forall|i: int| 0 <= i < view.calls.len() implies #[trigger] act.calls@[i]
                == env.call_runs(view, i) by {
                if env.call_runs(view, i) {
                    assert(live.calls.contains(i));
                }
            }
        }
        act
    }

    /// A guard that holds of what is marked holds of every closed set.
    proof fn marked_is_live(&self, view: BodyView, act: Activity, guard: GuardView)
        requires
            act.sites@.len() == view.sites.len(),
            act.calls@.len() == view.calls.len(),
            forall|i: int| #![trigger act.sites@[i]]
                0 <= i < act.sites@.len() && act.sites@[i] ==> self.env().site_runs(view, i),
            forall|i: int| #![trigger act.calls@[i]]
                0 <= i < act.calls@.len() && act.calls@[i] ==> self.env().call_runs(view, i),
            self.env().guard_holds(view, act.live(), guard),
        ensures
            forall|live: Live| #[trigger]
                self.env().closed_under(view, live) ==> self.env().guard_holds(view, live, guard),
    {
        let env = self.env();
        assert forall|live: Live| #[trigger] env.closed_under(view, live) implies env.guard_holds(
            view,
            live,
            guard,
        ) by {
            if !guard.normal {
                let k = choose|k: int|
                    0 <= k < guard.origins.len() && env.origin_holds(
                        view,
                        act.live(),
                        #[trigger] guard.origins[k],
                    );
                match guard.origins[k] {
                    UnwindOrigin::Site(i) => {
                        assert(act.sites@[i as int]);
                        assert(env.site_runs(view, i as int));
                        assert(env.origin_holds(view, live, guard.origins[k]));
                    },
                    UnwindOrigin::Call(i) => {
                        assert(act.calls@[i as int]);
                        assert(env.call_runs(view, i as int));
                        assert(env.origin_holds(view, live, guard.origins[k]));
                    },
                }
            }
        }
    }

    /// Computes one function's state from the current state of its callees.
    fn evaluate(&self, id: FuncId) -> (r: NodeState)
        requires
            self.states@.len() == self.graph@.bodies.len(),
            id.0 < self.graph@.bodies.len(),
        ensures
            r@ == self.env().evaluated(id.0 as int),
    {
        let body = self.graph.body(id);
        if body.opaque {
            // An opaque body is unknown, not proven clean. Foreign code is
            // named apart: it has no Rust body to read and no fuller
            // standard library would produce one.
            return self.unreadable(body.unreadable());
        }
        let ghost env = self.env();
        let ghost view = body@;
        let activity = self.activity(body);
        let mut state = NodeState::default();
        let mut i: usize = 0;
        while i < body.sites.len()
            invariant
                i <= view.sites.len(),
                env == self.env(),
                view == body@,
                activity.tells(env, view),
                forall|c: Category| #[trigger] state.enabled@.contains(c) <==> exists|k: int|
                    0 <= k < i && #[trigger] env.site_raises(view, k) && view.sites[k].category
                        == c,
                forall|c: Category| #[trigger] state.aborting@.contains(c) <==> exists|k: int|
                    0 <= k < i && #[trigger] env.site_raises(view, k) && view.sites[k].category
                        == c && view.sites[k].termination is Abort,
                state.unwinds <==> exists|k: int|
                    0 <= k < i && #[trigger] env.site_raises(view, k)
                        && view.sites[k].termination is Unwind,
            decreases body.sites.len() - i,
        {
            let site = &body.sites[i];
            assert(view.sites[i as int] == site@);
            assert(activity.sites@[i as int] == env.site_runs(view, i as int));
            let ghost was = state@;
            if activity.sites[i] && !self.policy.suppressed.contains(site.category) {
                assert(env.site_raises(view, i as int));
                let mut enabled = state.enabled;
                enabled.insert(site.category);
                state.enabled = enabled;
                if site.termination == Termination::Unwind {
                    state.unwinds = true;
                } else {
                    let mut aborting = state.aborting;
                    aborting.insert(site.category);
                    state.aborting = aborting;
                }
            } else {
                assert(!env.site_raises(view, i as int));
            }
            assert forall|c: Category| #[trigger] state.enabled@.contains(c) <==> exists|k: int|
                0 <= k < i + 1 && #[trigger] env.site_raises(view, k) && view.sites[k].category
                    == c by {
                if was.enabled.contains(c) {
                    let k = choose|k: int|
                        0 <= k < i && #[trigger] env.site_raises(view, k) && view.sites[k].category
                            == c;
                    assert(env.site_raises(view, k));
                }
            }
            assert forall|c: Category| #[trigger] state.aborting@.contains(c) <==> exists|k: int|
                0 <= k < i + 1 && #[trigger] env.site_raises(view, k) && view.sites[k].category
                    == c && view.sites[k].termination is Abort by {
                if was.aborting.contains(c) {
                    let k = choose|k: int|
                        0 <= k < i && #[trigger] env.site_raises(view, k) && view.sites[k].category
                            == c && view.sites[k].termination is Abort;
                    assert(env.site_raises(view, k));
                }
            }
            i += 1;
        }
        let ghost sites = state@;
        let mut j: usize = 0;
        while j < body.calls.len()
            invariant
                j <= view.calls.len(),
                env == self.env(),
                view == body@,
                self.states@.len() == self.graph@.bodies.len(),
                activity.tells(env, view),
                forall|c: Category| #[trigger] state.enabled@.contains(c) <==>
                    sites.enabled.contains(c) || exists|k: int|
                    0 <= k < j && #[trigger] env.call_counts(view, k) && env.contributed(
                        view.calls[k],
                    ).enabled.contains(c),
                forall|c: Category| #[trigger] state.aborting@.contains(c) <==>
                    sites.aborting.contains(c) || exists|k: int|
                    0 <= k < j && #[trigger] env.call_counts(view, k) && env.contributed(
                        view.calls[k],
                    ).aborting.contains(c),
                state.unwinds <==> sites.unwinds || exists|k: int|
                    0 <= k < j && #[trigger] env.call_counts(view, k) && env.contributed(
                        view.calls[k],
                    ).unwinds,
            decreases body.calls.len() - j,
        {
            let call = &body.calls[j];
            assert(view.calls[j as int] == call@);
            assert(activity.calls@[j as int] == env.call_runs(view, j as int));
            let ghost was = state@;
            if activity.calls[j] && self.follows(call) {
                assert(env.call_counts(view, j as int));
                let callee = self.contributed(call);
                state.enabled = state.enabled.union(callee.enabled);
                state.aborting = state.aborting.union(callee.aborting);
                state.unwinds = state.unwinds || callee.unwinds;
            } else {
                assert(!env.call_counts(view, j as int));
            }
            assert forall|c: Category| #[trigger] state.enabled@.contains(c) <==>
                sites.enabled.contains(c) || exists|k: int|
                0 <= k < j + 1 && #[trigger] env.call_counts(view, k) && env.contributed(
                    view.calls[k],
                ).enabled.contains(c) by {
                if was.enabled.contains(c) && !sites.enabled.contains(c) {
                    let k = choose|k: int|
                        0 <= k < j && #[trigger] env.call_counts(view, k) && env.contributed(
                            view.calls[k],
                        ).enabled.contains(c);
                    assert(env.call_counts(view, k));
                }
            }
            assert forall|c: Category| #[trigger] state.aborting@.contains(c) <==>
                sites.aborting.contains(c) || exists|k: int|
                0 <= k < j + 1 && #[trigger] env.call_counts(view, k) && env.contributed(
                    view.calls[k],
                ).aborting.contains(c) by {
                if was.aborting.contains(c) && !sites.aborting.contains(c) {
                    let k = choose|k: int|
                        0 <= k < j && #[trigger] env.call_counts(view, k) && env.contributed(
                            view.calls[k],
                        ).aborting.contains(c);
                    assert(env.call_counts(view, k));
                }
            }
            j += 1;
        }
        proof {
            assert forall|c: Category| state.enabled@.contains(c) <==> env.raises(view, c) by {}
            assert forall|c: Category| state.aborting@.contains(c) <==> env.aborts(view, c) by {}
            assert(state@ =~= env.evaluated(id.0 as int));
        }
        state
    }
}

/// Whether a policy admits an edge.
fn follows(policy: Policy, call: &CallSite) -> (r: bool)
    ensures
        r == admitted(policy, call@),
{
    (policy.edges.follow_inexact || call.kind.is_exact()) && (policy.edges.candidates
        || !call.candidate)
}

/// How much of a state's room is taken.
spec fn size(state: StateView) -> nat {
    state.enabled.len() + state.aborting.len() + (if state.unwinds {
        1nat
    } else {
        0
    })
}

/// How much more a list of states can come to hold.
spec fn room(states: Seq<StateView>) -> nat
    decreases states.len(),
{
    if states.len() == 0 {
        0
    } else {
        (room(states.drop_last()) + (43 - size(states.last()))) as nat
    }
}

proof fn size_is_small(state: StateView)
    ensures
        size(state) <= 43,
{
    category::few_categories(state.enabled);
    category::few_categories(state.aborting);
}

proof fn growing_takes_room(a: StateView, b: StateView)
    requires
        below(a, b),
        a != b,
    ensures
        size(a) < size(b),
{
    category::few_categories(a.enabled);
    category::few_categories(b.enabled);
    category::few_categories(a.aborting);
    category::few_categories(b.aborting);
    vstd::set_lib::lemma_len_subset(a.enabled, b.enabled);
    vstd::set_lib::lemma_len_subset(a.aborting, b.aborting);
    if a.enabled != b.enabled {
        if a.enabled.len() == b.enabled.len() {
            vstd::set_lib::lemma_subset_equality(a.enabled, b.enabled);
        }
    } else if a.aborting != b.aborting {
        if a.aborting.len() == b.aborting.len() {
            vstd::set_lib::lemma_subset_equality(a.aborting, b.aborting);
        }
    } else {
        assert(a.unwinds != b.unwinds);
    }
}

proof fn update_takes_room(states: Seq<StateView>, i: int, next: StateView)
    requires
        0 <= i < states.len(),
        below(states[i], next),
        states[i] != next,
    ensures
        room(states.update(i, next)) < room(states),
    decreases states.len(),
{
    let now = states.update(i, next);
    size_is_small(now.last());
    size_is_small(states.last());
    if i < states.len() - 1 {
        assert(now.drop_last() =~= states.drop_last().update(i, next));
        update_takes_room(states.drop_last(), i, next);
    } else {
        assert(now.drop_last() =~= states.drop_last());
        growing_takes_room(states[i], next);
    }
}

/// A function is unaffected by the state of what it does not call.
proof fn unaffected(a: Env, b: Env, id: int, changed: int)
    requires
        a.bodies == b.bodies,
        a.policy == b.policy,
        a.states.len() == a.bodies.len(),
        0 <= id < a.bodies.len(),
        0 <= changed < a.bodies.len(),
        b.states == a.states.update(changed, b.states[changed]),
        !graph::calls_to(a.bodies, id, changed),
    ensures
        a.evaluated(id) == b.evaluated(id),
{
    let body = a.bodies[id];
    assert forall|j: int| 0 <= j < body.calls.len() implies a.target(#[trigger] body.calls[j])
        == b.target(body.calls[j]) by {
        match body.calls[j].callee {
            None => {},
            Some(key) => {
                if graph::has_key(a.bodies, key) {
                    let k = graph::slot(a.bodies, key);
                    assert(graph::keyed(a.bodies, key, k));
                    assert(a.bodies[id].calls[j].callee == Some(a.bodies[k].key));
                    assert(k != changed);
                }
            },
        }
    }
    evaluation_grows(a, b, id);
    evaluation_grows(b, a, id);
    assert(a.evaluated(id) =~= b.evaluated(id));
}

/// The result of solving a graph under one policy.
#[derive(Debug)]
pub struct Solution {
    states: Vec<NodeState>,
    policy: Policy,
}

impl Solution {
    /// The solved state of each function.
    pub closed spec fn states(&self) -> Seq<StateView> {
        state_views(self.states@)
    }

    /// The policy this solution was produced under.
    pub closed spec fn spec_policy(&self) -> Policy {
        self.policy
    }

    /// A graph, with the policy and the states of this solution.
    pub open spec fn env(&self, graph: Graph) -> Env {
        Env { bodies: graph@.bodies, policy: self.spec_policy(), states: self.states() }
    }

    /// Whether this is the solution of a graph.
    pub open spec fn solves(&self, graph: Graph) -> bool {
        solved(graph@.bodies, self.spec_policy(), self.states())
    }

    /// The categories a function can raise under the solved policy.
    pub fn enabled(&self, id: FuncId) -> (r: CategorySet)
        requires
            id.0 < self.states().len(),
        ensures
            r@ == self.states()[id.0 as int].enabled,
    {
        self.states[id.index()].enabled
    }

    /// The categories a function can raise by aborting.
    pub fn aborting(&self, id: FuncId) -> (r: CategorySet)
        requires
            id.0 < self.states().len(),
        ensures
            r@ == self.states()[id.0 as int].aborting,
    {
        self.states[id.index()].aborting
    }

    /// Whether a function can unwind under the solved policy.
    pub fn unwinds(&self, id: FuncId) -> (r: bool)
        requires
            id.0 < self.states().len(),
        ensures
            r == self.states()[id.0 as int].unwinds,
    {
        self.states[id.index()].unwinds
    }

    /// Whether a function raises nothing the user asked to see.
    pub fn is_clean(&self, id: FuncId) -> (r: bool)
        requires
            id.0 < self.states().len(),
        ensures
            r == (self.states()[id.0 as int].enabled == Set::<Category>::empty()),
    {
        self.states[id.index()].enabled.is_empty()
    }

    /// The policy this solution was produced under.
    pub fn policy(&self) -> (r: Policy)
        ensures
            r == self.spec_policy(),
    {
        self.policy
    }

    /// Which sites and calls of a function are reachable under the policy.
    pub fn activity(&self, graph: &Graph, id: FuncId) -> (r: Activity)
        requires
            self.states().len() == graph@.bodies.len(),
            id.0 < graph@.bodies.len(),
        ensures
            r.tells(self.env(*graph), graph@.bodies[id.0 as int]),
    {
        let eval = Eval { graph, policy: self.policy, states: &self.states };
        assert(eval.env() == self.env(*graph));
        eval.activity(graph.body(id))
    }

    /// Whether the policy admits an edge.
    pub fn follows(&self, call: &CallSite) -> (r: bool)
        ensures
            r == admitted(self.spec_policy(), call@),
    {
        follows(self.policy, call)
    }
}

/// Solves a graph under one suppression policy.
pub struct Solver<'g> {
    graph: &'g Graph,
    policy: Policy,
    states: Vec<NodeState>,
}

impl<'g> Solver<'g> {
    /// The graph being solved.
    pub closed spec fn spec_graph(self) -> Graph {
        *self.graph
    }

    /// The policy it is solved under.
    pub closed spec fn spec_policy(self) -> Policy {
        self.policy
    }

    #[verifier::type_invariant]
    spec fn ready(self) -> bool {
        &&& self.states@.len() == self.graph@.bodies.len()
        &&& forall|i: int| 0 <= i < self.states@.len() ==> (#[trigger] self.states@[i])@ == silent()
    }

    /// Prepares a solver over `graph`.
    pub fn new(graph: &'g Graph, policy: Policy) -> (r: Solver<'g>)
        ensures
            r.spec_graph() == *graph,
            r.spec_policy() == policy,
    {
        let n: usize = graph.len();
        let mut states: Vec<NodeState> = Vec::new();
        let mut i: usize = 0;
        while i < n
            invariant
                i <= n,
                states@.len() == i,
                forall|k: int| 0 <= k < i ==> (#[trigger] states@[k])@ == silent(),
            decreases n - i,
        {
            states.push(NodeState::default());
            i += 1;
        }
        Solver { graph, policy, states }
    }

    /// Runs the fixpoint to convergence.
    ///
    /// A node's state only ever grows, since categories are added and never
    /// removed and `unwinds` only moves from false to true, so this always
    /// succeeds.
    pub fn solve(self) -> (r: Result<Solution, String>)
        ensures
            r is Ok,
            r->Ok_0.spec_policy() == self.spec_policy(),
            r->Ok_0.solves(self.spec_graph()),
    {
        proof {
            use_type_invariant(&self);
        }
        let graph = self.graph;
        let policy = self.policy;
        let mut states = self.states;
        let n: usize = graph.len();
        let ghost bodies = graph@.bodies;
        let mut queued: Vec<bool> = Vec::new();
        let mut queue: VecDeque<FuncId> = VecDeque::new();
        let mut i: usize = 0;
        while i < n
            invariant
                i <= n <= u32::MAX,
                queued@.len() == i,
                queue@.len() == i,
                forall|k: int| 0 <= k < i ==> #[trigger] queued@[k],
                forall|k: int| 0 <= k < i ==> #[trigger] queue@[k] == FuncId(k as u32),
            decreases n - i,
        {
            queued.push(true);
            queue.push_back(FuncId::from_index(i));
            i += 1;
        }
        proof {
            let env = Env { bodies, policy, states: state_views(states@) };
            assert forall|k: int| 0 <= k < n implies below(
                #[trigger] env.states[k],
                env.evaluated(k),
            ) by {
                assert(env.states[k] == states@[k]@);
            }
            assert forall|other: Seq<StateView>|
                #![trigger (Env { bodies, policy, states: other }).covering()]
                (Env { bodies, policy, states: other }).covering() implies all_below(
                env.states,
                other,
            ) by {
                assert forall|k: int| 0 <= k < n implies #[trigger] below(env.states[k], other[k]) by {
                    assert(env.states[k] == states@[k]@);
                }
            }
            assert forall|k: int| #![trigger queued@[k]] 0 <= k < n implies queue@.contains(
                FuncId(k as u32),
            ) by {
                assert(queue@[k] == FuncId(k as u32));
            }
        }
        while queue.len() > 0
            invariant
                n == bodies.len() == states@.len() == queued@.len(),
                n <= u32::MAX,
                bodies == graph@.bodies,
                forall|k: int| 0 <= k < queue@.len() ==> (#[trigger] queue@[k]).0 < n,
                forall|k: int|
                    #![trigger queued@[k]]
                    0 <= k < n && queued@[k] ==> queue@.contains(FuncId(k as u32)),
                forall|k: int|
                    #![trigger queued@[k]]
                    0 <= k < n && !queued@[k] ==> (Env {
                        bodies,
                        policy,
                        states: state_views(states@),
                    }).evaluated(k) == state_views(states@)[k],
                forall|k: int|
                    0 <= k < n ==> below(
                        #[trigger] state_views(states@)[k],
                        (Env { bodies, policy, states: state_views(states@) }).evaluated(k),
                    ),
                forall|other: Seq<StateView>|
                    #![trigger (Env { bodies, policy, states: other }).covering()]
                    (Env { bodies, policy, states: other }).covering() ==> all_below(
                        state_views(states@),
                        other,
                    ),
            decreases room(state_views(states@)), queue@.len(),
        {
            let ghost old_queue = queue@;
            let ghost old_queued = queued@;
            let id = queue.pop_front().unwrap();
            assert(id == old_queue[0]);
            assert(queue@ =~= old_queue.skip(1));
            assert forall|k: int| 0 <= k < queue@.len() implies (#[trigger] queue@[k]).0 < n by {
                assert(queue@[k] == old_queue[k + 1]);
            }
            queued[id.index()] = false;
            assert forall|k: int|
                #![trigger queued@[k]]
                0 <= k < n && queued@[k] implies queue@.contains(FuncId(k as u32)) by {
                assert(old_queued[k]);
                let m = choose|m: int|
                    0 <= m < old_queue.len() && old_queue[m] == FuncId(k as u32);
                assert(queue@[m - 1] == FuncId(k as u32));
            }
            let ghost env = Env { bodies, policy, states: state_views(states@) };
            let eval = Eval { graph, policy, states: &states };
            assert(eval.env() == env);
            let next = eval.evaluate(id);
            assert(env.states[id.0 as int] == states@[id.0 as int]@);
            if !next.same(&states[id.index()]) {
                let ghost at = id.0 as int;
                states[id.index()] = next;
                let ghost now = Env { bodies, policy, states: state_views(states@) };
                proof {
                    assert(now.states =~= env.states.update(at, next@));
                    update_takes_room(env.states, at, next@);
                    assert(all_below(env.states, now.states)) by {
                        assert forall|k: int| 0 <= k < n implies #[trigger] below(
                            env.states[k],
                            now.states[k],
                        ) by {}
                    }
                    assert forall|k: int| 0 <= k < n implies below(
                        #[trigger] now.states[k],
                        now.evaluated(k),
                    ) by {
                        assert forall|j: int| 0 <= j < bodies[k].calls.len() implies below(
                            env.target(#[trigger] bodies[k].calls[j]),
                            now.target(bodies[k].calls[j]),
                        ) by {
                            targets_grow(env, now, bodies[k].calls[j]);
                        }
                        evaluation_grows(env, now, k);
                        assert(below(env.states[k], env.evaluated(k)));
                    }
                    assert forall|other: Seq<StateView>|
                        #![trigger (Env { bodies, policy, states: other }).covering()]
                        (Env { bodies, policy, states: other }).covering() implies all_below(
                        now.states,
                        other,
                    ) by {
                        let there = Env { bodies, policy, states: other };
                        assert(all_below(env.states, other));
                        assert forall|j: int| 0 <= j < bodies[at].calls.len() implies below(
                            env.target(#[trigger] bodies[at].calls[j]),
                            there.target(bodies[at].calls[j]),
                        ) by {
                            targets_grow(env, there, bodies[at].calls[j]);
                        }
                        evaluation_grows(env, there, at);
                        assert(below(there.evaluated(at), other[at]));
                        assert forall|k: int| 0 <= k < n implies #[trigger] below(
                            now.states[k],
                            other[k],
                        ) by {
                            assert(below(env.states[k], other[k]));
                        }
                    }
                    assert forall|k: int|
                        #![trigger queued@[k]]
                        0 <= k < n && !queued@[k] && !graph::calls_to(bodies, k, at) implies now.evaluated(
                        k,
                    ) == now.states[k] by {
                        unaffected(env, now, k, at);
                        if k != at {
                            assert(!old_queued[k]);
                        }
                    }
                }
                let callers = graph.callers(id);
                assert forall|k: int| 0 <= k < callers@.len() implies (#[trigger] callers@[k]).0
                    < n by {
                    assert(callers@.contains(callers@[k]));
                }
                let mut c: usize = 0;
                while c < callers.len()
                    invariant
                        c <= callers@.len(),
                        n == bodies.len() == states@.len() == queued@.len(),
                        bodies == graph@.bodies,
                        now.bodies == bodies,
                        now.states.len() == n,
                        at == id.0,
                        at < n,
                        forall|caller: FuncId| #[trigger]
                            callers@.contains(caller) <==> graph::calls_to(
                                bodies,
                                caller.0 as int,
                                at,
                            ),
                        forall|k: int| 0 <= k < queue@.len() ==> (#[trigger] queue@[k]).0 < n,
                        forall|k: int|
                            #![trigger queued@[k]]
                            0 <= k < n && queued@[k] ==> queue@.contains(FuncId(k as u32)),
                        forall|k: int| 0 <= k < callers@.len() ==> (#[trigger] callers@[k]).0 < n,
                        forall|k: int| 0 <= k < c ==> queued@[(#[trigger] callers@[k]).0 as int],
                        forall|k: int|
                            #![trigger queued@[k]]
                            0 <= k < n && !queued@[k] && !graph::calls_to(bodies, k, at)
                                ==> now.evaluated(k) == now.states[k],
                    decreases callers.len() - c,
                {
                    let caller = callers[c];
                    assert(callers@.contains(caller));
                    let ghost had = queue@;
                    if !queued[caller.index()] {
                        queued[caller.index()] = true;
                        queue.push_back(caller);
                        assert forall|k: int|
                            #![trigger queued@[k]]
                            0 <= k < n && queued@[k] implies queue@.contains(FuncId(k as u32)) by {
                            if k == caller.0 {
                                assert(queue@[queue@.len() - 1] == caller);
                            } else {
                                let m = choose|m: int|
                                    0 <= m < had.len() && had[m] == FuncId(k as u32);
                                assert(queue@[m] == FuncId(k as u32));
                            }
                        }
                    }
                    c += 1;
                }
                proof {
                    assert forall|k: int|
                        #![trigger queued@[k]]
                        0 <= k < n && !queued@[k] implies now.evaluated(k) == now.states[k] by {
                        if graph::calls_to(bodies, k, at) {
                            assert(callers@.contains(FuncId(k as u32)));
                            let m = choose|m: int|
                                0 <= m < callers@.len() && callers@[m] == FuncId(k as u32);
                            assert(queued@[callers@[m].0 as int]);
                        }
                    }
                }
            }
        }
        proof {
            let env = Env { bodies, policy, states: state_views(states@) };
            assert forall|k: int| 0 <= k < bodies.len() implies #[trigger] env.evaluated(k)
                == env.states[k] by {
                if queued@[k] {
                    assert(queue@.contains(FuncId(k as u32)));
                }
            }
            assert(env.settled());
        }
        Ok(Solution { states, policy })
    }
}

impl NodeState {
    /// Whether two states say the same.
    fn same(&self, other: &NodeState) -> (r: bool)
        ensures
            r == (self@ == other@),
    {
        self.enabled.same(other.enabled) && self.aborting.same(other.aborting) && self.unwinds
            == other.unwinds
    }
}

/// How many of the first `n` functions are local and raise something in one
/// solution that they do not raise in another.
pub open spec fn cleared(
    bodies: Seq<BodyView>,
    states: Seq<StateView>,
    bare: Seq<StateView>,
    n: nat,
) -> nat
    decreases n,
{
    if n == 0 {
        0
    } else {
        let i = n - 1;
        cleared(bodies, states, bare, (n - 1) as nat) + (if bodies[i].local && states[i].enabled
            == Set::<Category>::empty() && bare[i].enabled != Set::<Category>::empty() {
            1nat
        } else {
            0
        })
    }
}

/// A policy that assumes nothing impossible, with the edges of another.
pub open spec fn bare_of(policy: Policy, bare: Policy) -> bool {
    bare.suppressed@ == Set::<Category>::empty() && bare.edges == policy.edges
}

impl Solution {
    /// How many local functions raise nothing only because of what the
    /// policy suppresses.
    pub fn cleared_by_suppression(&self, graph: &Graph) -> (r: Result<usize, String>)
        requires
            self.states().len() == graph@.bodies.len(),
        ensures
            r is Ok,
            forall|policy: Policy, bare: Seq<StateView>|
                bare_of(self.spec_policy(), policy) && #[trigger] solved(
                    graph@.bodies,
                    policy,
                    bare,
                ) ==> r->Ok_0 == cleared(
                    graph@.bodies,
                    self.states(),
                    bare,
                    graph@.bodies.len(),
                ),
    {
        let policy = Policy { suppressed: CategorySet::empty(), edges: self.policy.edges };
        let other = match Solver::new(graph, policy).solve() {
            Ok(solution) => solution,
            Err(message) => {
                return Err(message);
            },
        };
        let ghost bodies = graph@.bodies;
        let n = graph.len();
        let mut count: usize = 0;
        let mut i: usize = 0;
        while i < n
            invariant
                i <= n == bodies.len() <= u32::MAX,
                bodies == graph@.bodies,
                self.states().len() == n,
                other.states().len() == n,
                count <= i,
                count == cleared(bodies, self.states(), other.states(), i as nat),
            decreases n - i,
        {
            let id = FuncId::from_index(i);
            if graph.body(id).local && self.is_clean(id) && !other.is_clean(id) {
                count += 1;
            }
            i += 1;
        }
        proof {
            assert forall|p: Policy, bare: Seq<StateView>|
                bare_of(self.spec_policy(), p) && #[trigger] solved(bodies, p, bare) implies count
                == cleared(bodies, self.states(), bare, bodies.len()) by {
                assuming_more_raises_less(bodies, policy, p, other.states(), bare);
                assuming_more_raises_less(bodies, p, policy, bare, other.states());
                assert forall|k: int| 0 <= k < bare.len() implies bare[k] == other.states()[k] by {
                    assert(below(bare[k], other.states()[k]));
                    assert(below(other.states()[k], bare[k]));
                    assert(bare[k] =~= other.states()[k]);
                }
                assert(bare =~= other.states());
            }
        }
        Ok(count)
    }
}

/// A graph has one solution under a policy.
pub proof fn solution_is_unique(
    bodies: Seq<BodyView>,
    policy: Policy,
    a: Seq<StateView>,
    b: Seq<StateView>,
)
    requires
        solved(bodies, policy, a),
        solved(bodies, policy, b),
    ensures
        a == b,
{
    assert((Env { bodies, policy, states: a }).covering()) by {
        settled_is_covering(Env { bodies, policy, states: a });
    }
    assert((Env { bodies, policy, states: b }).covering()) by {
        settled_is_covering(Env { bodies, policy, states: b });
    }
    assert forall|i: int| 0 <= i < a.len() implies a[i] == b[i] by {
        assert(below(a[i], b[i]));
        assert(below(b[i], a[i]));
        assert(a[i] =~= b[i]);
    }
    assert(a =~= b);
}

proof fn settled_is_covering(env: Env)
    requires
        env.settled(),
    ensures
        env.covering(),
{
    assert forall|i: int| 0 <= i < env.bodies.len() implies below(
        #[trigger] env.evaluated(i),
        env.states[i],
    ) by {}
}

/// Suppressing more, or following fewer edges, only ever takes panics away.
pub proof fn assuming_more_raises_less(
    bodies: Seq<BodyView>,
    less: Policy,
    more: Policy,
    a: Seq<StateView>,
    b: Seq<StateView>,
)
    requires
        solved(bodies, less, a),
        solved(bodies, more, b),
        less.suppressed@.subset_of(more.suppressed@),
        more.edges.follow_inexact ==> less.edges.follow_inexact,
        more.edges.candidates ==> less.edges.candidates,
    ensures
        all_below(b, a),
{
    let from = Env { bodies, policy: more, states: a };
    let to = Env { bodies, policy: less, states: a };
    assert(from.covering()) by {
        assert forall|i: int| 0 <= i < bodies.len() implies below(
            #[trigger] from.evaluated(i),
            a[i],
        ) by {
            assert forall|j: int| 0 <= j < bodies[i].calls.len() implies below(
                from.target(#[trigger] bodies[i].calls[j]),
                to.target(bodies[i].calls[j]),
            ) by {
                assert(all_below(a, a)) by {
                    assert forall|k: int| 0 <= k < a.len() implies #[trigger] below(a[k], a[k]) by {}
                }
                targets_grow(from, to, bodies[i].calls[j]);
            }
            evaluation_grows(from, to, i);
            assert(to.evaluated(i) == a[i]);
        }
    }
}

/// The states of a graph without the categories a predicate picks for each
/// function.
pub open spec fn without(
    states: Seq<StateView>,
    raised: spec_fn(int, Category) -> bool,
    aborted: spec_fn(int, Category) -> bool,
) -> Seq<StateView> {
    Seq::new(
        states.len(),
        |i: int|
            StateView {
                enabled: states[i].enabled.filter(|c: Category| !raised(i, c)),
                aborting: states[i].aborting.filter(|c: Category| !aborted(i, c)),
                unwinds: states[i].unwinds,
            },
    )
}

/// What takes nothing away that a function itself gives is no more than the
/// solution leaves, so the solution holds none of it.
pub proof fn taken_away(
    bodies: Seq<BodyView>,
    policy: Policy,
    states: Seq<StateView>,
    raised: spec_fn(int, Category) -> bool,
    aborted: spec_fn(int, Category) -> bool,
)
    requires
        solved(bodies, policy, states),
        forall|i: int, c: Category|
            0 <= i < bodies.len() && #[trigger] raised(i, c) ==> !(Env {
                bodies,
                policy,
                states: without(states, raised, aborted),
            }).evaluated(i).enabled.contains(c),
        forall|i: int, c: Category|
            0 <= i < bodies.len() && #[trigger] aborted(i, c) ==> !(Env {
                bodies,
                policy,
                states: without(states, raised, aborted),
            }).evaluated(i).aborting.contains(c),
    ensures
        forall|i: int, c: Category|
            0 <= i < bodies.len() && #[trigger] raised(i, c) ==> !states[i].enabled.contains(c),
        forall|i: int, c: Category|
            0 <= i < bodies.len() && #[trigger] aborted(i, c) ==> !states[i].aborting.contains(c),
{
    let env = Env { bodies, policy, states };
    let other = without(states, raised, aborted);
    let there = Env { bodies, policy, states: other };
    assert(all_below(other, states)) by {
        assert forall|i: int| 0 <= i < states.len() implies #[trigger] below(other[i], states[i]) by {}
    }
    assert(there.covering()) by {
        assert forall|i: int| 0 <= i < bodies.len() implies below(
            #[trigger] there.evaluated(i),
            other[i],
        ) by {
            assert forall|j: int| 0 <= j < bodies[i].calls.len() implies below(
                there.target(#[trigger] bodies[i].calls[j]),
                env.target(bodies[i].calls[j]),
            ) by {
                targets_grow(there, env, bodies[i].calls[j]);
            }
            evaluation_grows(there, env, i);
            assert(env.evaluated(i) == states[i]);
            assert forall|c: Category| there.evaluated(i).enabled.contains(c) implies other[i].enabled.contains(
                c,
            ) by {
                assert(!raised(i, c));
            }
            assert forall|c: Category| there.evaluated(i).aborting.contains(c) implies other[i].aborting.contains(
                c,
            ) by {
                assert(!aborted(i, c));
            }
        }
    }
    assert forall|i: int, c: Category|
        0 <= i < bodies.len() && #[trigger] raised(i, c) implies !states[i].enabled.contains(c) by {
        assert(below(states[i], other[i]));
        assert(!other[i].enabled.contains(c));
    }
    assert forall|i: int, c: Category|
        0 <= i < bodies.len() && #[trigger] aborted(i, c) implies !states[i].aborting.contains(c) by {
        assert(below(states[i], other[i]));
        assert(!other[i].aborting.contains(c));
    }
}

/// A suppressed category is raised by no function, however deep the call that
/// would have raised it.
pub proof fn suppression_is_transitive(
    bodies: Seq<BodyView>,
    policy: Policy,
    states: Seq<StateView>,
    i: int,
)
    requires
        solved(bodies, policy, states),
        0 <= i < bodies.len(),
    ensures
        states[i].enabled.disjoint(policy.suppressed@),
        states[i].aborting.disjoint(policy.suppressed@),
{
    let hidden = |k: int, c: Category| policy.suppressed@.contains(c);
    let other = without(states, hidden, hidden);
    let env = Env { bodies, policy, states: other };
    assert forall|call: CallView, c: Category| policy.suppressed@.contains(c) implies !(
    #[trigger] env.contributed(call).enabled.contains(c)) && !(
    #[trigger] env.contributed(call).aborting.contains(c)) by {
        match call.callee {
            None => {},
            Some(key) => {
                if graph::has_key(bodies, key) {
                    let k = graph::slot(bodies, key);
                    assert(graph::keyed(bodies, key, k));
                    assert(hidden(k, c));
                    assert(!other[k].enabled.contains(c));
                    assert(!other[k].aborting.contains(c));
                }
            },
        }
    }
    assert forall|k: int, c: Category| 0 <= k < bodies.len() && #[trigger] hidden(k, c) implies !(
    env.evaluated(k).enabled.contains(c)) && !(env.evaluated(k).aborting.contains(c)) by {
        let body = bodies[k];
        if !body.opaque {
            if env.raises(body, c) {
                let j = choose|j: int| #[trigger]
                    env.call_counts(body, j) && env.contributed(body.calls[j]).enabled.contains(c);
                assert(!env.contributed(body.calls[j]).enabled.contains(c));
            }
            if env.aborts(body, c) {
                let j = choose|j: int| #[trigger]
                    env.call_counts(body, j) && env.contributed(body.calls[j]).aborting.contains(c);
                assert(!env.contributed(body.calls[j]).aborting.contains(c));
            }
        }
    }
    taken_away(bodies, policy, states, hidden, hidden);
    assert forall|c: Category| policy.suppressed@.contains(c) implies !states[i].enabled.contains(c)
        && !states[i].aborting.contains(c) by {
        assert(hidden(i, c));
    }
}

/// A point on the ordinary control flow path is always reachable.
proof fn normal_runs(env: Env, body: BodyView, j: int)
    requires
        0 <= j < body.calls.len(),
        body.calls[j].guard.normal,
    ensures
        env.call_runs(body, j),
{
    assert forall|live: Live| #[trigger] env.closed_under(body, live) implies live.calls.contains(
        j,
    ) by {
        assert(env.guard_holds(body, live, body.calls[j].guard));
    }
}

/// A callee that nothing recorded is unknown, never taken for clean, and a
/// catch does not make it so.
pub proof fn missing_callees_are_unknown(
    bodies: Seq<BodyView>,
    policy: Policy,
    states: Seq<StateView>,
    i: int,
    j: int,
)
    requires
        solved(bodies, policy, states),
        graph::distinct(bodies),
        0 <= i < bodies.len(),
        !bodies[i].opaque,
        0 <= j < bodies[i].calls.len(),
        bodies[i].calls[j].guard.normal,
        admitted(policy, bodies[i].calls[j]),
        bodies[i].calls[j].callee is Some,
        graph::has_key(bodies, bodies[i].calls[j].callee->0),
        bodies[graph::slot(bodies, bodies[i].calls[j].callee->0)].opaque,
    ensures
        ({
            let c = bodies[graph::slot(bodies, bodies[i].calls[j].callee->0)].unreadable();
            !policy.suppressed@.contains(c) ==> states[i].enabled.contains(c)
        }),
{
    let env = Env { bodies, policy, states };
    let body = bodies[i];
    let key = body.calls[j].callee->0;
    let k = graph::slot(bodies, key);
    let c = bodies[k].unreadable();
    assert(graph::keyed(bodies, key, k));
    assert(env.evaluated(k) == states[k]);
    assert(env.evaluated(i) == states[i]);
    normal_runs(env, body, j);
    if !policy.suppressed@.contains(c) {
        assert(env.call_counts(body, j));
        assert(env.contributed(body.calls[j]).enabled.contains(c));
        assert(env.raises(body, c));
    }
}

/// Everything a body has, taken to be reachable.
pub open spec fn everything() -> Live {
    Live { sites: Set::full(), calls: Set::full() }
}

/// A cleanup path that no enabled panic unwinds into does not run, so what it
/// calls is not reached through it.
pub proof fn cleanup_needs_its_panic(env: Env, body: BodyView, j: int)
    requires
        0 <= j < body.calls.len(),
        !body.calls[j].guard.normal,
        forall|k: int|
            0 <= k < body.calls[j].guard.origins.len() ==> !env.origin_holds(
                body,
                everything(),
                #[trigger] body.calls[j].guard.origins[k],
            ),
    ensures
        !env.call_runs(body, j),
{
    let live = Live { sites: Set::full(), calls: Set::<int>::full().remove(j) };
    assert(env.closed_under(body, live)) by {
        assert forall|i: int|
            0 <= i < body.calls.len() && env.guard_holds(
                body,
                live,
                (#[trigger] body.calls[i]).guard,
            ) implies live.calls.contains(i) by {
            if i == j {
                let g = body.calls[j].guard;
                let k = choose|k: int|
                    0 <= k < g.origins.len() && env.origin_holds(body, live, #[trigger] g.origins[k]);
                assert(env.origin_holds(body, everything(), g.origins[k]));
            }
        }
    }
}

/// A cleanup path runs when the panic behind it does: what a guard lets run
/// while a site unwinds runs wherever that site does, unless its category is
/// assumed away.
pub proof fn a_site_that_unwinds_runs_its_cleanup(env: Env, body: BodyView, i: u32)
    requires
        i < body.sites.len(),
        body.sites[i as int].guard.normal || env.site_runs(body, i as int),
        body.sites[i as int].termination is Unwind,
        !env.policy.suppressed@.contains(body.sites[i as int].category),
    ensures
        forall|j: int|
            0 <= j < body.calls.len() && (#[trigger] body.calls[j]).guard.origins.contains(
                UnwindOrigin::Site(i),
            ) ==> env.call_runs(body, j),
        forall|j: int|
            0 <= j < body.sites.len() && (#[trigger] body.sites[j]).guard.origins.contains(
                UnwindOrigin::Site(i),
            ) ==> env.site_runs(body, j),
{
    assert forall|live: Live, g: GuardView|
        env.closed_under(body, live) && g.origins.contains(
            UnwindOrigin::Site(i),
        ) implies #[trigger] env.guard_holds(body, live, g) by {
        assert(live.sites.contains(i as int)) by {
            if body.sites[i as int].guard.normal {
                assert(env.guard_holds(body, live, body.sites[i as int].guard));
            }
        }
        let k = choose|k: int| 0 <= k < g.origins.len() && g.origins[k] == UnwindOrigin::Site(i);
        assert(env.origin_holds(body, live, g.origins[k]));
    }
    assert forall|j: int|
        0 <= j < body.calls.len() && (#[trigger] body.calls[j]).guard.origins.contains(
            UnwindOrigin::Site(i),
        ) implies env.call_runs(body, j) by {
        assert forall|live: Live| #[trigger] env.closed_under(body, live) implies live.calls.contains(
            j,
        ) by {
            assert(env.guard_holds(body, live, body.calls[j].guard));
        }
    }
    assert forall|j: int|
        0 <= j < body.sites.len() && (#[trigger] body.sites[j]).guard.origins.contains(
            UnwindOrigin::Site(i),
        ) implies env.site_runs(body, j) by {
        assert forall|live: Live| #[trigger] env.closed_under(body, live) implies live.sites.contains(
            j,
        ) by {
            assert(env.guard_holds(body, live, body.sites[j].guard));
        }
    }
}

/// Whether nothing unwinds from a point: a site that ends the process or is
/// assumed away, or a call behind a catch.
pub open spec fn unwinds_nowhere(policy: Policy, body: BodyView, origin: UnwindOrigin) -> bool {
    match origin {
        UnwindOrigin::Site(i) => i >= body.sites.len() || body.sites[i as int].termination is Abort
            || policy.suppressed@.contains(body.sites[i as int].category),
        UnwindOrigin::Call(i) => i >= body.calls.len() || body.calls[i as int].barrier,
    }
}

/// A panic that ends the process runs no cleanup, and neither does one that is
/// caught: what only such panics lead into does not run.
pub proof fn an_abort_runs_no_cleanup(env: Env, body: BodyView, guard: GuardView)
    requires
        !guard.normal,
        forall|k: int|
            0 <= k < guard.origins.len() ==> unwinds_nowhere(
                env.policy,
                body,
                #[trigger] guard.origins[k],
            ),
    ensures
        forall|j: int|
            0 <= j < body.calls.len() && (#[trigger] body.calls[j]).guard == guard
                ==> !env.call_runs(body, j),
        forall|j: int|
            0 <= j < body.sites.len() && (#[trigger] body.sites[j]).guard == guard
                ==> !env.site_runs(body, j),
{
    assert forall|live: Live| !(#[trigger] env.guard_holds(body, live, guard)) by {
        if env.guard_holds(body, live, guard) {
            let k = choose|k: int|
                0 <= k < guard.origins.len() && env.origin_holds(
                    body,
                    live,
                    #[trigger] guard.origins[k],
                );
            assert(unwinds_nowhere(env.policy, body, guard.origins[k]));
        }
    }
    assert forall|j: int|
        0 <= j < body.calls.len() && (#[trigger] body.calls[j]).guard == guard implies !env.call_runs(
        body,
        j,
    ) by {
        let live = Live { sites: Set::full(), calls: Set::<int>::full().remove(j) };
        assert(env.closed_under(body, live));
    }
    assert forall|j: int|
        0 <= j < body.sites.len() && (#[trigger] body.sites[j]).guard == guard implies !env.site_runs(
        body,
        j,
    ) by {
        let live = Live { sites: Set::<int>::full().remove(j), calls: Set::full() };
        assert(env.closed_under(body, live));
    }
}

} // verus!
