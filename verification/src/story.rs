//! The ways a panic comes out of a function, told one at a time.
//!
//! A solution says which panics each function can raise. A story is one of
//! them from where it starts to where it comes out: the check that fails or
//! the code nobody can read, the calls it passes on its way up, and the
//! panics that were already unwinding where it starts in a cleanup. What is
//! shown here is that a solution holds exactly what some story tells.

use vstd::prelude::*;

use crate::category::Category;
use crate::graph;
use crate::model::{BodyView, CallView, EdgeKind, GuardView, UnwindOrigin};
use crate::solve;
use crate::solve::{Env, Live, Policy, StateView};

verus! {

/// One way a panic comes out of a function, which each is told by its index.
pub enum Story {
    /// A function that cannot be read raises something.
    Unread(int),
    /// A site of a function raises. It stands on the ordinary path, or runs
    /// while another panic of the function unwinds.
    Site(int, int, Option<Box<Story>>),
    /// A call raises whose target nobody could name.
    Lost(int, int, Option<Box<Story>>),
    /// A call passes on what comes out of the function called.
    Call(int, int, Option<Box<Story>>, Box<Story>),
}

impl Story {
    /// The function the panic comes out of.
    pub open spec fn function(self) -> int {
        match self {
            Story::Unread(f) => f,
            Story::Site(f, _, _) => f,
            Story::Lost(f, _, _) => f,
            Story::Call(f, _, _, _) => f,
        }
    }

    /// What kind of panic it is.
    pub open spec fn category(self, bodies: Seq<BodyView>) -> Category
        decreases self,
    {
        match self {
            Story::Unread(f) => if bodies[f].foreign {
                Category::Foreign
            } else {
                Category::Unknown
            },
            Story::Site(f, i, _) => bodies[f].sites[i].category,
            Story::Lost(f, j, _) => match bodies[f].calls[j].kind {
                EdgeKind::Vtable => Category::DynCall,
                EdgeKind::FnPtr => Category::FnPointer,
                EdgeKind::Generic => Category::GenericBound,
                _ => Category::Unknown,
            },
            Story::Call(_, _, _, inner) => inner.category(bodies),
        }
    }

    /// Whether it may unwind out of the function. Code that cannot be read may.
    pub open spec fn unwinds(self, bodies: Seq<BodyView>) -> bool
        decreases self,
    {
        match self {
            Story::Unread(_) => true,
            Story::Site(f, i, _) => bodies[f].sites[i].termination is Unwind,
            Story::Lost(f, j, _) => !bodies[f].calls[j].barrier,
            Story::Call(f, j, _, inner) => !bodies[f].calls[j].barrier && inner.unwinds(bodies),
        }
    }

    /// Whether it may end the process. Code that cannot be read may.
    pub open spec fn aborts(self, bodies: Seq<BodyView>) -> bool
        decreases self,
    {
        match self {
            Story::Unread(_) => true,
            Story::Site(f, i, _) => bodies[f].sites[i].termination is Abort,
            Story::Lost(_, _, _) => true,
            Story::Call(_, _, _, inner) => inner.aborts(bodies),
        }
    }

    /// The point of the function it unwinds from.
    pub open spec fn starts_from(self, origin: UnwindOrigin) -> bool {
        match (self, origin) {
            (Story::Site(_, i, _), UnwindOrigin::Site(n)) => i == n,
            (Story::Lost(_, j, _), UnwindOrigin::Call(n)) => j == n,
            (Story::Call(_, j, _, _), UnwindOrigin::Call(n)) => j == n,
            _ => false,
        }
    }

    /// Whether it can happen, where the categories that are assumed away do
    /// not and only some edges are followed.
    ///
    /// A catch lets through only what ends the process.
    pub open spec fn happens(self, bodies: Seq<BodyView>, policy: Policy) -> bool
        decreases self,
    {
        match self {
            Story::Unread(f) => {
                &&& 0 <= f < bodies.len()
                &&& bodies[f].opaque
                &&& !policy.suppressed@.contains(self.category(bodies))
            },
            Story::Site(f, i, during) => {
                &&& 0 <= f < bodies.len()
                &&& !bodies[f].opaque
                &&& 0 <= i < bodies[f].sites.len()
                &&& !policy.suppressed@.contains(bodies[f].sites[i].category)
                &&& match during {
                    None => bodies[f].sites[i].guard.normal,
                    Some(other) => other.happens(bodies, policy) && other.function() == f
                        && other.unwinds(bodies) && leads_into(*other, bodies[f].sites[i].guard),
                }
            },
            Story::Lost(f, j, during) => {
                &&& 0 <= f < bodies.len()
                &&& !bodies[f].opaque
                &&& 0 <= j < bodies[f].calls.len()
                &&& bodies[f].calls[j].callee is None
                &&& followed(policy, bodies[f].calls[j])
                &&& !policy.suppressed@.contains(self.category(bodies))
                &&& match during {
                    None => bodies[f].calls[j].guard.normal,
                    Some(other) => other.happens(bodies, policy) && other.function() == f
                        && other.unwinds(bodies) && leads_into(*other, bodies[f].calls[j].guard),
                }
            },
            Story::Call(f, j, during, inner) => {
                &&& 0 <= f < bodies.len()
                &&& !bodies[f].opaque
                &&& 0 <= j < bodies[f].calls.len()
                &&& inner.happens(bodies, policy)
                &&& bodies[f].calls[j].callee == Some(bodies[inner.function()].key)
                &&& followed(policy, bodies[f].calls[j])
                &&& bodies[f].calls[j].barrier ==> inner.aborts(bodies)
                &&& match during {
                    None => bodies[f].calls[j].guard.normal,
                    Some(other) => other.happens(bodies, policy) && other.function() == f
                        && other.unwinds(bodies) && leads_into(*other, bodies[f].calls[j].guard),
                }
            },
        }
    }
}

/// Whether a panic unwinds into what a guard stands before.
pub open spec fn leads_into(story: Story, guard: GuardView) -> bool {
    exists|k: int| 0 <= k < guard.origins.len() && story.starts_from(#[trigger] guard.origins[k])
}

/// Whether a policy follows a call: an exact one always, any other only where
/// it is asked for, and a candidate only where candidates are.
pub open spec fn followed(policy: Policy, call: CallView) -> bool {
    &&& call.kind is Static || call.kind is Drop || policy.edges.follow_inexact
    &&& call.candidate ==> policy.edges.candidates
}

/// Whether a story tells of a panic of a category that comes out of a function.
pub open spec fn tells(s: Story, bodies: Seq<BodyView>, policy: Policy, f: int, c: Category) -> bool {
    s.happens(bodies, policy) && s.function() == f && s.category(bodies) == c
}

/// The way a point of a function is reached in a story.
pub open spec fn reaches(
    during: Option<Box<Story>>,
    bodies: Seq<BodyView>,
    policy: Policy,
    f: int,
    guard: GuardView,
) -> bool {
    match during {
        None => guard.normal,
        Some(other) => other.happens(bodies, policy) && other.function() == f && other.unwinds(bodies)
            && leads_into(*other, guard),
    }
}

proof fn reached_points_run(
    s: Story,
    bodies: Seq<BodyView>,
    policy: Policy,
    states: Seq<StateView>,
)
    requires
        solve::solved(bodies, policy, states),
        graph::distinct(bodies),
        s.happens(bodies, policy),
    ensures
        ({
            let env = Env { bodies, policy, states };
            let f = s.function();
            let body = bodies[f];
            &&& 0 <= f < bodies.len()
            &&& states[f].enabled.contains(s.category(bodies))
            &&& s.aborts(bodies) ==> states[f].aborting.contains(s.category(bodies))
            &&& s.unwinds(bodies) ==> states[f].unwinds
            &&& forall|live: Live, origin: UnwindOrigin|
                #![trigger env.origin_holds(body, live, origin)]
                env.closed_under(body, live) && s.unwinds(bodies) && s.starts_from(origin)
                    ==> env.origin_holds(body, live, origin)
        }),
    decreases s, 1nat,
{
    let env = Env { bodies, policy, states };
    let f = s.function();
    let body = bodies[f];
    assert(env.evaluated(f) == states[f]);
    match s {
        Story::Unread(_) => {},
        Story::Site(_, i, during) => {
            point_runs(during, s, bodies, policy, states, body.sites[i].guard);
            assert(env.site_runs(body, i)) by {
                assert forall|live: Live| #[trigger] env.closed_under(body, live) implies live.sites.contains(
                    i,
                ) by {
                    assert(env.guard_holds(body, live, body.sites[i].guard));
                }
            }
            assert(env.site_raises(body, i));
            assert(env.raises(body, body.sites[i].category));
        },
        Story::Lost(_, j, during) => {
            point_runs(during, s, bodies, policy, states, body.calls[j].guard);
            assert(env.call_runs(body, j)) by {
                assert forall|live: Live| #[trigger] env.closed_under(body, live) implies live.calls.contains(
                    j,
                ) by {
                    assert(env.guard_holds(body, live, body.calls[j].guard));
                }
            }
            assert(env.call_counts(body, j));
            let c = s.category(bodies);
            assert(env.contributed(body.calls[j]).enabled.contains(c));
            assert(env.contributed(body.calls[j]).aborting.contains(c));
            assert(env.raises(body, c));
            assert(env.aborts(body, c));
        },
        Story::Call(_, j, during, inner) => {
            point_runs(during, s, bodies, policy, states, body.calls[j].guard);
            reached_points_run(*inner, bodies, policy, states);
            let g = inner.function();
            let key = bodies[g].key;
            assert(graph::keyed(bodies, key, g));
            assert(graph::keyed(bodies, key, graph::slot(bodies, key)));
            assert(graph::slot(bodies, key) == g);
            assert(env.call_runs(body, j)) by {
                assert forall|live: Live| #[trigger] env.closed_under(body, live) implies live.calls.contains(
                    j,
                ) by {
                    assert(env.guard_holds(body, live, body.calls[j].guard));
                }
            }
            assert(env.call_counts(body, j));
            let c = s.category(bodies);
            assert(env.contributed(body.calls[j]).enabled.contains(c));
            assert(env.raises(body, c));
            if s.aborts(bodies) {
                assert(env.contributed(body.calls[j]).aborting.contains(c));
                assert(env.aborts(body, c));
            }
        },
    }
}

proof fn point_runs(
    during: Option<Box<Story>>,
    s: Story,
    bodies: Seq<BodyView>,
    policy: Policy,
    states: Seq<StateView>,
    guard: GuardView,
)
    requires
        solve::solved(bodies, policy, states),
        graph::distinct(bodies),
        reaches(during, bodies, policy, s.function(), guard),
        match s {
            Story::Unread(_) => false,
            Story::Site(_, _, d) => d == during,
            Story::Lost(_, _, d) => d == during,
            Story::Call(_, _, d, _) => d == during,
        },
    ensures
        ({
            let env = Env { bodies, policy, states };
            let body = bodies[s.function()];
            forall|live: Live| #[trigger]
                env.closed_under(body, live) ==> env.guard_holds(body, live, guard)
        }),
    decreases s, 0nat,
{
    let env = Env { bodies, policy, states };
    let body = bodies[s.function()];
    match during {
        None => {},
        Some(other) => {
            reached_points_run(*other, bodies, policy, states);
            let k = choose|k: int|
                0 <= k < guard.origins.len() && other.starts_from(#[trigger] guard.origins[k]);
            assert forall|live: Live| #[trigger] env.closed_under(body, live) implies env.guard_holds(
                body,
                live,
                guard,
            ) by {
                assert(env.origin_holds(body, live, guard.origins[k]));
            }
        },
    }
}

/// What can happen is told: whatever comes out of a function in any story is
/// among what the solution says it raises, an abort among what it says no
/// catch contains, and a function something unwinds out of is said to unwind.
pub proof fn what_can_happen_is_told(
    s: Story,
    bodies: Seq<BodyView>,
    policy: Policy,
    states: Seq<StateView>,
)
    requires
        solve::solved(bodies, policy, states),
        graph::distinct(bodies),
        s.happens(bodies, policy),
    ensures
        0 <= s.function() < bodies.len(),
        states[s.function()].enabled.contains(s.category(bodies)),
        s.aborts(bodies) ==> states[s.function()].aborting.contains(s.category(bodies)),
        s.unwinds(bodies) ==> states[s.function()].unwinds,
{
    reached_points_run(s, bodies, policy, states);
}

/// Whether a story tells of an abort of a category in a function.
pub open spec fn tells_abort(
    s: Story,
    bodies: Seq<BodyView>,
    policy: Policy,
    f: int,
    c: Category,
) -> bool {
    tells(s, bodies, policy, f, c) && s.aborts(bodies)
}

/// Whether a story tells of something unwinding out of a function.
pub open spec fn tells_unwind(s: Story, bodies: Seq<BodyView>, policy: Policy, f: int) -> bool {
    s.happens(bodies, policy) && s.function() == f && s.unwinds(bodies)
}

/// What the stories of each function tell, together.
pub open spec fn told(bodies: Seq<BodyView>, policy: Policy) -> Seq<StateView> {
    Seq::new(
        bodies.len(),
        |f: int|
            StateView {
                enabled: Set::new(
                    |c: Category| exists|s: Story| #[trigger] tells(s, bodies, policy, f, c),
                ),
                aborting: Set::new(
                    |c: Category| exists|s: Story| #[trigger] tells_abort(s, bodies, policy, f, c),
                ),
                unwinds: exists|s: Story| #[trigger] tells_unwind(s, bodies, policy, f),
            },
    )
}

/// The points of a function that some story reaches.
spec fn reached_in(bodies: Seq<BodyView>, policy: Policy, f: int) -> Live {
    Live {
        sites: Set::new(
            |i: int|
                exists|d: Option<Box<Story>>| #[trigger]
                    reaches(d, bodies, policy, f, bodies[f].sites[i].guard),
        ),
        calls: Set::new(
            |j: int|
                exists|d: Option<Box<Story>>| #[trigger]
                    reaches(d, bodies, policy, f, bodies[f].calls[j].guard),
        ),
    }
}

proof fn a_call_is_told(
    bodies: Seq<BodyView>,
    policy: Policy,
    f: int,
    j: int,
    during: Option<Box<Story>>,
    c: Category,
)
    requires
        graph::distinct(bodies),
        0 <= f < bodies.len(),
        !bodies[f].opaque,
        0 <= j < bodies[f].calls.len(),
        solve::admitted(policy, bodies[f].calls[j]),
        reaches(during, bodies, policy, f, bodies[f].calls[j].guard),
    ensures
        ({
            let env = Env { bodies, policy, states: told(bodies, policy) };
            let given = env.contributed(bodies[f].calls[j]);
            &&& given.enabled.contains(c) ==> exists|s: Story| #[trigger]
                tells(s, bodies, policy, f, c)
            &&& given.aborting.contains(c) ==> exists|s: Story| #[trigger]
                tells_abort(s, bodies, policy, f, c)
            &&& given.unwinds ==> exists|s: Story| #[trigger]
                tells_unwind(s, bodies, policy, f) && s.starts_from(UnwindOrigin::Call(j as u32))
                    || j > u32::MAX && tells_unwind(s, bodies, policy, f)
        }),
{
    let env = Env { bodies, policy, states: told(bodies, policy) };
    let call = bodies[f].calls[j];
    let given = env.contributed(call);
    match call.callee {
        None => {
            let s = Story::Lost(f, j, during);
            if given.enabled.contains(c) {
                assert(tells(s, bodies, policy, f, c));
            }
            if given.aborting.contains(c) {
                assert(tells_abort(s, bodies, policy, f, c));
            }
            if given.unwinds {
                assert(tells_unwind(s, bodies, policy, f));
            }
        },
        Some(key) => {
            if graph::has_key(bodies, key) {
                let g = graph::slot(bodies, key);
                assert(graph::keyed(bodies, key, g));
                if env.target(call).aborting.contains(c) {
                    let inner = choose|s: Story| #[trigger] tells_abort(s, bodies, policy, g, c);
                    let s = Story::Call(f, j, during, Box::new(inner));
                    assert(tells(s, bodies, policy, f, c));
                    assert(tells_abort(s, bodies, policy, f, c));
                }
                if given.enabled.contains(c) && !call.barrier {
                    let inner = choose|s: Story| #[trigger] tells(s, bodies, policy, g, c);
                    let s = Story::Call(f, j, during, Box::new(inner));
                    assert(tells(s, bodies, policy, f, c));
                }
                if given.unwinds {
                    let inner = choose|s: Story| #[trigger] tells_unwind(s, bodies, policy, g);
                    let s = Story::Call(f, j, during, Box::new(inner));
                    assert(tells_unwind(s, bodies, policy, f));
                }
            }
        },
    }
}

proof fn stories_reach_what_runs(bodies: Seq<BodyView>, policy: Policy, f: int)
    requires
        graph::distinct(bodies),
        0 <= f < bodies.len(),
        !bodies[f].opaque,
    ensures
        (Env { bodies, policy, states: told(bodies, policy) }).closed_under(
            bodies[f],
            reached_in(bodies, policy, f),
        ),
{
    let env = Env { bodies, policy, states: told(bodies, policy) };
    let body = bodies[f];
    let live = reached_in(bodies, policy, f);
    assert forall|g: GuardView| #[trigger] env.guard_holds(body, live, g) implies exists|
        d: Option<Box<Story>>,
    | #[trigger] reaches(d, bodies, policy, f, g) by {
        if g.normal {
            assert(reaches(None, bodies, policy, f, g));
        } else {
            let k = choose|k: int|
                0 <= k < g.origins.len() && env.origin_holds(body, live, #[trigger] g.origins[k]);
            match g.origins[k] {
                UnwindOrigin::Site(i) => {
                    let d = choose|d: Option<Box<Story>>| #[trigger]
                        reaches(d, bodies, policy, f, body.sites[i as int].guard);
                    let s = Story::Site(f, i as int, d);
                    assert(s.happens(bodies, policy));
                    assert(s.starts_from(g.origins[k]));
                    assert(reaches(Some(Box::new(s)), bodies, policy, f, g));
                },
                UnwindOrigin::Call(j) => {
                    let d = choose|d: Option<Box<Story>>| #[trigger]
                        reaches(d, bodies, policy, f, body.calls[j as int].guard);
                    a_call_is_told(bodies, policy, f, j as int, d, Category::Unknown);
                    let s = choose|s: Story| #[trigger]
                        tells_unwind(s, bodies, policy, f) && s.starts_from(UnwindOrigin::Call(j))
                            || j > u32::MAX && tells_unwind(s, bodies, policy, f);
                    assert(s.starts_from(g.origins[k]));
                    assert(reaches(Some(Box::new(s)), bodies, policy, f, g));
                },
            }
        }
    }
}

proof fn stories_cover(bodies: Seq<BodyView>, policy: Policy, f: int)
    requires
        graph::distinct(bodies),
        0 <= f < bodies.len(),
    ensures
        solve::below(
            (Env { bodies, policy, states: told(bodies, policy) }).evaluated(f),
            told(bodies, policy)[f],
        ),
{
    let env = Env { bodies, policy, states: told(bodies, policy) };
    let body = bodies[f];
    if body.opaque {
        let s = Story::Unread(f);
        let c = s.category(bodies);
        assert(!policy.suppressed@.contains(c) ==> tells(s, bodies, policy, f, c) && tells_abort(
            s,
            bodies,
            policy,
            f,
            c,
        ) && tells_unwind(s, bodies, policy, f));
    } else {
        let live = reached_in(bodies, policy, f);
        stories_reach_what_runs(bodies, policy, f);
        assert forall|i: int| #[trigger] env.site_raises(body, i) implies tells_site(
            bodies,
            policy,
            f,
            i,
        ) by {
            assert(live.sites.contains(i));
            let d = choose|d: Option<Box<Story>>| #[trigger]
                reaches(d, bodies, policy, f, body.sites[i].guard);
            let s = Story::Site(f, i, d);
            assert(tells(s, bodies, policy, f, body.sites[i].category));
            if body.sites[i].termination is Abort {
                assert(tells_abort(s, bodies, policy, f, body.sites[i].category));
            }
            if body.sites[i].termination is Unwind {
                assert(tells_unwind(s, bodies, policy, f));
            }
        }
        assert forall|c: Category| env.raises(body, c) implies told(bodies, policy)[f].enabled.contains(
            c,
        ) by {
            if exists|i: int| #[trigger] env.site_raises(body, i) && body.sites[i].category == c {
                let i = choose|i: int| #[trigger]
                    env.site_raises(body, i) && body.sites[i].category == c;
                assert(tells_site(bodies, policy, f, i));
            } else {
                let j = choose|j: int| #[trigger]
                    env.call_counts(body, j) && env.contributed(body.calls[j]).enabled.contains(c);
                assert(live.calls.contains(j));
                let d = choose|d: Option<Box<Story>>| #[trigger]
                    reaches(d, bodies, policy, f, body.calls[j].guard);
                a_call_is_told(bodies, policy, f, j, d, c);
            }
        }
        assert forall|c: Category| env.aborts(body, c) implies told(bodies, policy)[f].aborting.contains(
            c,
        ) by {
            if exists|i: int| #[trigger]
                env.site_raises(body, i) && body.sites[i].category == c
                    && body.sites[i].termination is Abort {
                let i = choose|i: int| #[trigger]
                    env.site_raises(body, i) && body.sites[i].category == c
                        && body.sites[i].termination is Abort;
                assert(tells_site(bodies, policy, f, i));
            } else {
                let j = choose|j: int| #[trigger]
                    env.call_counts(body, j) && env.contributed(body.calls[j]).aborting.contains(c);
                assert(live.calls.contains(j));
                let d = choose|d: Option<Box<Story>>| #[trigger]
                    reaches(d, bodies, policy, f, body.calls[j].guard);
                a_call_is_told(bodies, policy, f, j, d, c);
            }
        }
        if env.unwinds(body) {
            if exists|i: int| #[trigger]
                env.site_raises(body, i) && body.sites[i].termination is Unwind {
                let i = choose|i: int| #[trigger]
                    env.site_raises(body, i) && body.sites[i].termination is Unwind;
                assert(tells_site(bodies, policy, f, i));
            } else {
                let j = choose|j: int| #[trigger]
                    env.call_counts(body, j) && env.contributed(body.calls[j]).unwinds;
                assert(live.calls.contains(j));
                let d = choose|d: Option<Box<Story>>| #[trigger]
                    reaches(d, bodies, policy, f, body.calls[j].guard);
                a_call_is_told(bodies, policy, f, j, d, Category::Unknown);
            }
        }
    }
}

/// Whether the stories of a function tell of one of its sites.
spec fn tells_site(bodies: Seq<BodyView>, policy: Policy, f: int, i: int) -> bool {
    let site = bodies[f].sites[i];
    &&& told(bodies, policy)[f].enabled.contains(site.category)
    &&& site.termination is Abort ==> told(bodies, policy)[f].aborting.contains(site.category)
    &&& site.termination is Unwind ==> told(bodies, policy)[f].unwinds
}

/// Nothing else is told: each panic the solution says a function raises comes
/// out of it in some story, each that it says no catch contains ends the
/// process in some story, and a function it says unwinds does in some story.
pub proof fn what_is_told_can_happen(
    bodies: Seq<BodyView>,
    policy: Policy,
    states: Seq<StateView>,
    f: int,
    c: Category,
)
    requires
        solve::solved(bodies, policy, states),
        graph::distinct(bodies),
        0 <= f < bodies.len(),
    ensures
        states[f].enabled.contains(c) ==> exists|s: Story| #[trigger]
            tells(s, bodies, policy, f, c),
        states[f].aborting.contains(c) ==> exists|s: Story| #[trigger]
            tells_abort(s, bodies, policy, f, c),
        states[f].unwinds ==> exists|s: Story| #[trigger] tells_unwind(s, bodies, policy, f),
{
    let other = told(bodies, policy);
    let env = Env { bodies, policy, states: other };
    assert(env.covering()) by {
        assert forall|i: int| 0 <= i < bodies.len() implies solve::below(
            #[trigger] env.evaluated(i),
            other[i],
        ) by {
            stories_cover(bodies, policy, i);
        }
    }
    assert(solve::all_below(states, other));
    assert(solve::below(states[f], other[f]));
}

/// A point of a function runs exactly where a story reaches it: on the ordinary
/// path, or in a cleanup that some panic of the function unwinds into.
pub proof fn what_runs_is_reached(
    bodies: Seq<BodyView>,
    policy: Policy,
    states: Seq<StateView>,
    f: int,
)
    requires
        solve::solved(bodies, policy, states),
        graph::distinct(bodies),
        0 <= f < bodies.len(),
        !bodies[f].opaque,
    ensures
        ({
            let env = Env { bodies, policy, states };
            &&& forall|i: int|
                0 <= i < bodies[f].sites.len() ==> (#[trigger] env.site_runs(bodies[f], i) <==> exists|
                    d: Option<Box<Story>>,
                | #[trigger] reaches(d, bodies, policy, f, bodies[f].sites[i].guard))
            &&& forall|j: int|
                0 <= j < bodies[f].calls.len() ==> (#[trigger] env.call_runs(bodies[f], j) <==> exists|
                    d: Option<Box<Story>>,
                | #[trigger] reaches(d, bodies, policy, f, bodies[f].calls[j].guard))
        }),
{
    let env = Env { bodies, policy, states };
    let body = bodies[f];
    let live = reached_in(bodies, policy, f);
    assert(states =~= told(bodies, policy)) by {
        assert forall|g: int| 0 <= g < bodies.len() implies #[trigger] states[g] == told(
            bodies,
            policy,
        )[g] by {
            let there = told(bodies, policy)[g];
            assert forall|c: Category| states[g].enabled.contains(c) == there.enabled.contains(c)
                && states[g].aborting.contains(c) == there.aborting.contains(c) && states[g].unwinds
                == there.unwinds by {
                what_is_told_can_happen(bodies, policy, states, g, c);
                if there.enabled.contains(c) {
                    let s = choose|s: Story| #[trigger] tells(s, bodies, policy, g, c);
                    what_can_happen_is_told(s, bodies, policy, states);
                }
                if there.aborting.contains(c) {
                    let s = choose|s: Story| #[trigger] tells_abort(s, bodies, policy, g, c);
                    what_can_happen_is_told(s, bodies, policy, states);
                }
                if there.unwinds {
                    let s = choose|s: Story| #[trigger] tells_unwind(s, bodies, policy, g);
                    what_can_happen_is_told(s, bodies, policy, states);
                }
            }
            assert(states[g].unwinds == there.unwinds) by {
                assert(states[g].enabled.contains(Category::Unknown) == there.enabled.contains(
                    Category::Unknown,
                ));
            }
            assert(states[g].enabled =~= there.enabled);
            assert(states[g].aborting =~= there.aborting);
        }
    }
    stories_reach_what_runs(bodies, policy, f);
    assert(env.closed_under(body, live));
    assert forall|d: Option<Box<Story>>, guard: GuardView, any: Live| #[trigger]
        reaches(d, bodies, policy, f, guard) && #[trigger] env.closed_under(body, any) implies env.guard_holds(
        body,
        any,
        guard,
    ) by {
        match d {
            None => {},
            Some(other) => {
                reached_points_run(*other, bodies, policy, states);
                let k = choose|k: int|
                    0 <= k < guard.origins.len() && other.starts_from(#[trigger] guard.origins[k]);
                assert(env.origin_holds(body, any, guard.origins[k]));
            },
        }
    }
    assert forall|i: int| 0 <= i < body.sites.len() implies (#[trigger] env.site_runs(body, i)
        <==> exists|d: Option<Box<Story>>| #[trigger]
        reaches(d, bodies, policy, f, body.sites[i].guard)) by {
        if env.site_runs(body, i) {
            assert(live.sites.contains(i));
        }
        if exists|d: Option<Box<Story>>| #[trigger]
            reaches(d, bodies, policy, f, body.sites[i].guard) {
            let d = choose|d: Option<Box<Story>>| #[trigger]
                reaches(d, bodies, policy, f, body.sites[i].guard);
            assert forall|any: Live| #[trigger] env.closed_under(body, any) implies any.sites.contains(
                i,
            ) by {
                assert(env.guard_holds(body, any, body.sites[i].guard));
            }
        }
    }
    assert forall|j: int| 0 <= j < body.calls.len() implies (#[trigger] env.call_runs(body, j)
        <==> exists|d: Option<Box<Story>>| #[trigger]
        reaches(d, bodies, policy, f, body.calls[j].guard)) by {
        if env.call_runs(body, j) {
            assert(live.calls.contains(j));
        }
        if exists|d: Option<Box<Story>>| #[trigger]
            reaches(d, bodies, policy, f, body.calls[j].guard) {
            let d = choose|d: Option<Box<Story>>| #[trigger]
                reaches(d, bodies, policy, f, body.calls[j].guard);
            assert forall|any: Live| #[trigger] env.closed_under(body, any) implies any.calls.contains(
                j,
            ) by {
                assert(env.guard_holds(body, any, body.calls[j].guard));
            }
        }
    }
}

} // verus!
