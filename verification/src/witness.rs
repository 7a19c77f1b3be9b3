//! Shortest call path from a function to a panic it can reach.
//!
//! Paths are reconstructed on demand rather than stored during solving, which
//! keeps the solver's state small.

use std::collections::VecDeque;

use vstd::prelude::*;

use crate::category::{Category, Termination};
use crate::graph;
use crate::graph::{FuncId, Graph};
use crate::model;
use crate::model::{Body, EdgeKind, Loc, LocView};
use crate::solve;
use crate::solve::{Activity, Env, Solution};
use crate::table;
use crate::table::Links;

verus! {

/// One call in a witness path.
#[derive(Debug)]
pub struct Hop {
    /// The function making the call.
    pub caller: FuncId,
    /// The function being called.
    pub callee: FuncId,
    /// Where the call is written.
    pub loc: Option<Loc>,
    /// How the target was resolved.
    pub kind: EdgeKind,
    /// True when this call runs only while an earlier panic is unwinding.
    pub cleanup: bool,
}

/// What a [`Hop`] says.
#[verifier::ext_equal]
pub struct HopView {
    pub caller: FuncId,
    pub callee: FuncId,
    pub loc: Option<LocView>,
    pub kind: EdgeKind,
    pub cleanup: bool,
}

impl View for Hop {
    type V = HopView;

    open spec fn view(&self) -> HopView {
        HopView {
            caller: self.caller,
            callee: self.callee,
            loc: model::loc_view(self.loc),
            kind: self.kind,
            cleanup: self.cleanup,
        }
    }
}

impl Clone for Hop {
    fn clone(&self) -> (r: Hop)
        ensures
            r@ == self@,
    {
        Hop {
            caller: self.caller,
            callee: self.callee,
            loc: model::copy_loc(&self.loc),
            kind: self.kind,
            cleanup: self.cleanup,
        }
    }
}

/// What a list of hops says.
pub open spec fn hop_views(hops: Seq<Hop>) -> Seq<HopView> {
    hops.map_values(|h: Hop| h@)
}

/// What the end of a witness path actually is.
#[derive(Debug, Clone, Copy, PartialEq, Eq, Structural)]
pub enum Terminal {
    /// A panic raised directly by the function, by site index.
    Site(usize),
    /// The function has no recorded body, so its behaviour is unknown.
    Opaque,
    /// A call whose target could not be determined, by call index.
    Unresolved(usize),
}

/// A path from a root function to a reachable panic.
#[derive(Debug)]
pub struct Witness {
    /// The calls traversed, in order, from the root.
    pub hops: Vec<Hop>,
    /// The function the path ends at.
    pub func: FuncId,
    /// Why the path ends there.
    pub terminal: Terminal,
}

/// What a [`Witness`] says.
#[verifier::ext_equal]
pub struct WitnessView {
    pub hops: Seq<HopView>,
    pub func: FuncId,
    pub terminal: Terminal,
}

impl View for Witness {
    type V = WitnessView;

    open spec fn view(&self) -> WitnessView {
        WitnessView { hops: hop_views(self.hops@), func: self.func, terminal: self.terminal }
    }
}

/// A function, and whether the path to it passed a catch.
#[derive(Debug, Clone, Copy, PartialEq, Eq, Structural)]
pub struct Spot {
    /// The function.
    pub func: FuncId,
    /// True when only an aborting panic gets back to the root from here.
    pub caught: bool,
}

/// Whether a spot's function has no readable body, which counts as a panic of
/// a category.
pub open spec fn unread_here(env: Env, at: Spot, category: Category) -> bool {
    let body = env.bodies[at.func.0 as int];
    body.opaque && body.unreadable() == category && !env.policy.suppressed@.contains(category)
}

/// Whether a site of a spot's function raises a category that gets back to
/// the root.
pub open spec fn raised_at(env: Env, at: Spot, category: Category, i: int) -> bool {
    let body = env.bodies[at.func.0 as int];
    &&& !body.opaque
    &&& env.site_raises(body, i)
    &&& body.sites[i].category == category
    &&& at.caught ==> body.sites[i].termination is Abort
}

/// Whether a call of a spot's function has no known target, which counts as a
/// panic of a category.
pub open spec fn unresolved_at(env: Env, at: Spot, category: Category, i: int) -> bool {
    let body = env.bodies[at.func.0 as int];
    &&& !body.opaque
    &&& env.call_counts(body, i)
    &&& body.calls[i].callee is None
    &&& body.calls[i].kind.unknown_target() == category
    &&& !env.policy.suppressed@.contains(category)
}

/// Whether a terminal of a spot's function is a panic of a category that gets
/// back to the root.
pub open spec fn ends(env: Env, at: Spot, category: Category, terminal: Terminal) -> bool {
    match terminal {
        Terminal::Opaque => unread_here(env, at, category),
        Terminal::Site(i) => raised_at(env, at, category, i as int),
        Terminal::Unresolved(i) => unresolved_at(env, at, category, i as int),
    }
}

/// Whether a spot's function itself raises a category that gets back to the
/// root.
pub open spec fn raised_here(env: Env, at: Spot, category: Category) -> bool {
    ||| unread_here(env, at, category)
    ||| exists|i: int| raised_at(env, at, category, i)
    ||| exists|i: int| unresolved_at(env, at, category, i)
}

/// Whether a call leads from one spot to another.
pub open spec fn steps(env: Env, from: Spot, to: Spot, j: int) -> bool {
    let body = env.bodies[from.func.0 as int];
    &&& !body.opaque
    &&& env.call_counts(body, j)
    &&& to.func.0 < env.bodies.len()
    &&& body.calls[j].callee == Some(env.bodies[to.func.0 as int].key)
    &&& to.caught == (from.caught || body.calls[j].barrier)
}

/// Whether some call leads from one spot to another.
pub open spec fn linked(env: Env, from: Spot, to: Spot) -> bool {
    exists|j: int| steps(env, from, to, j)
}

/// Whether a panic of a category is reached from a spot in `n` calls.
pub open spec fn explains(env: Env, at: Spot, category: Category, n: nat) -> bool
    decreases n,
{
    if n == 0 {
        raised_here(env, at, category)
    } else {
        exists|to: Spot| #[trigger]
            linked(env, at, to) && explains(env, to, category, (n - 1) as nat)
    }
}

/// Whether a hop is a call of a spot's function, as it is written there.
pub open spec fn is_call(env: Env, at: Spot, hop: HopView, j: int) -> bool {
    let call = env.bodies[at.func.0 as int].calls[j];
    &&& hop.caller == at.func
    &&& steps(env, at, Spot { func: hop.callee, caught: at.caught || call.barrier }, j)
    &&& hop.loc == call.loc
    &&& hop.kind == call.kind
    &&& hop.cleanup == !call.guard.normal
}

/// Where a call of a spot's function leads.
pub open spec fn after(env: Env, at: Spot, hop: HopView, j: int) -> Spot {
    Spot {
        func: hop.callee,
        caught: at.caught || env.bodies[at.func.0 as int].calls[j].barrier,
    }
}

/// Whether a path of calls leads from a spot to a panic of a category.
pub open spec fn path(
    env: Env,
    at: Spot,
    hops: Seq<HopView>,
    func: FuncId,
    terminal: Terminal,
    category: Category,
) -> bool
    decreases hops.len(),
{
    if hops.len() == 0 {
        at.func == func && ends(env, at, category, terminal)
    } else {
        exists|j: int| #[trigger]
            is_call(env, at, hops[0], j) && path(
                env,
                after(env, at, hops[0], j),
                hops.skip(1),
                func,
                terminal,
                category,
            )
    }
}

/// Whether a path is a shortest one from a function to a panic of a category.
pub open spec fn is_witness(env: Env, root: FuncId, category: Category, w: WitnessView) -> bool {
    let at = Spot { func: root, caught: false };
    &&& path(env, at, w.hops, w.func, w.terminal, category)
    &&& forall|n: nat| n < w.hops.len() ==> !explains(env, at, category, n)
}

/// A path stays inside the graph, and what it ends at is there.
pub proof fn path_stays(
    env: Env,
    at: Spot,
    hops: Seq<HopView>,
    func: FuncId,
    terminal: Terminal,
    category: Category,
)
    requires
        at.func.0 < env.bodies.len(),
        path(env, at, hops, func, terminal, category),
    ensures
        func.0 < env.bodies.len(),
        forall|k: int|
            0 <= k < hops.len() ==> (#[trigger] hops[k]).callee.0 < env.bodies.len()
                && hops[k].caller.0 < env.bodies.len(),
        match terminal {
            Terminal::Site(i) => i < env.bodies[func.0 as int].sites.len(),
            Terminal::Opaque => env.bodies[func.0 as int].opaque,
            Terminal::Unresolved(i) => i < env.bodies[func.0 as int].calls.len(),
        },
    decreases hops.len(),
{
    if hops.len() > 0 {
        let j = choose|j: int| #[trigger]
            is_call(env, at, hops[0], j) && path(
                env,
                after(env, at, hops[0], j),
                hops.skip(1),
                func,
                terminal,
                category,
            );
        path_stays(env, after(env, at, hops[0], j), hops.skip(1), func, terminal, category);
        assert forall|k: int| 0 <= k < hops.len() implies (#[trigger] hops[k]).callee.0
            < env.bodies.len() && hops[k].caller.0 < env.bodies.len() by {
            if k > 0 {
                assert(hops[k] == hops.skip(1)[k - 1]);
            }
        }
    }
}

/// Whether the states say that a category gets back to the root from a spot.
pub open spec fn possible(env: Env, at: Spot, category: Category) -> bool {
    if at.caught {
        env.states[at.func.0 as int].aborting.contains(category)
    } else {
        env.states[at.func.0 as int].enabled.contains(category)
    }
}

/// The categories a function raises by aborting are among those it raises.
proof fn aborting_is_enabled(env: Env, i: int, c: Category)
    requires
        solve::solved(env.bodies, env.policy, env.states),
        0 <= i < env.bodies.len(),
        env.states[i].aborting.contains(c),
    ensures
        env.states[i].enabled.contains(c),
{
    let none = |k: int, d: Category| false;
    let odd = |k: int, d: Category| !env.states[k].enabled.contains(d);
    let other = solve::without(env.states, none, odd);
    let there = Env { bodies: env.bodies, policy: env.policy, states: other };
    assert forall|k: int, d: Category| 0 <= k < env.bodies.len() && #[trigger] odd(k, d) implies !(
    there.evaluated(k).aborting.contains(d)) by {
        assert(env.evaluated(k) == env.states[k]);
        let body = env.bodies[k];
        assert forall|m: int| 0 <= m < other.len() implies #[trigger] solve::below(
            other[m],
            env.states[m],
        ) by {}
        assert(solve::all_below(other, env.states));
        assert forall|j: int| 0 <= j < body.calls.len() implies solve::below(
            there.target(#[trigger] body.calls[j]),
            env.target(body.calls[j]),
        ) by {
            solve::targets_grow(there, env, body.calls[j]);
        }
        solve::evaluation_grows(there, env, k);
        if !body.opaque && there.aborts(body, d) {
            solve::reach_grows(there, env, body);
            if exists|j: int| #[trigger]
                there.call_counts(body, j) && there.contributed(body.calls[j]).aborting.contains(d) {
                let j = choose|j: int| #[trigger]
                    there.call_counts(body, j) && there.contributed(
                        body.calls[j],
                    ).aborting.contains(d);
                assert(there.call_runs(body, j));
                assert(env.call_counts(body, j));
                assert(solve::below(there.target(body.calls[j]), env.target(body.calls[j])));
                match body.calls[j].callee {
                    None => {},
                    Some(key) => {
                        if graph::has_key(env.bodies, key) {
                            let m = graph::slot(env.bodies, key);
                            assert(graph::keyed(env.bodies, key, m));
                            assert(other[m].aborting.contains(d));
                            assert(!odd(m, d));
                        }
                    },
                }
                assert(env.contributed(body.calls[j]).enabled.contains(d));
                assert(env.raises(body, d));
            } else {
                let j = choose|j: int| #[trigger]
                    there.site_raises(body, j) && body.sites[j].category == d
                        && body.sites[j].termination is Abort;
                assert(there.site_runs(body, j));
                assert(env.site_raises(body, j));
                assert(env.raises(body, d));
            }
        }
    }
    solve::taken_away(env.bodies, env.policy, env.states, none, odd);
    if !env.states[i].enabled.contains(c) {
        assert(odd(i, c));
    }
}

/// What a path explains is what the states say: a witness never names a panic
/// that the solution rules out.
pub proof fn explained_is_possible(env: Env, at: Spot, category: Category, n: nat)
    requires
        solve::solved(env.bodies, env.policy, env.states),
        graph::distinct(env.bodies),
        at.func.0 < env.bodies.len(),
        explains(env, at, category, n),
    ensures
        possible(env, at, category),
    decreases n,
{
    let i = at.func.0 as int;
    let body = env.bodies[i];
    assert(env.evaluated(i) == env.states[i]);
    if n == 0 {
        if exists|k: int| raised_at(env, at, category, k) {
            let k = choose|k: int| raised_at(env, at, category, k);
            assert(env.site_raises(body, k));
            assert(env.raises(body, category));
        } else if exists|k: int| unresolved_at(env, at, category, k) {
            let k = choose|k: int| unresolved_at(env, at, category, k);
            assert(env.call_counts(body, k));
            assert(env.contributed(body.calls[k]).enabled.contains(category));
            assert(env.contributed(body.calls[k]).aborting.contains(category));
            assert(env.raises(body, category));
            assert(env.aborts(body, category));
        }
    } else {
        let to = choose|to: Spot| #[trigger]
            linked(env, at, to) && explains(env, to, category, (n - 1) as nat);
        explained_is_possible(env, to, category, (n - 1) as nat);
        let j = choose|j: int| steps(env, at, to, j);
        let key = env.bodies[to.func.0 as int].key;
        assert(graph::keyed(env.bodies, key, to.func.0 as int));
        let m = graph::slot(env.bodies, key);
        assert(graph::keyed(env.bodies, key, m));
        assert(m == to.func.0);
        assert(env.call_counts(body, j));
        if to.caught {
            aborting_is_enabled(env, m, category);
            assert(env.contributed(body.calls[j]).aborting.contains(category));
            assert(env.contributed(body.calls[j]).enabled.contains(category));
            assert(env.aborts(body, category));
            assert(env.raises(body, category));
        } else {
            assert(env.contributed(body.calls[j]).enabled.contains(category));
            assert(env.raises(body, category));
        }
    }
}

/// Whether a panic of a category is reached from a spot.
pub open spec fn explained(env: Env, at: Spot, category: Category) -> bool {
    exists|n: nat| explains(env, at, category, n)
}

/// Every panic that the solution names is explained by a path.
pub proof fn possible_is_explained(env: Env, at: Spot, category: Category)
    requires
        solve::solved(env.bodies, env.policy, env.states),
        graph::distinct(env.bodies),
        env.bodies.len() <= u32::MAX,
        at.func.0 < env.bodies.len(),
        possible(env, at, category),
    ensures
        explained(env, at, category),
{
    let raised = |k: int, c: Category|
        c == category && !explained(
            env,
            Spot { func: FuncId(k as u32), caught: false },
            category,
        );
    let aborted = |k: int, c: Category|
        c == category && !explained(env, Spot { func: FuncId(k as u32), caught: true }, category);
    let other = solve::without(env.states, raised, aborted);
    let there = Env { bodies: env.bodies, policy: env.policy, states: other };
    assert(solve::all_below(other, env.states)) by {
        assert forall|m: int| 0 <= m < other.len() implies #[trigger] solve::below(
            other[m],
            env.states[m],
        ) by {}
    }
    assert forall|k: int| 0 <= k < env.bodies.len() && !explained(
        env,
        #[trigger] spot(k, false),
        category,
    ) implies !there.evaluated(k).enabled.contains(category) by {
        nothing_is_given(env, there, k, false, category);
    }
    assert forall|k: int| 0 <= k < env.bodies.len() && !explained(
        env,
        #[trigger] spot(k, true),
        category,
    ) implies !there.evaluated(k).aborting.contains(category) by {
        nothing_is_given(env, there, k, true, category);
    }
    assert forall|k: int, c: Category|
        0 <= k < env.bodies.len() && #[trigger] raised(k, c) implies !there.evaluated(
        k,
    ).enabled.contains(c) by {
        assert(!explained(env, spot(k, false), category));
    }
    assert forall|k: int, c: Category|
        0 <= k < env.bodies.len() && #[trigger] aborted(k, c) implies !there.evaluated(
        k,
    ).aborting.contains(c) by {
        assert(!explained(env, spot(k, true), category));
    }
    solve::taken_away(env.bodies, env.policy, env.states, raised, aborted);
    if !explained(env, at, category) {
        let k = at.func.0 as int;
        if at.caught {
            assert(aborted(k, category));
        } else {
            assert(raised(k, category));
        }
    }
}

/// The spot of a function.
pub open spec fn spot(k: int, caught: bool) -> Spot {
    Spot { func: FuncId(k as u32), caught }
}

/// A function whose own panics and calls explain nothing gives nothing.
proof fn nothing_is_given(env: Env, there: Env, k: int, caught: bool, category: Category)
    requires
        graph::distinct(env.bodies),
        env.bodies.len() <= u32::MAX,
        env.states.len() == env.bodies.len(),
        there.bodies == env.bodies,
        there.policy == env.policy,
        solve::all_below(there.states, env.states),
        forall|m: int|
            0 <= m < env.bodies.len() && !explained(env, #[trigger] spot(m, false), category)
                ==> !there.states[m].enabled.contains(category),
        forall|m: int|
            0 <= m < env.bodies.len() && !explained(env, #[trigger] spot(m, true), category)
                ==> !there.states[m].aborting.contains(category),
        0 <= k < env.bodies.len(),
        !explained(env, spot(k, caught), category),
    ensures
        caught ==> !there.evaluated(k).aborting.contains(category),
        !caught ==> !there.evaluated(k).enabled.contains(category),
{
    let at = spot(k, caught);
    let body = env.bodies[k];
    if raised_here(env, at, category) {
        assert(explains(env, at, category, 0));
    }
    assert(!raised_here(env, at, category));
    if !body.opaque {
        assert forall|j: int| 0 <= j < body.calls.len() implies solve::below(
            there.target(#[trigger] body.calls[j]),
            env.target(body.calls[j]),
        ) by {
            solve::targets_grow(there, env, body.calls[j]);
        }
        solve::reach_grows(there, env, body);
        assert forall|j: int| #[trigger] there.call_counts(body, j) implies if caught {
            !there.contributed(body.calls[j]).aborting.contains(category)
        } else {
            !there.contributed(body.calls[j]).enabled.contains(category)
        } by {
            assert(there.call_runs(body, j));
            assert(env.call_counts(body, j));
            match body.calls[j].callee {
                None => {
                    assert(!unresolved_at(env, at, category, j));
                },
                Some(key) => {
                    if graph::has_key(env.bodies, key) {
                        let m = graph::slot(env.bodies, key);
                        assert(graph::keyed(env.bodies, key, m));
                        let to = spot(m, caught || body.calls[j].barrier);
                        assert(steps(env, at, to, j));
                        assert(linked(env, at, to));
                        if explained(env, to, category) {
                            let n = choose|n: nat| explains(env, to, category, n);
                            assert(explains(env, at, category, n + 1));
                        }
                    }
                },
            }
        }
        assert forall|j: int| #[trigger] there.site_raises(body, j) implies env.site_raises(
            body,
            j,
        ) by {
            assert(there.site_runs(body, j));
        }
        assert forall|j: int| #[trigger] env.site_raises(body, j) && body.sites[j].category
            == category implies caught && !(body.sites[j].termination is Abort) by {
            assert(!raised_at(env, at, category, j));
        }
    }
}

/// Whether the search is done with a spot: it raises nothing itself, and what
/// it leads to has been seen.
spec fn done(env: Env, category: Category, dist: Map<Spot, nat>, at: Spot) -> bool {
    &&& !raised_here(env, at, category)
    &&& forall|to: Spot| #[trigger]
        linked(env, at, to) && possible(env, to, category) ==> dist.dom().contains(to) && dist[to]
            <= dist[at] + 1
}

/// A search that is done with all spots nearer than `far` has missed no path
/// that ends nearer.
proof fn nothing_nearer(
    env: Env,
    category: Category,
    dist: Map<Spot, nat>,
    far: nat,
    at: Spot,
    left: nat,
)
    requires
        solve::solved(env.bodies, env.policy, env.states),
        graph::distinct(env.bodies),
        forall|s: Spot| #[trigger]
            dist.dom().contains(s) ==> s.func.0 < env.bodies.len() && (dist[s] < far ==> done(
                env,
                category,
                dist,
                s,
            )),
        dist.dom().contains(at),
        dist[at] + left < far,
    ensures
        !explains(env, at, category, left),
    decreases left,
{
    if left > 0 && explains(env, at, category, left) {
        let to = choose|to: Spot| #[trigger]
            linked(env, at, to) && explains(env, to, category, (left - 1) as nat);
        explained_is_possible(env, to, category, (left - 1) as nat);
        nothing_nearer(env, category, dist, far, to, (left - 1) as nat);
    }
}

/// How a spot was first reached.
struct Found {
    hop: Hop,
    from: Spot,
}

/// The number a spot is looked up by.
spec fn code_of(s: Spot) -> u64 {
    (s.func.0 * 2 + (if s.caught {
        1int
    } else {
        0
    })) as u64
}

/// The number a spot is looked up by.
fn code(s: Spot) -> (r: u64)
    ensures
        r == code_of(s),
{
    (s.func.0 as u64) * 2 + (if s.caught {
        1
    } else {
        0
    })
}

/// Whether a record of how a spot was reached names a call that leads there.
spec fn reached(env: Env, dist: Map<Spot, nat>, found: Found, at: Spot) -> bool {
    &&& dist.dom().contains(found.from)
    &&& dist[at] == dist[found.from] + 1
    &&& exists|j: int| #[trigger]
        is_call(env, found.from, found.hop@, j) && after(env, found.from, found.hop@, j) == at
}

/// The spots seen so far, and how each was first reached.
struct Search {
    free: Vec<bool>,
    caught: Vec<bool>,
    came_from: Links,
    found: Vec<Found>,
}

impl Search {
    spec fn marked(self, s: Spot) -> bool {
        if s.caught {
            s.func.0 < self.caught@.len() && self.caught@[s.func.0 as int]
        } else {
            s.func.0 < self.free@.len() && self.free@[s.func.0 as int]
        }
    }

    spec fn ok(self, env: Env, root: Spot, dist: Map<Spot, nat>) -> bool {
        &&& self.free@.len() == env.bodies.len()
        &&& self.caught@.len() == env.bodies.len()
        &&& forall|s: Spot| #[trigger] dist.dom().contains(s) <==> self.marked(s)
        &&& dist.dom().contains(root)
        &&& dist[root] == 0
        &&& forall|s: Spot| #[trigger]
            dist.dom().contains(s) && s != root ==> {
                &&& table::linked(self.came_from).dom().contains(code_of(s))
                &&& table::linked(self.came_from)[code_of(s)] < self.found@.len()
                &&& reached(
                    env,
                    dist,
                    self.found@[table::linked(self.came_from)[code_of(s)] as int],
                    s,
                )
            }
    }

    /// Starts a search at a spot that passed no catch.
    fn start(n: usize, root: FuncId, env: Ghost<Env>) -> (r: Search)
        requires
            root.0 < n,
            n == env@.bodies.len(),
        ensures
            r.ok(
                env@,
                Spot { func: root, caught: false },
                map![Spot { func: root, caught: false } => 0nat],
            ),
    {
        let mut free: Vec<bool> = Vec::new();
        let mut caught: Vec<bool> = Vec::new();
        let mut i: usize = 0;
        while i < n
            invariant
                i <= n,
                free@.len() == i,
                caught@.len() == i,
                forall|k: int| 0 <= k < i ==> !#[trigger] free@[k],
                forall|k: int| 0 <= k < i ==> !#[trigger] caught@[k],
            decreases n - i,
        {
            free.push(false);
            caught.push(false);
            i += 1;
        }
        free[root.index()] = true;
        Search { free, caught, came_from: Links::new(), found: Vec::new() }
    }

    /// Whether a spot has been seen.
    fn seen(&self, s: Spot) -> (r: bool)
        requires
            s.func.0 < self.free@.len(),
            s.func.0 < self.caught@.len(),
        ensures
            r == self.marked(s),
    {
        if s.caught {
            self.caught[s.func.index()]
        } else {
            self.free[s.func.index()]
        }
    }

    /// Records how a spot was first reached.
    fn note(
        &mut self,
        to: Spot,
        hop: Hop,
        from: Spot,
        env: Ghost<Env>,
        root: Ghost<Spot>,
        dist: Ghost<Map<Spot, nat>>,
        j: Ghost<int>,
    )
        requires
            old(self).ok(env@, root@, dist@),
            dist@.dom().contains(from),
            !dist@.dom().contains(to),
            to.func.0 < env@.bodies.len(),
            is_call(env@, from, hop@, j@),
            after(env@, from, hop@, j@) == to,
        ensures
            final(self).ok(env@, root@, dist@.insert(to, dist@[from] + 1)),
    {
        let ghost before = *self;
        let ghost links = table::linked(self.came_from);
        if to.caught {
            self.caught[to.func.index()] = true;
        } else {
            self.free[to.func.index()] = true;
        }
        let at: usize = self.found.len();
        let ghost had = self.found@;
        self.came_from.insert(code(to), at);
        self.found.push(Found { hop, from });
        proof {
            let now = dist@.insert(to, dist@[from] + 1);
            let there = table::linked(self.came_from);
            assert forall|s: Spot| #[trigger] now.dom().contains(s) <==> self.marked(s) by {
                assert(dist@.dom().contains(s) <==> before.marked(s));
            }
            assert forall|s: Spot| #[trigger] now.dom().contains(s) && s != root@ implies {
                &&& there.dom().contains(code_of(s))
                &&& there[code_of(s)] < self.found@.len()
                &&& reached(env@, now, self.found@[there[code_of(s)] as int], s)
            } by {
                if s == to {
                    let f = self.found@[at as int];
                    assert(is_call(env@, f.from, f.hop@, j@));
                    assert(after(env@, f.from, f.hop@, j@) == to);
                    assert(reached(env@, now, f, s));
                } else {
                    assert(dist@.dom().contains(s));
                    assert(code_of(s) != code_of(to));
                    let f = had[links[code_of(s)] as int];
                    assert(reached(env@, dist@, f, s));
                    let k = choose|k: int| #[trigger]
                        is_call(env@, f.from, f.hop@, k) && after(env@, f.from, f.hop@, k) == s;
                    assert(is_call(env@, f.from, f.hop@, k));
                    assert(reached(env@, now, f, s));
                }
            }
        }
    }

    /// Walks predecessor links back to the root and returns them in call
    /// order.
    fn rebuild(
        &self,
        root: Spot,
        end: Spot,
        category: Ghost<Category>,
        terminal: Ghost<Terminal>,
        env: Ghost<Env>,
        dist: Ghost<Map<Spot, nat>>,
    ) -> (r: Vec<Hop>)
        requires
            self.ok(env@, root, dist@),
            dist@.dom().contains(end),
            ends(env@, end, category@, terminal@),
        ensures
            r@.len() == dist@[end],
            path(env@, root, hop_views(r@), end.func, terminal@, category@),
    {
        let mut hops: Vec<Hop> = Vec::new();
        let mut at = end;
        let ghost way: Seq<HopView> = Seq::empty();
        // Each step moves strictly closer to the root in the search tree.
        while at != root
            invariant
                self.ok(env@, root, dist@),
                dist@.dom().contains(at),
                hop_views(hops@) == way.reverse(),
                way.len() == hops@.len(),
                hops@.len() + dist@[at] == dist@[end],
                path(env@, at, way, end.func, terminal@, category@),
            decreases dist@[at],
        {
            let ghost links = table::linked(self.came_from);
            assert(dist@.dom().contains(at) && at != root);
            match self.came_from.get(code(at)) {
                Some(k) => {
                    let found = &self.found[k];
                    hops.push(found.hop.clone());
                    proof {
                        assert(reached(env@, dist@, *found, at));
                        let j = choose|j: int| #[trigger]
                            is_call(env@, found.from, found.hop@, j) && after(
                                env@,
                                found.from,
                                found.hop@,
                                j,
                            ) == at;
                        let longer = seq![found.hop@] + way;
                        assert(longer.skip(1) =~= way);
                        assert(longer[0] == found.hop@);
                        assert(is_call(env@, found.from, longer[0], j));
                        assert(path(env@, found.from, longer, end.func, terminal@, category@));
                        assert(hop_views(hops@) =~= way.reverse().push(found.hop@));
                        assert(longer.reverse() =~= way.reverse().push(found.hop@));
                        way = longer;
                    }
                    at = found.from;
                },
                None => {
                    assert(false);
                    return hops;
                },
            }
        }
        let ghost back = hop_views(hops@);
        let hops = reversed(hops);
        assert(hop_views(hops@) =~= way) by {
            assert(back.reverse() =~= way);
        }
        hops
    }
}

/// A list of hops back to front.
fn reversed(hops: Vec<Hop>) -> (r: Vec<Hop>)
    ensures
        hop_views(r@) == hop_views(hops@).reverse(),
{
    let mut out: Vec<Hop> = Vec::new();
    let mut i: usize = hops.len();
    while i > 0
        invariant
            i <= hops@.len(),
            out@.len() == hops@.len() - i,
            forall|k: int| 0 <= k < out@.len() ==> (#[trigger] out@[k])@ == hops@[hops@.len() - 1 - k]@,
        decreases i,
    {
        i -= 1;
        out.push(hops[i].clone());
    }
    assert(hop_views(out@) =~= hop_views(hops@).reverse());
    out
}

/// What a spot's function itself raises of a category, if anything.
fn terminal_at(
    solution: &Solution,
    body: &Body,
    activity: &Activity,
    at: Spot,
    category: Category,
    env: Ghost<Env>,
) -> (r: Option<Terminal>)
    requires
        at.func.0 < env@.bodies.len(),
        body@ == env@.bodies[at.func.0 as int],
        !body@.opaque,
        activity.tells(env@, body@),
        solution.spec_policy() == env@.policy,
    ensures
        match r {
            Some(t) => ends(env@, at, category, t),
            None => !raised_here(env@, at, category),
        },
{
    if solution.policy().suppressed.contains(category) {
        return None;
    }
    let mut i: usize = 0;
    while i < body.sites.len()
        invariant
            i <= body@.sites.len(),
            body@ == env@.bodies[at.func.0 as int],
            !body@.opaque,
            activity.tells(env@, body@),
            !env@.policy.suppressed@.contains(category),
            forall|k: int| 0 <= k < i ==> !#[trigger] raised_at(env@, at, category, k),
        decreases body.sites.len() - i,
    {
        let site = &body.sites[i];
        assert(body@.sites[i as int] == site@);
        assert(activity.sites@[i as int] == env@.site_runs(body@, i as int));
        if activity.sites[i] && site.category == category && (!at.caught || site.termination
            == Termination::Abort) {
            return Some(Terminal::Site(i));
        }
        i += 1;
    }
    let mut j: usize = 0;
    while j < body.calls.len()
        invariant
            j <= body@.calls.len(),
            body@ == env@.bodies[at.func.0 as int],
            !body@.opaque,
            activity.tells(env@, body@),
            solution.spec_policy() == env@.policy,
            !env@.policy.suppressed@.contains(category),
            forall|k: int| 0 <= k < j ==> !#[trigger] unresolved_at(env@, at, category, k),
        decreases body.calls.len() - j,
    {
        let call = &body.calls[j];
        assert(body@.calls[j as int] == call@);
        assert(activity.calls@[j as int] == env@.call_runs(body@, j as int));
        if call.callee.is_none() && activity.calls[j] && solution.follows(call)
            && call.kind.unresolved() == category {
            return Some(Terminal::Unresolved(j));
        }
        j += 1;
    }
    assert forall|k: int| !raised_at(env@, at, category, k) by {}
    assert forall|k: int| !unresolved_at(env@, at, category, k) by {}
    None
}

/// Finds a shortest path from `root` to a panic of `category`.
///
/// Returns `None` when the category is not reachable under the solution's
/// policy. Breadth first search gives the shortest path, which is the most
/// readable explanation.
pub fn find(graph: &Graph, solution: &Solution, root: FuncId, category: Category) -> (r: Option<
    Witness,
>)
    requires
        solution.solves(*graph),
        root.0 < graph@.bodies.len(),
    ensures
        r is Some <==> solution.states()[root.0 as int].enabled.contains(category),
        match r {
            Some(w) => is_witness(solution.env(*graph), root, category, w@),
            None => true,
        },
{
    if !solution.enabled(root).contains(category) {
        return None;
    }
    let n = graph.len();
    let ghost env = solution.env(*graph);
    let first = Spot { func: root, caught: false };
    let ghost mut dist: Map<Spot, nat> = map![first => 0nat];
    let mut search = Search::start(n, root, Ghost(env));
    let mut queue: VecDeque<Spot> = VecDeque::new();
    queue.push_back(first);
    assert(queue@[0] == first);
    // Every function enters the queue at most once for each side of a catch,
    // so the search visits at most two spots for each of them.
    while queue.len() > 0
        invariant
            n == env.bodies.len(),
            env == solution.env(*graph),
            solve::solved(env.bodies, env.policy, env.states),
            graph::sound(env.bodies),
            root.0 < n,
            possible(env, first, category),
            first == (Spot { func: root, caught: false }),
            search.ok(env, first, dist),
            queue@.len() > 0 ==> waiting(queue@, dist, dist[queue@[0]]),
            forall|s: Spot| #[trigger]
                dist.dom().contains(s) ==> queue@.contains(s) || done(env, category, dist, s),
        decreases unseen(n as int, dist).len(), queue@.len(),
    {
        let ghost was = queue@;
        let at = queue.pop_front().unwrap();
        assert(at == was[0]);
        assert(queue@ =~= was.skip(1));
        let ghost d = dist[at];
        proof {
            popped(env, category, dist, was, queue@);
            assert forall|s: Spot| #[trigger] dist.dom().contains(s) implies s.func.0
                < env.bodies.len() && (dist[s] < d ==> done(env, category, dist, s)) by {
                assert(search.marked(s));
                if queue@.contains(s) {
                    let k = choose|k: int| 0 <= k < queue@.len() && queue@[k] == s;
                    assert(d <= dist[queue@[k]]);
                }
            }
            assert forall|m: nat| m < d implies !explains(env, first, category, m) by {
                nothing_nearer(env, category, dist, d, first, m);
            }
        }
        assert(search.marked(at));
        let body = graph.body(at.func);
        if body.opaque {
            // A function with no recorded body is the source of an unknown.
            if body.unreadable() == category && !solution.policy().suppressed.contains(category) {
                let hops = search.rebuild(
                    first,
                    at,
                    Ghost(category),
                    Ghost(Terminal::Opaque),
                    Ghost(env),
                    Ghost(dist),
                );
                return Some(Witness { hops, func: at.func, terminal: Terminal::Opaque });
            }
            assert(done(env, category, dist, at));
        } else {
            let activity = solution.activity(graph, at.func);
            match terminal_at(solution, body, &activity, at, category, Ghost(env)) {
                Some(terminal) => {
                    let hops = search.rebuild(
                        first,
                        at,
                        Ghost(category),
                        Ghost(terminal),
                        Ghost(env),
                        Ghost(dist),
                    );
                    return Some(Witness { hops, func: at.func, terminal });
                },
                None => {},
            }
            let Ghost(now) = visit(
                graph,
                solution,
                body,
                &activity,
                at,
                category,
                &mut search,
                &mut queue,
                Ghost(first),
                Ghost(dist),
            );
            proof {
                dist = now;
            }
        }
        proof {
            if queue@.len() > 0 {
                assert(d <= dist[queue@[0]]);
            }
        }
    }
    proof {
        assert forall|s: Spot| #[trigger] dist.dom().contains(s) implies s.func.0
            < env.bodies.len() && done(env, category, dist, s) by {
            assert(search.marked(s));
        }
        possible_is_explained(env, first, category);
        let m = choose|m: nat| explains(env, first, category, m);
        nothing_nearer(env, category, dist, (m + 1) as nat, first, m);
    }
    None
}

/// Whether the spots in a queue are the farthest seen, nearest first.
spec fn waiting(queue: Seq<Spot>, dist: Map<Spot, nat>, d: nat) -> bool {
    &&& forall|k: int|
        0 <= k < queue.len() ==> dist.dom().contains(#[trigger] queue[k]) && d <= dist[queue[k]]
            <= d + 1
    &&& forall|a: int, b: int|
        0 <= a < b < queue.len() ==> dist[#[trigger] queue[a]] <= dist[#[trigger] queue[b]]
    &&& forall|s: Spot| #[trigger] dist.dom().contains(s) ==> dist[s] <= d + 1
}

/// Whether the search is done with every spot but one and those that wait.
spec fn settled_but(
    env: Env,
    category: Category,
    dist: Map<Spot, nat>,
    queue: Seq<Spot>,
    at: Spot,
) -> bool {
    forall|s: Spot| #[trigger]
        dist.dom().contains(s) && s != at ==> queue.contains(s) || done(env, category, dist, s)
}

proof fn popped(
    env: Env,
    category: Category,
    dist: Map<Spot, nat>,
    was: Seq<Spot>,
    queue: Seq<Spot>,
)
    requires
        was.len() > 0,
        queue == was.skip(1),
        waiting(was, dist, dist[was[0]]),
        forall|s: Spot| #[trigger]
            dist.dom().contains(s) ==> was.contains(s) || done(env, category, dist, s),
    ensures
        dist.dom().contains(was[0]),
        waiting(queue, dist, dist[was[0]]),
        settled_but(env, category, dist, queue, was[0]),
{
    assert forall|k: int| 0 <= k < queue.len() implies dist.dom().contains(#[trigger] queue[k])
        && dist[was[0]] <= dist[queue[k]] <= dist[was[0]] + 1 by {
        assert(queue[k] == was[k + 1]);
        assert(dist[was[0]] <= dist[was[k + 1]]);
    }
    assert forall|a: int, b: int| 0 <= a < b < queue.len() implies dist[#[trigger] queue[a]]
        <= dist[#[trigger] queue[b]] by {
        assert(queue[a] == was[a + 1]);
        assert(queue[b] == was[b + 1]);
    }
    assert forall|s: Spot| #[trigger] dist.dom().contains(s) && s != was[0] implies queue.contains(s)
        || done(env, category, dist, s) by {
        if was.contains(s) {
            let k = choose|k: int| 0 <= k < was.len() && was[k] == s;
            assert(queue[k - 1] == s);
        }
    }
}

proof fn pushed(
    env: Env,
    category: Category,
    dist: Map<Spot, nat>,
    queue: Seq<Spot>,
    at: Spot,
    to: Spot,
)
    requires
        dist.dom().contains(at),
        !dist.dom().contains(to),
        waiting(queue, dist, dist[at]),
        settled_but(env, category, dist, queue, at),
    ensures
        waiting(queue.push(to), dist.insert(to, dist[at] + 1), dist[at]),
        settled_but(env, category, dist.insert(to, dist[at] + 1), queue.push(to), at),
{
    let now = dist.insert(to, dist[at] + 1);
    let line = queue.push(to);
    assert forall|k: int| 0 <= k < line.len() implies now.dom().contains(#[trigger] line[k])
        && dist[at] <= now[line[k]] <= dist[at] + 1 by {
        if k < queue.len() {
            assert(line[k] == queue[k]);
        }
    }
    assert forall|a: int, b: int| 0 <= a < b < line.len() implies now[#[trigger] line[a]]
        <= now[#[trigger] line[b]] by {
        assert(line[a] == queue[a]);
        if b < queue.len() {
            assert(line[b] == queue[b]);
        }
    }
    assert forall|s: Spot| #[trigger] now.dom().contains(s) && s != at implies line.contains(s) || done(
        env,
        category,
        now,
        s,
    ) by {
        if s == to {
            assert(line[queue.len() as int] == s);
        } else if queue.contains(s) {
            let k = choose|k: int| 0 <= k < queue.len() && queue[k] == s;
            assert(line[k] == s);
        } else {
            assert(dist.dom().contains(s));
            assert(done(env, category, dist, s));
        }
    }
}

/// Queues what a spot leads to and has not been seen.
fn visit(
    graph: &Graph,
    solution: &Solution,
    body: &Body,
    activity: &Activity,
    at: Spot,
    category: Category,
    search: &mut Search,
    queue: &mut VecDeque<Spot>,
    root: Ghost<Spot>,
    dist: Ghost<Map<Spot, nat>>,
) -> (now: Ghost<Map<Spot, nat>>)
    requires
        solution.states().len() == graph@.bodies.len(),
        graph::sound(graph@.bodies),
        at.func.0 < graph@.bodies.len(),
        body@ == graph@.bodies[at.func.0 as int],
        !body@.opaque,
        activity.tells(solution.env(*graph), body@),
        old(search).ok(solution.env(*graph), root@, dist@),
        dist@.dom().contains(at),
        waiting(old(queue)@, dist@, dist@[at]),
        settled_but(solution.env(*graph), category, dist@, old(queue)@, at),
        !raised_here(solution.env(*graph), at, category),
    ensures
        final(search).ok(solution.env(*graph), root@, now@),
        now@.dom().contains(at),
        now@[at] == dist@[at],
        waiting(final(queue)@, now@, now@[at]),
        forall|s: Spot| #[trigger]
            now@.dom().contains(s) ==> final(queue)@.contains(s) || done(
                solution.env(*graph),
                category,
                now@,
                s,
            ),
        (now@ == dist@ && final(queue)@ == old(queue)@) || unseen(
            graph@.bodies.len() as int,
            now@,
        ).len() < unseen(graph@.bodies.len() as int, dist@).len(),
{
    let ghost env = solution.env(*graph);
    let ghost d = dist@[at];
    let ghost n = graph@.bodies.len() as int;
    let ghost mut now = dist@;
    let ghost line = queue@;
    let mut i: usize = 0;
    while i < body.calls.len()
        invariant
            i <= body@.calls.len(),
            n == env.bodies.len(),
            env == solution.env(*graph),
            env.states.len() == n,
            graph::sound(env.bodies),
            at.func.0 < n,
            body@ == env.bodies[at.func.0 as int],
            !body@.opaque,
            activity.tells(env, body@),
            search.ok(env, root@, now),
            now.dom().contains(at),
            now[at] == d,
            waiting(queue@, now, d),
            settled_but(env, category, now, queue@, at),
            forall|k: int, to: Spot|
                0 <= k < i && #[trigger] steps(env, at, to, k) && possible(env, to, category)
                    ==> now.dom().contains(to),
            (now == dist@ && queue@ == line) || unseen(n, now).len() < unseen(n, dist@).len(),
        decreases body.calls.len() - i,
    {
        let call = &body.calls[i];
        assert(body@.calls[i as int] == call@);
        assert(activity.calls@[i as int] == env.call_runs(body@, i as int));
        if activity.calls[i] && solution.follows(call) {
            assert(env.call_counts(body@, i as int));
            if let Some(key) = &call.callee {
                if let Some(next) = graph.id_of(key) {
                    let to = Spot { func: next, caught: at.caught || call.barrier };
                    let likely = if to.caught {
                        solution.aborting(next).contains(category)
                    } else {
                        solution.enabled(next).contains(category)
                    };
                    assert(likely == possible(env, to, category));
                    assert forall|other: Spot| #[trigger] steps(env, at, other, i as int) implies other
                        == to by {
                        assert(graph::keyed(env.bodies, key@, other.func.0 as int));
                    }
                    if likely && !search.seen(to) {
                        let hop = Hop {
                            caller: at.func,
                            callee: next,
                            loc: model::copy_loc(&call.loc),
                            kind: call.kind,
                            cleanup: !call.guard.normal,
                        };
                        assert(!now.dom().contains(to));
                        assert(steps(env, at, to, i as int));
                        assert(is_call(env, at, hop@, i as int));
                        proof {
                            pushed(env, category, now, queue@, at, to);
                            seeing_one_more(n, now, to, d + 1);
                        }
                        search.note(
                            to,
                            hop,
                            at,
                            Ghost(env),
                            root,
                            Ghost(now),
                            Ghost(i as int),
                        );
                        queue.push_back(to);
                        proof {
                            now = now.insert(to, d + 1);
                        }
                    }
                    assert(likely ==> now.dom().contains(to));
                } else {
                    assert forall|to: Spot| !#[trigger] steps(env, at, to, i as int) by {
                        if steps(env, at, to, i as int) {
                            assert(graph::keyed(env.bodies, key@, to.func.0 as int));
                        }
                    }
                }
            }
        } else {
            assert(!env.call_counts(body@, i as int));
        }
        i += 1;
    }
    proof {
        assert(done(env, category, now, at)) by {
            assert forall|to: Spot| #[trigger] linked(env, at, to) && possible(
                env,
                to,
                category,
            ) implies now.dom().contains(to) && now[to] <= now[at] + 1 by {
                let k = choose|k: int| steps(env, at, to, k);
                assert(steps(env, at, to, k));
            }
        }
    }
    Ghost(now)
}

/// The spots of a graph's functions that have not been seen.
spec fn unseen(n: int, dist: Map<Spot, nat>) -> Set<Spot> {
    all_spots(n).difference(dist.dom())
}

proof fn seeing_one_more(n: int, dist: Map<Spot, nat>, to: Spot, d: nat)
    requires
        0 <= n <= u32::MAX,
        to.func.0 < n,
        !dist.dom().contains(to),
    ensures
        unseen(n, dist.insert(to, d)).len() < unseen(n, dist).len(),
{
    spots_are_finite(n);
    assert(unseen(n, dist).contains(to));
    assert(unseen(n, dist.insert(to, d)) =~= unseen(n, dist).remove(to));
}

/// The spots of a graph's functions.
spec fn all_spots(n: int) -> Set<Spot> {
    Set::new(|s: Spot| s.func.0 < n)
}

proof fn spots_are_finite(n: int)
    requires
        0 <= n <= u32::MAX,
    ensures
        all_spots(n).finite(),
    decreases n,
{
    if n == 0 {
        assert(all_spots(n) =~= Set::empty());
    } else {
        spots_are_finite(n - 1);
        let a = spot(n - 1, false);
        let b = spot(n - 1, true);
        assert(all_spots(n) =~= all_spots(n - 1).insert(a).insert(b)) by {
            assert forall|s: Spot| all_spots(n).contains(s) implies all_spots(n - 1).insert(
                a,
            ).insert(b).contains(s) by {
                if s.func.0 == n - 1 {
                    if s.caught {
                        assert(s == b);
                    } else {
                        assert(s == a);
                    }
                }
            }
        }
    }
}

} // verus!
