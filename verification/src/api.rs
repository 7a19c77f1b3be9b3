//! JSON payloads served to the interactive view.
//!
//! The browser is a pure view. Every question it asks is answered by the same
//! solver the command line uses, so there is exactly one implementation of
//! the suppression semantics.

use vstd::prelude::*;

use crate::args::{Closures, Generics};
use crate::category::{Category, CategorySet, Termination};
use crate::graph::{FuncId, Graph};
use crate::json::Json;
use crate::model::{Body, BodyView, CallView, EdgeKind, Loc, LocView, SiteView};
use crate::select::{Raised, Selection};
use crate::solve::{Edges, Env, Policy, Solution, Solver, StateView};
use crate::table::{Links, Table};
use crate::verify::Verdict;
use crate::witness::{Terminal, Witness, WitnessView};
use crate::{bytes, category, graph, json, model, report, select, solve, table, text, witness};

verus! {

/// A panic site as a document.
pub open spec fn site_doc(site: SiteView) -> Json {
    json::empty_object().with("category"@, Json::Str(site.category.spec_name())).with(
        "termination"@,
        Json::Str(
            match site.termination {
                Termination::Unwind => "Unwind"@,
                Termination::Abort => "Abort"@,
            },
        ),
    ).with("reason"@, Json::Str(site.reason)).with("sink"@, json::optional(site.sink)).with(
        "loc"@,
        json::optional(report::place_text(site.loc)),
    ).with("cleanup"@, Json::Bool(!site.guard.normal))
}

/// The panic sites of one function as documents.
pub open spec fn site_docs(body: BodyView) -> Seq<Json> {
    body.sites.map_values(|s: SiteView| site_doc(s))
}

/// Where a call leads, as a document.
pub open spec fn target_doc(bodies: Seq<BodyView>, call: CallView) -> Json {
    match call.callee {
        Some(key) => if graph::has_key(bodies, key) {
            json::counted(graph::slot(bodies, key) as nat)
        } else {
            Json::Null
        },
        None => Json::Null,
    }
}

/// A call as a document.
pub open spec fn call_doc(bodies: Seq<BodyView>, call: CallView) -> Json {
    json::empty_object().with("to"@, target_doc(bodies, call)).with(
        "display"@,
        Json::Str(call.callee_display),
    ).with("kind"@, Json::Str(call.kind.spec_name())).with(
        "loc"@,
        json::optional(report::place_text(call.loc)),
    ).with("cleanup"@, Json::Bool(!call.guard.normal))
}

/// The outgoing edges of one function as documents.
pub open spec fn call_docs(bodies: Seq<BodyView>, body: BodyView) -> Seq<Json> {
    body.calls.map_values(|c: CallView| call_doc(bodies, c))
}

/// One function as a document.
pub open spec fn node_doc(bodies: Seq<BodyView>, i: int) -> Json {
    let body = bodies[i];
    json::empty_object().with("id"@, json::counted(i as nat)).with(
        "display"@,
        Json::Str(body.display),
    ).with("krate"@, Json::Str(body.krate)).with(
        "loc"@,
        json::optional(report::place_text(body.loc)),
    ).with("local"@, Json::Bool(body.local)).with("opaque"@, Json::Bool(body.opaque)).with(
        "sites"@,
        Json::Arr(site_docs(body)),
    ).with("calls"@, Json::Arr(call_docs(bodies, body)))
}

/// The functions of a graph as documents.
pub open spec fn node_docs(bodies: Seq<BodyView>) -> Seq<Json> {
    Seq::new(bodies.len(), |i: int| node_doc(bodies, i))
}

/// The static shape of the graph as a document.
pub open spec fn graph_doc(bodies: Seq<BodyView>, config: Option<model::ConfigView>) -> Json {
    json::empty_object().with("config"@, report::config_doc(config)).with(
        "categories"@,
        Json::Arr(report::kind_docs(21)),
    ).with("nodes"@, Json::Arr(node_docs(bodies)))
}

/// The panic sites of one function.
fn sites(body: &Body) -> (r: serde_json::Value)
    ensures
        json::meaning(r) == Json::Arr(site_docs(body@)),
{
    let mut items: Vec<serde_json::Value> = Vec::new();
    let mut i: usize = 0;
    while i < body.sites.len()
        invariant
            i <= body.sites@.len(),
            items@.len() == i,
            forall|k: int|
                0 <= k < i ==> json::meaning(#[trigger] items@[k]) == site_doc(body@.sites[k]),
        decreases body.sites.len() - i,
    {
        let site = &body.sites[i];
        assert(body@.sites[i as int] == site@);
        let mut item = json::object();
        json::put(&mut item, "category", json::words(site.category.name()));
        let termination = match site.termination {
            Termination::Unwind => "Unwind",
            Termination::Abort => "Abort",
        };
        json::put(&mut item, "termination", json::words(termination));
        json::put(&mut item, "reason", json::string(site.reason.clone()));
        json::put(&mut item, "sink", json::maybe(&site.sink));
        json::put(&mut item, "loc", json::maybe(&report::place_of(&site.loc)));
        json::put(&mut item, "cleanup", json::flag(!site.guard.normal));
        items.push(item);
        i += 1;
    }
    assert(json::meanings(items@) =~= site_docs(body@));
    json::array(items)
}

/// The outgoing edges of one function.
fn calls(graph: &Graph, body: &Body) -> (r: serde_json::Value)
    ensures
        json::meaning(r) == Json::Arr(call_docs(graph@.bodies, body@)),
{
    let ghost bodies = graph@.bodies;
    let mut items: Vec<serde_json::Value> = Vec::new();
    let mut i: usize = 0;
    while i < body.calls.len()
        invariant
            i <= body.calls@.len(),
            bodies == graph@.bodies,
            items@.len() == i,
            forall|k: int|
                0 <= k < i ==> json::meaning(#[trigger] items@[k]) == call_doc(
                    bodies,
                    body@.calls[k],
                ),
        decreases body.calls.len() - i,
    {
        let call = &body.calls[i];
        assert(body@.calls[i as int] == call@);
        let to = match &call.callee {
            Some(key) => match graph.id_of(key) {
                Some(id) => {
                    assert(graph::has_key(bodies, key@));
                    json::number(id.index() as u64)
                },
                None => json::null(),
            },
            None => json::null(),
        };
        let mut item = json::object();
        json::put(&mut item, "to", to);
        json::put(&mut item, "display", json::string(call.callee_display.clone()));
        json::put(&mut item, "kind", json::words(call.kind.name()));
        json::put(&mut item, "loc", json::maybe(&report::place_of(&call.loc)));
        json::put(&mut item, "cleanup", json::flag(!call.guard.normal));
        items.push(item);
        i += 1;
    }
    assert(json::meanings(items@) =~= call_docs(bodies, body@));
    json::array(items)
}

/// The static shape of the graph, sent once.
#[must_use]
pub fn graph(g: &Graph) -> (r: serde_json::Value)
    ensures
        json::meaning(r) == graph_doc(g@.bodies, g@.config),
{
    let ghost bodies = g@.bodies;
    let n = g.len();
    let mut items: Vec<serde_json::Value> = Vec::new();
    let mut i: usize = 0;
    while i < n
        invariant
            i <= n == bodies.len() <= u32::MAX,
            bodies == g@.bodies,
            items@.len() == i,
            forall|k: int| 0 <= k < i ==> json::meaning(#[trigger] items@[k]) == node_doc(bodies, k),
        decreases n - i,
    {
        let body = g.body(FuncId::from_index(i));
        let mut item = json::object();
        json::put(&mut item, "id", json::number(i as u64));
        json::put(&mut item, "display", json::string(body.display.clone()));
        json::put(&mut item, "krate", json::string(body.krate.clone()));
        json::put(&mut item, "loc", json::maybe(&report::place_of(&body.loc)));
        json::put(&mut item, "local", json::flag(body.local));
        json::put(&mut item, "opaque", json::flag(body.opaque));
        json::put(&mut item, "sites", sites(body));
        json::put(&mut item, "calls", calls(g, body));
        items.push(item);
        i += 1;
    }
    assert(json::meanings(items@) =~= node_docs(bodies));
    let mut doc = json::object();
    json::put(&mut doc, "config", report::config_value(g));
    json::put(&mut doc, "categories", report::kind_values());
    json::put(&mut doc, "nodes", json::array(items));
    doc
}

/// Whether states solve a graph while categories are assumed impossible.
pub open spec fn solved_by(
    bodies: Seq<BodyView>,
    suppressed: Set<Category>,
    edges: Edges,
    policy: Policy,
    states: Seq<StateView>,
) -> bool {
    &&& policy.suppressed@ == suppressed
    &&& policy.edges == edges
    &&& solve::solved(bodies, policy, states)
}

/// Whether states solve a graph while categories are assumed impossible.
pub open spec fn solved_under(
    bodies: Seq<BodyView>,
    suppressed: Set<Category>,
    edges: Edges,
    states: Seq<StateView>,
) -> bool {
    exists|policy: Policy| #[trigger] solved_by(bodies, suppressed, edges, policy, states)
}

/// Solves the graph under the policy a request describes.
fn solved(g: &Graph, suppressed: CategorySet, edges: Edges) -> (r: Result<Solution, String>)
    ensures
        r is Ok,
        r->Ok_0.solves(*g),
        r->Ok_0.spec_policy().suppressed@ == suppressed@,
        r->Ok_0.spec_policy().edges == edges,
        solved_under(g@.bodies, suppressed@, edges, r->Ok_0.states()),
{
    let policy = Policy { suppressed, edges };
    let r = Solver::new(g, policy).solve();
    assert(solved_by(g@.bodies, suppressed@, edges, policy, r->Ok_0.states()));
    r
}

/// The usual selection: the local crate, closures as their own functions,
/// generic functions as written, and every category.
pub open spec fn usual() -> Selection {
    Selection {
        all_crates: false,
        closures: Closures::Separate,
        generics: Generics::Written,
        only: None,
    }
}

/// The functions that show in the usual selection, by crate and name.
pub open spec fn functions(bodies: Seq<BodyView>) -> Seq<(Seq<char>, Seq<char>)> {
    usual().labels(bodies, usual().shown_ids(bodies))
}

/// What each function of a list of states raises.
pub open spec fn enabled_in(states: Seq<StateView>) -> Seq<Set<Category>> {
    Seq::new(states.len(), |i: int| states[i].enabled)
}

/// Whether a function, by crate and name, raises a category.
pub open spec fn raises(
    bodies: Seq<BodyView>,
    states: Seq<StateView>,
    label: (Seq<char>, Seq<char>),
    c: Category,
) -> bool {
    usual().raises_under(bodies, enabled_in(states), usual().shown_ids(bodies), label, c)
}

/// Whether a function, by crate and name, raises anything.
pub open spec fn dirty(
    bodies: Seq<BodyView>,
    states: Seq<StateView>,
    label: (Seq<char>, Seq<char>),
) -> bool {
    exists|c: Category| #[trigger] raises(bodies, states, label, c)
}

/// How many of the first `n` functions can panic.
pub open spec fn dirty_count(bodies: Seq<BodyView>, states: Seq<StateView>, n: nat) -> nat
    decreases n,
{
    if n == 0 {
        0
    } else {
        dirty_count(bodies, states, (n - 1) as nat) + (if dirty(
            bodies,
            states,
            functions(bodies)[n - 1],
        ) {
            1nat
        } else {
            0
        })
    }
}

/// How many functions can panic.
pub open spec fn all_dirty(bodies: Seq<BodyView>, states: Seq<StateView>) -> nat {
    dirty_count(bodies, states, functions(bodies).len())
}

/// How many of the first `n` functions reach a category.
pub open spec fn reach_count(
    bodies: Seq<BodyView>,
    states: Seq<StateView>,
    c: Category,
    n: nat,
) -> nat
    decreases n,
{
    if n == 0 {
        0
    } else {
        reach_count(bodies, states, c, (n - 1) as nat) + (if raises(
            bodies,
            states,
            functions(bodies)[n - 1],
            c,
        ) {
            1nat
        } else {
            0
        })
    }
}

/// Whether a list tells what each function raises under a solution.
spec fn tells(list: Seq<Raised>, bodies: Seq<BodyView>, states: Seq<StateView>) -> bool {
    &&& list.len() == functions(bodies).len()
    &&& forall|g: int, c: Category|
        #![trigger list[g].categories@.contains(c)]
        0 <= g < list.len() ==> (list[g].categories@.contains(c) <==> raises(
            bodies,
            states,
            functions(bodies)[g],
            c,
        ))
}

/// What each function raises under a solution.
fn raised(g: &Graph, solution: &Solution) -> (r: Vec<Raised>)
    requires
        solution.states().len() == g@.bodies.len(),
    ensures
        tells(r@, g@.bodies, solution.states()),
{
    let sel = Selection::default();
    let list = sel.raised(g, solution);
    proof {
        assert(sel == usual());
        assert(Selection::enabled_of(*solution) =~= enabled_in(solution.states()));
        assert forall|k: int, c: Category|
            #![trigger list@[k].categories@.contains(c)]
            0 <= k < list@.len() implies (list@[k].categories@.contains(c) <==> raises(
            g@.bodies,
            solution.states(),
            functions(g@.bodies)[k],
            c,
        )) by {
            assert((list@[k].krate@, list@[k].name@) == functions(g@.bodies)[k]);
        }
    }
    list
}

/// How many functions can panic.
fn local_dirty(list: &Vec<Raised>, bodies: Ghost<Seq<BodyView>>, states: Ghost<Seq<StateView>>) -> (r: usize)
    requires
        tells(list@, bodies@, states@),
    ensures
        r == all_dirty(bodies@, states@),
{
    let mut count: usize = 0;
    let mut i: usize = 0;
    while i < list.len()
        invariant
            i <= list@.len(),
            count <= i,
            tells(list@, bodies@, states@),
            count == dirty_count(bodies@, states@, i as nat),
        decreases list.len() - i,
    {
        let set = list[i].categories;
        proof {
            let label = functions(bodies@)[i as int];
            if set@ == Set::<Category>::empty() {
                assert forall|c: Category| !#[trigger] raises(bodies@, states@, label, c) by {
                    assert(!list@[i as int].categories@.contains(c));
                }
            } else {
                let c = choose|c: Category| set@.contains(c);
                if !set@.contains(c) {
                    assert(set@ =~= Set::<Category>::empty());
                }
                assert(list@[i as int].categories@.contains(c));
                assert(raises(bodies@, states@, label, c));
            }
        }
        if !set.is_empty() {
            count += 1;
        }
        i += 1;
    }
    count
}

/// How many functions reach one category.
fn local_reaching(
    list: &Vec<Raised>,
    kind: Category,
    bodies: Ghost<Seq<BodyView>>,
    states: Ghost<Seq<StateView>>,
) -> (r: usize)
    requires
        tells(list@, bodies@, states@),
    ensures
        r == reach_count(bodies@, states@, kind, functions(bodies@).len()),
{
    let mut count: usize = 0;
    let mut i: usize = 0;
    while i < list.len()
        invariant
            i <= list@.len(),
            count <= i,
            tells(list@, bodies@, states@),
            count == reach_count(bodies@, states@, kind, i as nat),
        decreases list.len() - i,
    {
        assert(list@[i as int].categories@.contains(kind) <==> raises(
            bodies@,
            states@,
            functions(bodies@)[i as int],
            kind,
        ));
        if list[i].categories.contains(kind) {
            count += 1;
        }
        i += 1;
    }
    count
}

/// How many of the first `n` sites of a function raise a category.
pub open spec fn sites_in(sites: Seq<SiteView>, c: Category, n: nat) -> nat
    decreases n,
{
    if n == 0 {
        0
    } else {
        sites_in(sites, c, (n - 1) as nat) + (if sites[n - 1].category == c {
            1nat
        } else {
            0
        })
    }
}

/// How many sites of the first `n` functions raise a category.
pub open spec fn sites_of(bodies: Seq<BodyView>, c: Category, n: nat) -> nat
    decreases n,
{
    if n == 0 {
        0
    } else {
        sites_of(bodies, c, (n - 1) as nat) + sites_in(
            bodies[n - 1].sites,
            c,
            bodies[n - 1].sites.len(),
        )
    }
}

/// A count, or the largest number that can be written where it is larger.
pub open spec fn at_most(n: nat) -> nat {
    if n <= u64::MAX {
        n
    } else {
        u64::MAX as nat
    }
}

/// Counts the sites that raise a category.
fn count_sites(g: &Graph, c: Category) -> (r: u64)
    ensures
        r == at_most(sites_of(g@.bodies, c, g@.bodies.len())),
{
    let ghost bodies = g@.bodies;
    let n = g.len();
    let mut count: u64 = 0;
    let mut i: usize = 0;
    while i < n
        invariant
            i <= n == bodies.len() <= u32::MAX,
            bodies == g@.bodies,
            count == at_most(sites_of(bodies, c, i as nat)),
        decreases n - i,
    {
        let body = g.body(FuncId::from_index(i));
        let ghost before = sites_of(bodies, c, i as nat);
        let mut k: usize = 0;
        while k < body.sites.len()
            invariant
                k <= body.sites@.len(),
                body@ == bodies[i as int],
                count == at_most(before + sites_in(body@.sites, c, k as nat)),
            decreases body.sites.len() - k,
        {
            assert(body@.sites[k as int] == body.sites@[k as int]@);
            if body.sites[k].category == c && count < u64::MAX {
                count += 1;
            }
            k += 1;
        }
        i += 1;
    }
    count
}

/// The categories a policy assumes impossible, with the answer for one of them
/// turned round.
pub open spec fn turned(suppressed: Set<Category>, c: Category) -> Set<Category> {
    if suppressed.contains(c) {
        suppressed.remove(c)
    } else {
        suppressed.insert(c)
    }
}

/// How much one count exceeds another.
pub open spec fn excess(a: nat, b: nat) -> nat {
    if a > b {
        (a - b) as nat
    } else {
        0
    }
}

/// The effect of one category as a document, given the states under the policy
/// and under the one that differs in that category.
pub open spec fn effect_doc(
    bodies: Seq<BodyView>,
    suppressed: Set<Category>,
    states: Seq<StateView>,
    other: Seq<StateView>,
    c: Category,
) -> Json {
    let assumed = suppressed.contains(c);
    let here = all_dirty(bodies, states);
    let there = all_dirty(bodies, other);
    let n = functions(bodies).len();
    json::empty_object().with("category"@, Json::Str(c.spec_name())).with(
        "sites"@,
        json::counted(at_most(sites_of(bodies, c, bodies.len()))),
    ).with(
        "functions_reaching"@,
        json::counted(
            reach_count(
                bodies,
                if assumed {
                    other
                } else {
                    states
                },
                c,
                n,
            ),
        ),
    ).with(
        "functions_cleared"@,
        json::counted(
            if assumed {
                excess(there, here)
            } else {
                excess(here, there)
            },
        ),
    ).with("suppressed"@, Json::Bool(assumed))
}

/// Whether a list holds, per category, the states under the policy that
/// differs in that category.
pub open spec fn are_alternatives(
    bodies: Seq<BodyView>,
    suppressed: Set<Category>,
    edges: Edges,
    others: Seq<Seq<StateView>>,
) -> bool {
    others.len() == 21 && forall|k: int|
        0 <= k < 21 ==> solved_under(
            bodies,
            turned(suppressed, category::ALL@[k]),
            edges,
            #[trigger] others[k],
        )
}

/// The effects of the categories as documents.
pub open spec fn effect_docs(
    bodies: Seq<BodyView>,
    suppressed: Set<Category>,
    states: Seq<StateView>,
    others: Seq<Seq<StateView>>,
) -> Seq<Json> {
    Seq::new(
        21,
        |k: int| effect_doc(bodies, suppressed, states, others[k], category::ALL@[k]),
    )
}

/// The reach and the marginal effect of each category on the result.
///
/// Two different questions, and a category can answer them differently.
/// `functions_reaching` is whether the category occurs here at all.
/// `functions_cleared` is how many functions it alone is keeping
/// interesting: for a category that is not suppressed, how many would stop
/// being reported if it were, and for one already suppressed, how many the
/// assumption is currently clearing, which is the same quantity measured
/// from the other side. A category every one of whose functions also reaches
/// something else clears nobody while still reaching plenty, so a reader
/// told only the second number would conclude it is not here.
///
/// `sites` counts the panics the driver wrote down, which is zero for the
/// categories the solver synthesizes for a body it cannot read.
fn counterfactual(g: &Graph, solution: &Solution, list: &Vec<Raised>, baseline: usize) -> (r: Result<
    (serde_json::Value, Ghost<Seq<Seq<StateView>>>),
    String,
>)
    requires
        solution.solves(*g),
        tells(list@, g@.bodies, solution.states()),
        baseline == all_dirty(g@.bodies, solution.states()),
    ensures
        r is Ok,
        are_alternatives(
            g@.bodies,
            solution.spec_policy().suppressed@,
            solution.spec_policy().edges,
            r->Ok_0.1@,
        ),
        json::meaning(r->Ok_0.0) == Json::Arr(
            effect_docs(
                g@.bodies,
                solution.spec_policy().suppressed@,
                solution.states(),
                r->Ok_0.1@,
            ),
        ),
{
    let policy = solution.policy();
    let ghost bodies = g@.bodies;
    let ghost states = solution.states();
    let mut items: Vec<serde_json::Value> = Vec::new();
    let ghost mut others: Seq<Seq<StateView>> = Seq::empty();
    let mut i: usize = 0;
    while i < category::ALL.len()
        invariant
            i <= category::ALL@.len() == 21,
            bodies == g@.bodies,
            states == solution.states(),
            policy == solution.spec_policy(),
            tells(list@, bodies, states),
            baseline == all_dirty(bodies, states),
            others.len() == i,
            items@.len() == i,
            forall|k: int|
                0 <= k < i ==> solved_under(
                    bodies,
                    turned(policy.suppressed@, category::ALL@[k]),
                    policy.edges,
                    #[trigger] others[k],
                ),
            forall|k: int|
                0 <= k < i ==> json::meaning(#[trigger] items@[k]) == effect_doc(
                    bodies,
                    policy.suppressed@,
                    states,
                    others[k],
                    category::ALL@[k],
                ),
        decreases category::ALL.len() - i,
    {
        let c = category::ALL[i];
        let assumed = policy.suppressed.contains(c);
        let alternative = if assumed {
            policy.suppressed.difference(CategorySet::single(c))
        } else {
            policy.suppressed.union(CategorySet::single(c))
        };
        assert(alternative@ =~= turned(policy.suppressed@, c));
        let other_solution = match solved(g, alternative, policy.edges) {
            Ok(other) => other,
            Err(message) => {
                return Err(message);
            },
        };
        let ghost other_states = other_solution.states();
        let other_list = raised(g, &other_solution);
        let other = local_dirty(&other_list, Ghost(bodies), Ghost(other_states));
        let cleared: usize = if assumed {
            if other > baseline {
                other - baseline
            } else {
                0
            }
        } else if baseline > other {
            baseline - other
        } else {
            0
        };
        // A category the policy assumes impossible reaches nothing by
        // construction, so what it would reach is read from the solution
        // that puts it back.
        let reaching: usize = if assumed {
            local_reaching(&other_list, c, Ghost(bodies), Ghost(other_states))
        } else {
            local_reaching(list, c, Ghost(bodies), Ghost(states))
        };
        let mut item = json::object();
        json::put(&mut item, "category", json::words(c.name()));
        json::put(&mut item, "sites", json::number(count_sites(g, c)));
        json::put(&mut item, "functions_reaching", json::number(reaching as u64));
        json::put(&mut item, "functions_cleared", json::number(cleared as u64));
        json::put(&mut item, "suppressed", json::flag(assumed));
        let ghost had = others;
        proof {
            others = others.push(other_states);
        }
        assert forall|k: int| 0 <= k < i implies #[trigger] others[k] == had[k] by {}
        items.push(item);
        i += 1;
    }
    assert(json::meanings(items@) =~= effect_docs(bodies, policy.suppressed@, states, others));
    Ok((json::array(items), Ghost(others)))
}

/// The solved state of one function as a document.
pub open spec fn state_doc(states: Seq<StateView>, i: int) -> Json {
    json::empty_object().with("id"@, json::counted(i as nat)).with(
        "categories"@,
        json::listed(category::names_of(states[i].enabled)),
    ).with("unwinds"@, Json::Bool(states[i].unwinds))
}

/// The solved states as documents.
pub open spec fn state_docs(states: Seq<StateView>) -> Seq<Json> {
    Seq::new(states.len(), |i: int| state_doc(states, i))
}

/// A solved graph as a document, given its states, those with nothing
/// suppressed, and those of the policies that differ in one category.
pub open spec fn solve_doc(
    bodies: Seq<BodyView>,
    suppressed: Set<Category>,
    states: Seq<StateView>,
    bare: Seq<StateView>,
    others: Seq<Seq<StateView>>,
) -> Json {
    json::empty_object().with("suppressed"@, json::listed(category::names_of(suppressed))).with(
        "nodes"@,
        Json::Arr(state_docs(states)),
    ).with(
        "summary"@,
        json::empty_object().with("analysed"@, json::counted(bodies.len())).with(
            "can_panic"@,
            json::counted(all_dirty(bodies, states)),
        ).with(
            "clean_by_suppression"@,
            json::counted(solve::cleared(bodies, states, bare, bodies.len())),
        ),
    ).with("counterfactual"@, Json::Arr(effect_docs(bodies, suppressed, states, others)))
}

/// Whether a document is that of a graph solved under a policy.
pub open spec fn is_solve_doc(
    doc: Json,
    bodies: Seq<BodyView>,
    suppressed: Set<Category>,
    edges: Edges,
    states: Seq<StateView>,
    bare: Seq<StateView>,
    others: Seq<Seq<StateView>>,
) -> bool {
    &&& solved_under(bodies, suppressed, edges, states)
    &&& solved_under(bodies, Set::empty(), edges, bare)
    &&& are_alternatives(bodies, suppressed, edges, others)
    &&& doc == solve_doc(bodies, suppressed, states, bare, others)
}

/// Runs the solver under one policy and reports the result.
///
/// # Errors
///
/// Returns an error if the fixpoint does not converge, which does not happen.
pub fn solve(g: &Graph, suppressed: CategorySet, edges: Edges) -> (r: Result<
    serde_json::Value,
    String,
>)
    ensures
        r is Ok,
        exists|states: Seq<StateView>, bare: Seq<StateView>, others: Seq<Seq<StateView>>| #[trigger]
            is_solve_doc(
                json::meaning(r->Ok_0),
                g@.bodies,
                suppressed@,
                edges,
                states,
                bare,
                others,
            ),
{
    let solution = match solved(g, suppressed, edges) {
        Ok(solution) => solution,
        Err(message) => {
            return Err(message);
        },
    };
    let bare = match solved(g, CategorySet::empty(), edges) {
        Ok(bare) => bare,
        Err(message) => {
            return Err(message);
        },
    };
    let ghost bodies = g@.bodies;
    let ghost states = solution.states();
    let n = g.len();
    let mut nodes: Vec<serde_json::Value> = Vec::new();
    let mut i: usize = 0;
    while i < n
        invariant
            i <= n == states.len() <= u32::MAX,
            states == solution.states(),
            nodes@.len() == i,
            forall|k: int| 0 <= k < i ==> json::meaning(#[trigger] nodes@[k]) == state_doc(states, k),
        decreases n - i,
    {
        let id = FuncId::from_index(i);
        let mut item = json::object();
        json::put(&mut item, "id", json::number(i as u64));
        json::put(&mut item, "categories", json::list(&solution.enabled(id).names()));
        json::put(&mut item, "unwinds", json::flag(solution.unwinds(id)));
        nodes.push(item);
        i += 1;
    }
    assert(json::meanings(nodes@) =~= state_docs(states));
    let list = raised(g, &solution);
    let dirty = local_dirty(&list, Ghost(bodies), Ghost(states));
    let hidden = match solution.cleared_by_suppression(g) {
        Ok(hidden) => hidden,
        Err(message) => {
            return Err(message);
        },
    };
    assert(solve::bare_of(solution.spec_policy(), bare.spec_policy()));
    assert(solve::solved(bodies, bare.spec_policy(), bare.states()));
    let (effects, Ghost(others)) = match counterfactual(g, &solution, &list, dirty) {
        Ok(found) => found,
        Err(message) => {
            return Err(message);
        },
    };
    let mut summary = json::object();
    json::put(&mut summary, "analysed", json::number(n as u64));
    json::put(&mut summary, "can_panic", json::number(dirty as u64));
    json::put(&mut summary, "clean_by_suppression", json::number(hidden as u64));
    let mut doc = json::object();
    json::put(&mut doc, "suppressed", json::list(&suppressed.names()));
    json::put(&mut doc, "nodes", json::array(nodes));
    json::put(&mut doc, "summary", summary);
    json::put(&mut doc, "counterfactual", effects);
    assert(is_solve_doc(
        json::meaning(doc),
        bodies,
        suppressed@,
        edges,
        states,
        bare.states(),
        others,
    ));
    Ok(doc)
}

/// One call of a path as a document.
pub open spec fn hop_doc(bodies: Seq<BodyView>, hop: witness::HopView) -> Json {
    json::empty_object().with("from"@, json::counted(hop.caller.0 as nat)).with(
        "to"@,
        json::counted(hop.callee.0 as nat),
    ).with("from_display"@, Json::Str(bodies[hop.caller.0 as int].display)).with(
        "to_display"@,
        Json::Str(bodies[hop.callee.0 as int].display),
    ).with("kind"@, Json::Str(hop.kind.spec_name())).with("cleanup"@, Json::Bool(hop.cleanup)).with(
        "loc"@,
        json::optional(report::place_text(hop.loc)),
    )
}

/// The calls of a path as documents.
pub open spec fn hop_docs(bodies: Seq<BodyView>, hops: Seq<witness::HopView>) -> Seq<Json> {
    hops.map_values(|h: witness::HopView| hop_doc(bodies, h))
}

/// Where a path ends, as a document.
///
/// Foreign code is named apart, as the printed report does: no fuller
/// standard library will ever produce a body for it, so sending the reader off
/// to rebuild one would waste their time.
pub open spec fn terminal_doc(body: BodyView, terminal: Terminal) -> Json {
    match terminal {
        Terminal::Site(i) => json::empty_object().with("kind"@, Json::Str("site"@)).with(
            "category"@,
            Json::Str(body.sites[i as int].category.spec_name()),
        ).with("reason"@, Json::Str(body.sites[i as int].reason)).with(
            "sink"@,
            json::optional(body.sites[i as int].sink),
        ).with("loc"@, json::optional(report::place_text(body.sites[i as int].loc))),
        Terminal::Opaque => json::empty_object().with("kind"@, Json::Str("opaque"@)).with(
            "reason"@,
            Json::Str(
                if body.foreign {
                    "foreign code, which has no Rust body to read"@
                } else {
                    "no MIR available, so panics here are unknown"@
                },
            ),
        ),
        Terminal::Unresolved(i) => json::empty_object().with(
            "kind"@,
            Json::Str("unresolved"@),
        ).with("display"@, Json::Str(body.calls[i as int].callee_display)).with(
            "edge"@,
            Json::Str(body.calls[i as int].kind.spec_name()),
        ).with("loc"@, json::optional(report::place_text(body.calls[i as int].loc))),
    }
}

/// Describes where a witness path ends.
fn terminal(g: &Graph, path: &Witness) -> (r: serde_json::Value)
    requires
        path.func.0 < g@.bodies.len(),
        match path.terminal {
            Terminal::Site(i) => i < g@.bodies[path.func.0 as int].sites.len(),
            Terminal::Opaque => true,
            Terminal::Unresolved(i) => i < g@.bodies[path.func.0 as int].calls.len(),
        },
    ensures
        json::meaning(r) == terminal_doc(g@.bodies[path.func.0 as int], path.terminal),
{
    let body = g.body(path.func);
    let mut doc = json::object();
    match path.terminal {
        Terminal::Site(i) => {
            let site = &body.sites[i];
            assert(body@.sites[i as int] == site@);
            json::put(&mut doc, "kind", json::words("site"));
            json::put(&mut doc, "category", json::words(site.category.name()));
            json::put(&mut doc, "reason", json::string(site.reason.clone()));
            json::put(&mut doc, "sink", json::maybe(&site.sink));
            json::put(&mut doc, "loc", json::maybe(&report::place_of(&site.loc)));
        },
        Terminal::Opaque => {
            let reason = if body.foreign {
                "foreign code, which has no Rust body to read"
            } else {
                "no MIR available, so panics here are unknown"
            };
            json::put(&mut doc, "kind", json::words("opaque"));
            json::put(&mut doc, "reason", json::words(reason));
        },
        Terminal::Unresolved(i) => {
            let call = &body.calls[i];
            assert(body@.calls[i as int] == call@);
            json::put(&mut doc, "kind", json::words("unresolved"));
            json::put(&mut doc, "display", json::string(call.callee_display.clone()));
            json::put(&mut doc, "edge", json::words(call.kind.name()));
            json::put(&mut doc, "loc", json::maybe(&report::place_of(&call.loc)));
        },
    }
    doc
}

/// A path from a function to a panic as a document.
pub open spec fn found_doc(
    bodies: Seq<BodyView>,
    root: FuncId,
    c: Category,
    w: WitnessView,
) -> Json {
    json::empty_object().with("found"@, Json::Bool(true)).with(
        "category"@,
        Json::Str(c.spec_name()),
    ).with("root"@, Json::Str(bodies[root.0 as int].display)).with(
        "hops"@,
        Json::Arr(hop_docs(bodies, w.hops)),
    ).with("func"@, json::counted(w.func.0 as nat)).with(
        "func_display"@,
        Json::Str(bodies[w.func.0 as int].display),
    ).with("terminal"@, terminal_doc(bodies[w.func.0 as int], w.terminal))
}

/// The bodies that answer for the function at an index, with it first.
pub open spec fn answering(bodies: Seq<BodyView>, node: int) -> Seq<FuncId> {
    let id = FuncId(node as u32);
    select::with_first(usual().known_as(bodies, id), id)
}

/// Whether a document tells how a function reaches a category: by a shortest
/// path from the first body of its name that raises it, if one does.
pub open spec fn is_why_doc(
    doc: Json,
    bodies: Seq<BodyView>,
    suppressed: Set<Category>,
    edges: Edges,
    node: int,
    c: Category,
    policy: Policy,
    states: Seq<StateView>,
    w: WitnessView,
) -> bool {
    let env = Env { bodies, policy, states };
    let ids = answering(bodies, node);
    let root = report::raiser(env, ids, c, 0);
    &&& solved_by(bodies, suppressed, edges, policy, states)
    &&& if report::raised_together(env, ids).contains(c) {
        witness::is_witness(env, root, c, w) && doc == found_doc(bodies, root, c, w)
    } else {
        doc == json::empty_object().with("found"@, Json::Bool(false))
    }
}

/// A path as a document.
fn found_value(g: &Graph, root: FuncId, c: Category, path: &Witness, env: Ghost<Env>) -> (r: serde_json::Value)
    requires
        root.0 < g@.bodies.len(),
        env@.bodies == g@.bodies,
        witness::is_witness(env@, root, c, path@),
    ensures
        json::meaning(r) == found_doc(g@.bodies, root, c, path@),
{
    let ghost bodies = g@.bodies;
    proof {
        witness::path_stays(
            env@,
            witness::Spot { func: root, caught: false },
            path@.hops,
            path@.func,
            path@.terminal,
            c,
        );
    }
    let mut hops: Vec<serde_json::Value> = Vec::new();
    let mut i: usize = 0;
    while i < path.hops.len()
        invariant
            i <= path.hops@.len(),
            bodies == g@.bodies,
            forall|k: int|
                0 <= k < path@.hops.len() ==> (#[trigger] path@.hops[k]).callee.0 < bodies.len()
                    && path@.hops[k].caller.0 < bodies.len(),
            hops@.len() == i,
            forall|k: int|
                0 <= k < i ==> json::meaning(#[trigger] hops@[k]) == hop_doc(bodies, path@.hops[k]),
        decreases path.hops.len() - i,
    {
        let hop = &path.hops[i];
        assert(path@.hops[i as int] == hop@);
        let mut item = json::object();
        json::put(&mut item, "from", json::number(hop.caller.index() as u64));
        json::put(&mut item, "to", json::number(hop.callee.index() as u64));
        json::put(&mut item, "from_display", json::string(g.body(hop.caller).display.clone()));
        json::put(&mut item, "to_display", json::string(g.body(hop.callee).display.clone()));
        json::put(&mut item, "kind", json::words(hop.kind.name()));
        json::put(&mut item, "cleanup", json::flag(hop.cleanup));
        json::put(&mut item, "loc", json::maybe(&report::place_of(&hop.loc)));
        hops.push(item);
        i += 1;
    }
    assert(json::meanings(hops@) =~= hop_docs(bodies, path@.hops));
    let mut doc = json::object();
    json::put(&mut doc, "found", json::flag(true));
    json::put(&mut doc, "category", json::words(c.name()));
    json::put(&mut doc, "root", json::string(g.body(root).display.clone()));
    json::put(&mut doc, "hops", json::array(hops));
    json::put(&mut doc, "func", json::number(path.func.index() as u64));
    json::put(&mut doc, "func_display", json::string(g.body(path.func).display.clone()));
    json::put(&mut doc, "terminal", terminal(g, path));
    doc
}

/// Whether a result answers why a function can panic, or says what its
/// arguments name that is not in the graph.
pub open spec fn answers_why(
    r: Result<serde_json::Value, String>,
    bodies: Seq<BodyView>,
    node: usize,
    category: Seq<char>,
    suppressed: Set<Category>,
    edges: Edges,
) -> bool {
    match r {
        Ok(doc) => node < bodies.len() && exists|
            c: Category,
            policy: Policy,
            states: Seq<StateView>,
            w: WitnessView,
        |
            c.spec_name() == category && #[trigger] is_why_doc(
                json::meaning(doc),
                bodies,
                suppressed,
                edges,
                node as int,
                c,
                policy,
                states,
                w,
            ),
        Err(message) => if forall|c: Category| c.spec_name() != category {
            message@ == "unknown panic category `"@ + category + "`"@
        } else {
            node >= bodies.len() && message@ == "no function with index "@ + text::decimal(
                node as nat,
            )
        },
    }
}

/// A shortest call path from one function to a reachable panic.
///
/// Every body of the function's name answers for it, so a panic that the view
/// draws under the name is explained whichever of them reaches it.
///
/// # Errors
///
/// Returns an error if the arguments name something that is not in the graph.
pub fn why(g: &Graph, node: usize, category: &str, suppressed: CategorySet, edges: Edges) -> (r: Result<
    serde_json::Value,
    String,
>)
    ensures
        answers_why(r, g@.bodies, node, category@, suppressed@, edges),
{
    let c = match Category::from_name(category) {
        Some(c) => c,
        None => {
            let mut message = "unknown panic category `".to_owned();
            message.append(category);
            message.append("`");
            return Err(message);
        },
    };
    if node >= g.len() {
        let mut message = "no function with index ".to_owned();
        message.append(text::number(node as u64).as_str());
        return Err(message);
    }
    let ghost bodies = g@.bodies;
    let id = FuncId::from_index(node);
    let solution = match solved(g, suppressed, edges) {
        Ok(solution) => solution,
        Err(message) => {
            assert(false);
            return Err(message);
        },
    };
    let ghost env = solution.env(*g);
    let ghost policy = solution.spec_policy();
    let ghost states = solution.states();
    let sel = Selection::default();
    let ids = sel.namesakes(g, id);
    assert(sel == usual());
    assert(ids@ == answering(bodies, node as int));
    let together = report::together(&solution, &ids, Ghost(*g));
    if !together.contains(c) {
        let mut doc = json::object();
        json::put(&mut doc, "found", json::flag(false));
        let ghost w = WitnessView { hops: Seq::empty(), func: id, terminal: Terminal::Opaque };
        assert(is_why_doc(
            json::meaning(doc),
            bodies,
            suppressed@,
            edges,
            node as int,
            c,
            policy,
            states,
            w,
        ));
        return Ok(doc);
    }
    let mut wanted: Vec<Category> = Vec::new();
    wanted.push(c);
    let found = report::paths_of(g, &solution, &ids, &wanted);
    assert(found@[0].0.0 < bodies.len());
    let doc = found_value(g, found[0].0, c, &found[0].1, Ghost(env));
    assert(is_why_doc(
        json::meaning(doc),
        bodies,
        suppressed@,
        edges,
        node as int,
        c,
        policy,
        states,
        found@[0].1@,
    ));
    Ok(doc)
}

/// One frame of the tree.
///
/// The field names are the keys the view reads.
#[derive(Debug)]
pub struct FlameRow {
    /// Position in the returned list.
    pub id: usize,
    /// The frame this one sits under.
    pub parent: Option<usize>,
    /// What to write on it.
    pub name: String,
    /// Set when the frame is a panic rather than a call.
    pub category: Option<&'static str>,
    /// How the call was resolved, or the kind of ending.
    pub kind: &'static str,
    /// Whether it runs only while an earlier panic unwinds.
    pub cleanup: bool,
    /// Calls folded into this frame.
    pub elided: Vec<String>,
    /// Panics that pass through this frame.
    pub value: u64,
    /// What the compiled artifact says of it, where it was asked.
    pub verdict: Option<Verdict>,
}

/// What a [`FlameRow`] says.
#[verifier::ext_equal]
pub struct RowView {
    pub id: usize,
    pub parent: Option<usize>,
    pub name: Seq<char>,
    pub category: Option<Seq<char>>,
    pub kind: Seq<char>,
    pub cleanup: bool,
    pub elided: Seq<Seq<char>>,
    pub value: u64,
    pub verdict: Option<Verdict>,
}

/// What an optional word says.
pub open spec fn word_view(word: Option<&'static str>) -> Option<Seq<char>> {
    match word {
        Some(s) => Some(s@),
        None => None,
    }
}

impl View for FlameRow {
    type V = RowView;

    open spec fn view(&self) -> RowView {
        RowView {
            id: self.id,
            parent: self.parent,
            name: self.name@,
            category: word_view(self.category),
            kind: self.kind@,
            cleanup: self.cleanup,
            elided: text::texts(self.elided@),
            value: self.value,
            verdict: self.verdict,
        }
    }
}

/// What a list of frames says.
pub open spec fn row_views(rows: Seq<FlameRow>) -> Seq<RowView> {
    rows.map_values(|r: FlameRow| r@)
}

/// The pieces of a display path after some of it was read: what stands before
/// the next separator so far, and what depth of angle brackets it stands at.
pub open spec fn cut(s: Seq<char>, depth: int, current: Seq<char>) -> Seq<Seq<char>>
    decreases s.len(),
{
    let done = if current.len() > 0 {
        seq![current]
    } else {
        Seq::<Seq<char>>::empty()
    };
    if s.len() == 0 {
        done
    } else if s[0] == '<' {
        cut(s.skip(1), depth + 1, current.push('<'))
    } else if s[0] == '>' {
        cut(s.skip(1), depth - 1, current.push('>'))
    } else if s[0] == ':' && depth == 0 && s.len() > 1 && s[1] == ':' {
        done + cut(s.skip(2), 0, Seq::empty())
    } else {
        cut(s.skip(1), depth, current.push(s[0]))
    }
}

/// A display path split on its module separators.
///
/// Generic arguments carry their own separators, so only separators outside
/// angle brackets divide the path.
pub open spec fn segments(display: Seq<char>) -> Seq<Seq<char>> {
    let parts = cut(display, 0, Seq::empty());
    if parts.len() == 0 {
        seq![display]
    } else {
        parts
    }
}

/// Splits a display path on its module separators.
///
/// Generic arguments carry their own separators, so a naive split would cut
/// `Vec<alloc::string::String>` into pieces. Only separators outside angle
/// brackets divide the path.
fn split_path(display: &str) -> (r: Vec<String>)
    ensures
        text::texts(r@) == segments(display@),
        r@.len() > 0,
{
    let chars = text::chars_of(display);
    let ghost all = display@;
    let mut parts: Vec<String> = Vec::new();
    let mut current = String::new();
    let mut depth: i128 = 0;
    let mut i: usize = 0;
    assert(all.skip(0) =~= all);
    assert(current@ =~= Seq::empty());
    assert(text::texts(parts@) + cut(all, 0, Seq::empty()) =~= cut(all, 0, Seq::empty()));
    while i < chars.len()
        invariant
            i <= chars@.len(),
            chars@ == all,
            -(i as int) <= depth <= i,
            text::texts(parts@) + cut(all.skip(i as int), depth as int, current@) == cut(
                all,
                0,
                Seq::empty(),
            ),
        decreases chars.len() - i,
    {
        let c = chars[i];
        let ghost rest = all.skip(i as int);
        assert(rest[0] == c);
        assert(rest.skip(1) =~= all.skip(i + 1));
        if c == '<' {
            depth += 1;
            current.push(c);
            i += 1;
        } else if c == '>' {
            depth -= 1;
            current.push(c);
            i += 1;
        } else if c == ':' && depth == 0 && i + 1 < chars.len() && chars[i + 1] == ':' {
            assert(rest[1] == ':');
            assert(rest.skip(2) =~= all.skip(i + 2));
            let ghost had = parts@;
            let ghost part = current@;
            if current.unicode_len() > 0 {
                parts.push(current);
                assert(text::texts(parts@) =~= text::texts(had).push(part));
                assert(text::texts(parts@) =~= text::texts(had) + seq![part]);
            } else {
                assert(text::texts(had) + Seq::<Seq<char>>::empty() =~= text::texts(had));
            }
            current = String::new();
            assert(current@ =~= Seq::empty());
            i += 2;
            proof {
                let done = if part.len() > 0 {
                    seq![part]
                } else {
                    Seq::<Seq<char>>::empty()
                };
                let tail = cut(all.skip(i as int), 0, Seq::empty());
                assert(text::texts(had) + (done + tail) =~= (text::texts(had) + done) + tail);
            }
        } else {
            current.push(c);
            i += 1;
        }
    }
    assert(all.skip(i as int) =~= Seq::<char>::empty());
    let ghost had = parts@;
    let ghost part = current@;
    if current.unicode_len() > 0 {
        parts.push(current);
        assert(text::texts(parts@) =~= text::texts(had) + seq![part]);
    } else {
        assert(text::texts(had) + Seq::<Seq<char>>::empty() =~= text::texts(had));
    }
    if parts.len() == 0 {
        parts.push(display.to_owned());
        assert(text::texts(parts@) =~= seq![display@]);
    }
    parts
}

/// Whether a frame sits under another with a given name.
pub open spec fn is_child(rows: Seq<RowView>, parent: int, name: Seq<char>, i: int) -> bool {
    0 <= i < rows.len() && rows[i].parent == Some(parent as usize) && rows[i].name == name
}

/// Whether some frame sits under another with a given name.
pub open spec fn has_child(rows: Seq<RowView>, parent: int, name: Seq<char>) -> bool {
    exists|i: int| is_child(rows, parent, name, i)
}

/// The frame under another with a given name: the one that is there, or the
/// next.
pub open spec fn child(rows: Seq<RowView>, parent: int, name: Seq<char>) -> int {
    if has_child(rows, parent, name) {
        choose|i: int| is_child(rows, parent, name, i)
    } else {
        rows.len() as int
    }
}

/// A frame that nothing has passed through.
pub open spec fn new_row(
    id: int,
    parent: Option<usize>,
    name: Seq<char>,
    category: Option<Seq<char>>,
    kind: Seq<char>,
) -> RowView {
    RowView {
        id: id as usize,
        parent,
        name,
        category,
        kind,
        cleanup: false,
        elided: Seq::empty(),
        value: 0,
        verdict: None,
    }
}

/// The frames after one under another was found or made, and one more panic
/// was counted through it.
pub open spec fn entered(
    rows: Seq<RowView>,
    parent: int,
    name: Seq<char>,
    category: Option<Seq<char>>,
    kind: Seq<char>,
    cleanup: bool,
) -> Seq<RowView> {
    let at = child(rows, parent, name);
    let rows = if has_child(rows, parent, name) {
        rows
    } else {
        rows.push(new_row(rows.len() as int, Some(parent as usize), name, category, kind))
    };
    let row = rows[at];
    rows.update(
        at,
        RowView { value: (row.value + 1) as u64, cleanup: row.cleanup || cleanup, ..row },
    )
}

/// A frame of the path of a function named as the function it ends at, where
/// it was only passed through before.
pub open spec fn as_function(rows: Seq<RowView>, at: int) -> Seq<RowView> {
    if rows[at].kind == "module"@ {
        rows.update(at, RowView { kind: "function"@, ..rows[at] })
    } else {
        rows
    }
}

/// The frames, and the frame reached, after the first `n` segments of a path
/// were entered from the root.
pub open spec fn with_segments(rows: Seq<RowView>, segs: Seq<Seq<char>>, n: nat) -> (
    Seq<RowView>,
    int,
)
    decreases n,
{
    if n == 0 {
        (rows, 0)
    } else {
        let (rows, at) = with_segments(rows, segs, (n - 1) as nat);
        let here = child(rows, at, segs[n - 1]);
        let last = n == segs.len();
        let kind = if last {
            "function"@
        } else {
            "module"@
        };
        let rows = entered(rows, at, segs[n - 1], None, kind, false);
        (
            if last {
                as_function(rows, here)
            } else {
                rows
            },
            here,
        )
    }
}

/// The frames, and the frame reached, after the first `n` calls of a path were
/// entered from a frame.
pub open spec fn with_calls(
    rows: Seq<RowView>,
    from: int,
    bodies: Seq<BodyView>,
    hops: Seq<witness::HopView>,
    n: nat,
) -> (Seq<RowView>, int)
    decreases n,
{
    if n == 0 {
        (rows, from)
    } else {
        let (rows, at) = with_calls(rows, from, bodies, hops, (n - 1) as nat);
        let hop = hops[n - 1];
        let name = bodies[hop.callee.0 as int].display;
        (
            entered(rows, at, name, None, hop.kind.spec_name(), hop.cleanup),
            child(rows, at, name),
        )
    }
}

/// What a frame that a path ends at is called.
pub open spec fn leaf_kind(terminal: Terminal) -> Seq<char> {
    match terminal {
        Terminal::Site(_) => "site"@,
        Terminal::Opaque => "opaque"@,
        Terminal::Unresolved(_) => "unresolved"@,
    }
}

/// The frames after one path was entered: the modules of the function it
/// starts from, the function, its calls, and the panic.
pub open spec fn with_path(
    rows: Seq<RowView>,
    name: Seq<char>,
    bodies: Seq<BodyView>,
    w: WitnessView,
    c: Category,
) -> Seq<RowView> {
    let segs = segments(name);
    let (rows, at) = with_segments(rows, segs, segs.len());
    let (rows, at) = with_calls(rows, at, bodies, w.hops, w.hops.len());
    entered(rows, at, c.spec_name(), Some(c.spec_name()), leaf_kind(w.terminal), false)
}

/// The frames of no path at all: the root.
pub open spec fn root_row() -> Seq<RowView> {
    seq![new_row(0, None, "crate"@, None, "root"@)]
}

/// One path of a drawing: the function it starts from, the panic, and the way
/// there.
pub struct Drawn {
    pub root: FuncId,
    pub category: Category,
    pub path: WitnessView,
}

/// The frames of the first `n` paths.
pub open spec fn frames(
    sel: Selection,
    bodies: Seq<BodyView>,
    drawn: Seq<Drawn>,
    n: nat,
) -> Seq<RowView>
    decreases n,
{
    if n == 0 {
        root_row()
    } else {
        let d = drawn[n - 1];
        with_path(
            frames(sel, bodies, drawn, (n - 1) as nat),
            select::shown_name(sel.closures, bodies[d.root.0 as int].display),
            bodies,
            d.path,
            d.category,
        )
    }
}

/// The panics of the first `n` functions of a list, in order.
pub open spec fn pairs(
    sel: Selection,
    states: Seq<StateView>,
    ids: Seq<FuncId>,
    n: nat,
) -> Seq<(FuncId, Category)>
    decreases n,
{
    if n == 0 {
        Seq::empty()
    } else {
        let id = ids[n - 1];
        let list = category::in_order(select::shown_of(sel.only, states[id.0 as int].enabled));
        pairs(sel, states, ids, (n - 1) as nat) + Seq::new(list.len(), |k: int| (id, list[k]))
    }
}

/// Whether a list holds a shortest path for each panic of each function that
/// shows.
pub open spec fn draws(sel: Selection, env: Env, drawn: Seq<Drawn>) -> bool {
    let ids = sel.shown_ids(env.bodies);
    let wanted = pairs(sel, env.states, ids, ids.len());
    drawn.len() == wanted.len() && forall|k: int|
        0 <= k < drawn.len() ==> (#[trigger] drawn[k]).root == wanted[k].0 && drawn[k].category
            == wanted[k].1 && witness::is_witness(env, wanted[k].0, wanted[k].1, drawn[k].path)
}

/// Whether each frame knows its place and comes after the one it sits under.
pub open spec fn is_tree(rows: Seq<RowView>) -> bool {
    &&& rows.len() > 0
    &&& forall|i: int|
        0 <= i < rows.len() ==> (#[trigger] rows[i]).id == i && match rows[i].parent {
            Some(p) => p < i,
            None => true,
        }
}

/// Accumulates witness paths into a prefix tree held in a flat vector.
struct Tree {
    rows: Vec<FlameRow>,
    index: Vec<Table>,
}

impl Tree {
    /// The index of a tree finds each frame under another by its name.
    spec fn wf(self) -> bool {
        let rows = row_views(self.rows@);
        &&& is_tree(rows)
        &&& self.index@.len() == rows.len()
        &&& forall|p: int, name: Seq<char>|
            0 <= p < rows.len() ==> (#[trigger] table::entries(self.index@[p]).dom().contains(name)
                <==> has_child(rows, p, name))
        &&& forall|p: int, name: Seq<char>|
            0 <= p < rows.len() && #[trigger] table::entries(self.index@[p]).dom().contains(name)
                ==> table::entries(self.index@[p])[name] == child(rows, p, name)
        &&& unique_children(rows)
    }

    fn new() -> (r: Tree)
        ensures
            r.wf(),
            row_views(r.rows@) == root_row(),
    {
        let mut rows: Vec<FlameRow> = Vec::new();
        rows.push(
            FlameRow {
                id: 0,
                parent: None,
                name: "crate".to_owned(),
                category: None,
                kind: "root",
                cleanup: false,
                elided: Vec::new(),
                value: 0,
                verdict: None,
            },
        );
        let mut index: Vec<Table> = Vec::new();
        index.push(Table::new());
        let r = Tree { rows, index };
        assert(row_views(r.rows@)[0] =~= root_row()[0]);
        assert(row_views(r.rows@) =~= root_row());
        r
    }

    /// Finds or creates one child, and counts one more panic through it.
    fn enter(
        &mut self,
        parent: usize,
        name: &str,
        category: Option<&'static str>,
        kind: &'static str,
        cleanup: bool,
        count: Ghost<nat>,
    ) -> (at: usize)
        requires
            old(self).wf(),
            parent < old(self).rows@.len(),
            bounded(row_views(old(self).rows@), count@ + 1),
            fresh(row_views(old(self).rows@), parent as int, count@),
            count@ < u64::MAX,
        ensures
            final(self).wf(),
            at == child(row_views(old(self).rows@), parent as int, name@),
            at < final(self).rows@.len(),
            old(self).rows@.len() <= final(self).rows@.len(),
            row_views(final(self).rows@) == entered(
                row_views(old(self).rows@),
                parent as int,
                name@,
                word_view(category),
                kind@,
                cleanup,
            ),
            parent < at,
            bounded(row_views(final(self).rows@), count@ + 1),
            fresh(row_views(final(self).rows@), at as int, count@),
    {
        let ghost before = row_views(self.rows@);
        let ghost had = self.rows@;
        let at: usize = match self.index[parent].get(name) {
            Some(at) => {
                proof {
                    assert(has_child(before, parent as int, name@));
                    let i = choose|i: int| is_child(before, parent as int, name@, i);
                    assert(is_child(before, parent as int, name@, at as int));
                }
                at
            },
            None => {
                let at: usize = self.rows.len();
                self.rows.push(
                    FlameRow {
                        id: at,
                        parent: Some(parent),
                        name: name.to_owned(),
                        category,
                        kind,
                        cleanup: false,
                        elided: Vec::new(),
                        value: 0,
                        verdict: None,
                    },
                );
                self.index.push(Table::new());
                self.index[parent].insert(name.to_owned(), at);
                proof {
                    let now = row_views(self.rows@);
                    let row = new_row(
                        at as int,
                        Some(parent),
                        name@,
                        word_view(category),
                        kind@,
                    );
                    assert(self.rows@[at as int]@ =~= row);
                    assert(now =~= before.push(row));
                    child_added(before, row, parent as int, name@);
                    assert forall|p: int, n: Seq<char>| 0 <= p < now.len() implies (
                    #[trigger] table::entries(self.index@[p]).dom().contains(n) <==> has_child(
                        now,
                        p,
                        n,
                    )) by {
                        if p == at {
                            assert(!has_child(now, p, n)) by {
                                if has_child(now, p, n) {
                                    let i = choose|i: int| is_child(now, p, n, i);
                                    assert(now[i].parent == Some(at));
                                    if i < at {
                                        assert(before[i].id == i);
                                    }
                                }
                            }
                        }
                    }
                    assert forall|p: int, n: Seq<char>|
                        0 <= p < now.len() && #[trigger] table::entries(
                            self.index@[p],
                        ).dom().contains(n) implies table::entries(self.index@[p])[n] == child(
                        now,
                        p,
                        n,
                    ) by {
                        assert(has_child(now, p, n));
                    }
                    assert(self.wf());
                }
                at
            },
        };
        proof {
            assert(self.wf());
            assert(self.rows@[at as int].value <= count@) by {
                let now = row_views(self.rows@);
                assert(now[at as int] == self.rows@[at as int]@);
                if at < before.len() {
                    assert(before[at as int].value <= count@);
                    assert(now[at as int] == before[at as int]);
                }
            }
        }
        let ghost middle = row_views(self.rows@);
        let value: u64 = self.rows[at].value;
        self.rows[at].value = value + 1;
        let was: bool = self.rows[at].cleanup;
        self.rows[at].cleanup = was || cleanup;
        proof {
            let now = row_views(self.rows@);
            let row = middle[at as int];
            let changed = RowView {
                value: (row.value + 1) as u64,
                cleanup: row.cleanup || cleanup,
                ..row
            };
            assert(now[at as int] =~= changed);
            assert(now =~= middle.update(at as int, changed));
            row_changed(middle, at as int, changed);
            assert forall|i: int| 0 <= i < now.len() implies (#[trigger] now[i]).value <= count@
                + 1 by {
                if i != at {
                    assert(now[i] == middle[i]);
                    if i < before.len() {
                        assert(middle[i] == before[i]);
                    }
                }
            }
            assert forall|i: int| at < i < now.len() implies (#[trigger] now[i]).value
                <= count@ by {
                assert(now[i] == middle[i]);
                assert(middle[i] == before[i]);
            }
        }
        at
    }
}

/// Whether no frame counts more than some panics.
pub open spec fn bounded(rows: Seq<RowView>, count: nat) -> bool {
    forall|i: int| 0 <= i < rows.len() ==> (#[trigger] rows[i]).value <= count
}

/// Whether no two frames under one have the same name.
pub open spec fn unique_children(rows: Seq<RowView>) -> bool {
    forall|p: int, name: Seq<char>, i: int, j: int| #[trigger]
        is_child(rows, p, name, i) && #[trigger] is_child(rows, p, name, j) && 0 <= p < rows.len()
            ==> i == j
}

proof fn child_added(rows: Seq<RowView>, row: RowView, parent: int, name: Seq<char>)
    requires
        is_tree(rows),
        unique_children(rows),
        0 <= parent < rows.len(),
        rows.len() <= usize::MAX,
        !has_child(rows, parent, name),
        row.id == rows.len(),
        row.parent == Some(parent as usize),
        row.name == name,
    ensures
        is_tree(rows.push(row)),
        unique_children(rows.push(row)),
        has_child(rows.push(row), parent, name),
        child(rows.push(row), parent, name) == rows.len(),
        forall|p: int, n: Seq<char>|
            0 <= p < rows.len() && (p != parent || n != name) ==> (#[trigger] has_child(
                rows.push(row),
                p,
                n,
            ) <==> has_child(rows, p, n)),
        forall|p: int, n: Seq<char>|
            0 <= p < rows.len() && #[trigger] has_child(rows, p, n) ==> child(
                rows.push(row),
                p,
                n,
            ) == child(rows, p, n),
{
    let now = rows.push(row);
    assert forall|i: int| 0 <= i < now.len() implies (#[trigger] now[i]).id == i && match now[i].parent {
        Some(p) => p < i,
        None => true,
    } by {
        if i < rows.len() {
            assert(now[i] == rows[i]);
        }
    }
    assert(is_child(now, parent, name, rows.len() as int));
    assert forall|p: int, n: Seq<char>, i: int, j: int| #[trigger]
        is_child(now, p, n, i) && #[trigger] is_child(now, p, n, j) && 0 <= p < now.len() implies i
        == j by {
        if p < rows.len() {
            if i < rows.len() {
                assert(is_child(rows, p, n, i));
            }
            if j < rows.len() {
                assert(is_child(rows, p, n, j));
            }
        } else {
            if i < rows.len() {
                assert(rows[i].id == i);
            }
            if j < rows.len() {
                assert(rows[j].id == j);
            }
        }
    }
    assert forall|p: int, n: Seq<char>| 0 <= p < rows.len() && (p != parent || n != name) implies (
    #[trigger] has_child(now, p, n) <==> has_child(rows, p, n)) by {
        if has_child(now, p, n) {
            let i = choose|i: int| is_child(now, p, n, i);
            assert(i < rows.len());
            assert(is_child(rows, p, n, i));
        }
        if has_child(rows, p, n) {
            let i = choose|i: int| is_child(rows, p, n, i);
            assert(is_child(now, p, n, i));
        }
    }
    assert forall|p: int, n: Seq<char>| 0 <= p < rows.len() && #[trigger] has_child(rows, p, n) implies child(
        now,
        p,
        n,
    ) == child(rows, p, n) by {
        let i = child(rows, p, n);
        assert(is_child(rows, p, n, i));
        assert(is_child(now, p, n, i));
        assert(is_child(now, p, n, child(now, p, n)));
    }
}

/// A frame may change what it counts and what kind it is without anything
/// moving.
proof fn row_changed(rows: Seq<RowView>, at: int, row: RowView)
    requires
        is_tree(rows),
        unique_children(rows),
        0 <= at < rows.len(),
        row.id == rows[at].id,
        row.parent == rows[at].parent,
        row.name == rows[at].name,
    ensures
        is_tree(rows.update(at, row)),
        unique_children(rows.update(at, row)),
        forall|p: int, n: Seq<char>| #[trigger]
            has_child(rows.update(at, row), p, n) <==> has_child(rows, p, n),
        forall|p: int, n: Seq<char>|
            0 <= p < rows.len() ==> #[trigger] child(rows.update(at, row), p, n) == child(
                rows,
                p,
                n,
            ),
{
    let now = rows.update(at, row);
    assert forall|i: int| 0 <= i < now.len() implies (#[trigger] now[i]).id == i && match now[i].parent {
        Some(p) => p < i,
        None => true,
    } by {
        assert(rows[i].id == i);
    }
    assert forall|p: int, n: Seq<char>, i: int| is_child(now, p, n, i) <==> is_child(
        rows,
        p,
        n,
        i,
    ) by {}
    assert forall|p: int, n: Seq<char>| #[trigger] has_child(now, p, n) <==> has_child(rows, p, n) by {
        if has_child(now, p, n) {
            let i = choose|i: int| is_child(now, p, n, i);
            assert(is_child(rows, p, n, i));
        }
        if has_child(rows, p, n) {
            let i = choose|i: int| is_child(rows, p, n, i);
            assert(is_child(now, p, n, i));
        }
    }
    assert forall|p: int, n: Seq<char>| 0 <= p < rows.len() implies #[trigger] child(now, p, n)
        == child(rows, p, n) by {
        assert(has_child(now, p, n) <==> has_child(rows, p, n));
        if has_child(rows, p, n) {
            let i = child(rows, p, n);
            let j = child(now, p, n);
            assert(is_child(rows, p, n, i));
            assert(is_child(now, p, n, j));
            assert(is_child(rows, p, n, j));
        }
    }
}

impl Tree {
    /// Adds one witness path, incrementing the count along its length.
    fn insert(
        &mut self,
        g: &Graph,
        name: &str,
        path: &Witness,
        category: Category,
        count: Ghost<nat>,
    )
        requires
            old(self).wf(),
            bounded(row_views(old(self).rows@), count@),
            count@ < u64::MAX,
            forall|k: int|
                0 <= k < path@.hops.len() ==> (#[trigger] path@.hops[k]).callee.0 < g@.bodies.len(),
        ensures
            final(self).wf(),
            row_views(final(self).rows@) == with_path(
                row_views(old(self).rows@),
                name@,
                g@.bodies,
                path@,
                category,
            ),
            bounded(row_views(final(self).rows@), count@ + 1),
    {
        let ghost first = row_views(self.rows@);
        let ghost bodies = g@.bodies;
        // Nest the root under its module path. Without this the first row is
        // one sliver per function, which carries no shape; with it the row is
        // a handful of crates that can actually be read and zoomed into.
        let segs = split_path(name);
        let ghost parts = text::texts(segs@);
        let mut at: usize = 0;
        let mut i: usize = 0;
        while i < segs.len()
            invariant
                i <= segs@.len(),
                parts == text::texts(segs@),
                self.wf(),
                at < self.rows@.len(),
                count@ < u64::MAX,
                bounded(row_views(self.rows@), count@ + 1),
                fresh(row_views(self.rows@), at as int, count@),
                (row_views(self.rows@), at as int) == with_segments(first, parts, i as nat),
            decreases segs.len() - i,
        {
            assert(parts[i as int] == segs@[i as int]@);
            let last = i + 1 == segs.len();
            let kind = if last {
                "function"
            } else {
                "module"
            };
            at = self.enter(at, segs[i].as_str(), None, kind, false, count);
            if last && text::same(self.rows[at].kind, "module") {
                let ghost middle = row_views(self.rows@);
                self.rows[at].kind = "function";
                proof {
                    let changed = RowView { kind: "function"@, ..middle[at as int] };
                    assert(row_views(self.rows@)[at as int] =~= changed);
                    assert(row_views(self.rows@) =~= middle.update(at as int, changed));
                    row_changed(middle, at as int, changed);
                }
            }
            i += 1;
        }
        let ghost middle = row_views(self.rows@);
        let ghost start = at as int;
        let mut k: usize = 0;
        while k < path.hops.len()
            invariant
                k <= path.hops@.len(),
                bodies == g@.bodies,
                forall|k: int|
                    0 <= k < path@.hops.len() ==> (#[trigger] path@.hops[k]).callee.0
                        < bodies.len(),
                self.wf(),
                at < self.rows@.len(),
                count@ < u64::MAX,
                bounded(row_views(self.rows@), count@ + 1),
                fresh(row_views(self.rows@), at as int, count@),
                (row_views(self.rows@), at as int) == with_calls(
                    middle,
                    start,
                    bodies,
                    path@.hops,
                    k as nat,
                ),
            decreases path.hops.len() - k,
        {
            let hop = &path.hops[k];
            assert(path@.hops[k as int] == hop@);
            let body = g.body(hop.callee);
            at = self.enter(at, body.display.as_str(), None, hop.kind.name(), hop.cleanup, count);
            k += 1;
        }
        let leaf = match path.terminal {
            Terminal::Site(_) => "site",
            Terminal::Opaque => "opaque",
            Terminal::Unresolved(_) => "unresolved",
        };
        let _ = self.enter(at, category.name(), Some(category.name()), leaf, false, count);
    }
}

proof fn pairs_are_few(sel: Selection, states: Seq<StateView>, ids: Seq<FuncId>, n: nat)
    requires
        n <= ids.len(),
    ensures
        pairs(sel, states, ids, n).len() <= 21 * n,
    decreases n,
{
    if n > 0 {
        pairs_are_few(sel, states, ids, (n - 1) as nat);
        category::few_categories(
            select::shown_of(sel.only, states[ids[n - 1].0 as int].enabled),
        );
    }
}

/// Whether rows draw what shows of a graph solved under a policy.
pub open spec fn is_drawing(
    rows: Seq<RowView>,
    sel: Selection,
    bodies: Seq<BodyView>,
    suppressed: Set<Category>,
    edges: Edges,
    policy: Policy,
    states: Seq<StateView>,
    drawn: Seq<Drawn>,
) -> bool {
    &&& solved_by(bodies, suppressed, edges, policy, states)
    &&& draws(sel, Env { bodies, policy, states }, drawn)
    &&& rows == frames(sel, bodies, drawn, drawn.len())
}

/// What a drawing was made of: the policy and the states it was solved to,
/// and the paths in it.
pub struct Basis {
    pub policy: Policy,
    pub states: Seq<StateView>,
    pub drawn: Seq<Drawn>,
}

/// Builds the tree of what shows, as it stands.
fn plain_rows(g: &Graph, suppressed: CategorySet, edges: Edges, sel: Selection) -> (r: Result<
    (Vec<FlameRow>, Ghost<Basis>),
    String,
>)
    ensures
        r is Ok,
        is_tree(row_views(r->Ok_0.0@)),
        ({
            let basis = r->Ok_0.1@;
            is_drawing(
                row_views(r->Ok_0.0@),
                sel,
                g@.bodies,
                suppressed@,
                edges,
                basis.policy,
                basis.states,
                basis.drawn,
            )
        }),
{
    let solution = match solved(g, suppressed, edges) {
        Ok(solution) => solution,
        Err(message) => {
            return Err(message);
        },
    };
    let ghost bodies = g@.bodies;
    let ghost env = solution.env(*g);
    let ghost states = solution.states();
    let ids = sel.functions(g);
    let n = g.len();
    proof {
        assert(ids@ == sel.shown_ids(bodies));
        graph::ids_are_listed(bodies.len() as int, |i: int| sel.shows(bodies, i));
    }
    let mut tree = Tree::new();
    let ghost mut drawn: Seq<Drawn> = Seq::empty();
    let mut i: usize = 0;
    while i < ids.len()
        invariant
            i <= ids@.len() <= n == bodies.len() <= u32::MAX,
            bodies == g@.bodies,
            env == solution.env(*g),
            states == solution.states(),
            solution.solves(*g),
            forall|k: int| 0 <= k < ids@.len() ==> (#[trigger] ids@[k]).0 < bodies.len(),
            tree.wf(),
            row_views(tree.rows@) == frames(sel, bodies, drawn, drawn.len()),
            bounded(row_views(tree.rows@), drawn.len()),
            drawn.len() == pairs(sel, states, ids@, i as nat).len(),
            forall|k: int|
                0 <= k < drawn.len() ==> {
                    let wanted = pairs(sel, states, ids@, i as nat);
                    (#[trigger] drawn[k]).root == wanted[k].0 && drawn[k].category == wanted[k].1
                        && witness::is_witness(env, wanted[k].0, wanted[k].1, drawn[k].path)
                },
        decreases ids.len() - i,
    {
        let id = ids[i];
        assert(ids@[i as int].0 < bodies.len());
        let body = g.body(id);
        let list = sel.shown(solution.enabled(id)).iter();
        let ghost before = pairs(sel, states, ids@, i as nat);
        let ghost wanted = pairs(sel, states, ids@, (i + 1) as nat);
        proof {
            pairs_are_few(sel, states, ids@, i as nat);
            assert(wanted =~= before + Seq::new(list@.len(), |k: int| (id, list@[k])));
        }
        let mut k: usize = 0;
        while k < list.len()
            invariant
                k <= list@.len() <= 21,
                bodies == g@.bodies,
                env == solution.env(*g),
                states == solution.states(),
                solution.solves(*g),
                id.0 < bodies.len(),
                i < u32::MAX,
                body@ == bodies[id.0 as int],
                before.len() <= 21 * i,
                wanted == before + Seq::new(list@.len(), |k: int| (id, list@[k])),
                forall|c: Category|
                    list@.contains(c) ==> states[id.0 as int].enabled.contains(c),
                tree.wf(),
                row_views(tree.rows@) == frames(sel, bodies, drawn, drawn.len()),
                bounded(row_views(tree.rows@), drawn.len()),
                drawn.len() == before.len() + k,
                forall|k: int|
                    0 <= k < drawn.len() ==> (#[trigger] drawn[k]).root == wanted[k].0
                        && drawn[k].category == wanted[k].1 && witness::is_witness(
                        env,
                        wanted[k].0,
                        wanted[k].1,
                        drawn[k].path,
                    ),
            decreases list.len() - k,
        {
            let c = list[k];
            assert(list@.contains(list@[k as int]));
            match witness::find(g, &solution, id, c) {
                Some(path) => {
                    proof {
                        witness::path_stays(
                            env,
                            witness::Spot { func: id, caught: false },
                            path@.hops,
                            path@.func,
                            path@.terminal,
                            c,
                        );
                    }
                    tree.insert(g, sel.name(body), &path, c, Ghost(drawn.len()));
                    proof {
                        let d = Drawn { root: id, category: c, path: path@ };
                        let had = drawn;
                        drawn = drawn.push(d);
                        frames_prefix(sel, bodies, had, d, had.len());
                        assert(wanted[had.len() as int] == (id, c));
                        assert forall|m: int| 0 <= m < drawn.len() implies (
                        #[trigger] drawn[m]).root == wanted[m].0 && drawn[m].category
                            == wanted[m].1 && witness::is_witness(
                            env,
                            wanted[m].0,
                            wanted[m].1,
                            drawn[m].path,
                        ) by {
                            if m < had.len() {
                                assert(drawn[m] == had[m]);
                            }
                        }
                    }
                },
                None => {
                    assert(false);
                },
            }
            k += 1;
        }
        i += 1;
    }
    let ghost basis = Basis { policy: solution.spec_policy(), states, drawn };
    Ok((tree.rows, Ghost(basis)))
}

proof fn frames_prefix(
    sel: Selection,
    bodies: Seq<BodyView>,
    drawn: Seq<Drawn>,
    more: Drawn,
    n: nat,
)
    requires
        n <= drawn.len(),
    ensures
        frames(sel, bodies, drawn.push(more), n) == frames(sel, bodies, drawn, n),
    decreases n,
{
    if n > 0 {
        frames_prefix(sel, bodies, drawn, more, (n - 1) as nat);
        assert(drawn.push(more)[n - 1] == drawn[n - 1]);
    }
}

/// Whether no frame after one counts more than some panics.
pub open spec fn fresh(rows: Seq<RowView>, at: int, count: nat) -> bool {
    forall|i: int| at < i < rows.len() ==> (#[trigger] rows[i]).value <= count
}

/// The frames sitting directly under each frame, by identifier.
pub struct Children {
    links: Links,
    lists: Vec<Vec<usize>>,
}

impl View for Children {
    type V = Map<usize, Seq<usize>>;

    closed spec fn view(&self) -> Map<usize, Seq<usize>> {
        Map::new(
            |id: usize| table::linked(self.links).dom().contains(id as u64),
            |id: usize| self.lists@[table::linked(self.links)[id as u64] as int]@,
        )
    }
}

impl Children {
    #[verifier::type_invariant]
    spec fn wf(self) -> bool {
        &&& forall|id: u64| #[trigger]
            table::linked(self.links).dom().contains(id) ==> table::linked(self.links)[id]
                < self.lists@.len() && id <= usize::MAX
        &&& forall|a: u64, b: u64|
            #![trigger table::linked(self.links)[a], table::linked(self.links)[b]]
            table::linked(self.links).dom().contains(a) && table::linked(self.links).dom().contains(b)
                && table::linked(self.links)[a] == table::linked(self.links)[b] ==> a == b
    }

    fn new() -> (r: Children)
        ensures
            r@.dom() == Set::<usize>::empty(),
    {
        let r = Children { links: Links::new(), lists: Vec::new() };
        assert(r@.dom() =~= Set::empty());
        r
    }

    /// The frames under one, if there are any.
    pub fn get(&self, id: usize) -> (r: Option<&Vec<usize>>)
        ensures
            match r {
                Some(list) => self@.dom().contains(id) && self@[id] == list@,
                None => !self@.dom().contains(id),
            },
    {
        proof {
            use_type_invariant(self);
        }
        match self.links.get(id as u64) {
            Some(at) => Some(&self.lists[at]),
            None => None,
        }
    }

    /// Adds one frame under another.
    fn put(self, id: usize, kid: usize) -> (r: Children)
        ensures
            r@ == self@.insert(
                id,
                (if self@.dom().contains(id) {
                    self@[id]
                } else {
                    Seq::empty()
                }).push(kid),
            ),
    {
        proof {
            use_type_invariant(&self);
        }
        let ghost was = self@;
        let Children { links, lists } = self;
        let mut links = links;
        let mut lists = lists;
        let ghost map = table::linked(links);
        let ghost old_lists = lists@;
        match links.get(id as u64) {
            Some(at) => {
                lists[at].push(kid);
                let r = Children { links, lists };
                proof {
                    assert forall|k: usize| was.dom().contains(k) && k != id implies r@[k]
                        == was[k] by {
                        assert(map[k as u64] != map[id as u64]);
                    }
                    assert(r@ =~= was.insert(id, was[id].push(kid)));
                }
                r
            },
            None => {
                let n: usize = lists.len();
                let mut list: Vec<usize> = Vec::new();
                list.push(kid);
                assert(list@ =~= Seq::empty().push(kid));
                lists.push(list);
                links.insert(id as u64, n);
                let r = Children { links, lists };
                proof {
                    assert forall|k: usize| was.dom().contains(k) implies r@[k] == was[k] by {
                        assert(map.dom().contains(k as u64));
                        assert(lists@[map[k as u64] as int] == old_lists[map[k as u64] as int]);
                    }
                    assert(r@ =~= was.insert(id, Seq::empty().push(kid)));
                }
                r
            },
        }
    }
}

/// The frames directly under one among the first `n`, in order.
pub open spec fn kids_among(rows: Seq<RowView>, parent: usize, n: nat) -> Seq<usize>
    decreases n,
{
    if n == 0 {
        Seq::empty()
    } else if rows[n - 1].parent == Some(parent) {
        kids_among(rows, parent, (n - 1) as nat).push(rows[n - 1].id)
    } else {
        kids_among(rows, parent, (n - 1) as nat)
    }
}

/// The frames directly under one, in order.
pub open spec fn kids(rows: Seq<RowView>, parent: usize) -> Seq<usize> {
    kids_among(rows, parent, rows.len())
}

/// The frames sitting directly under each frame, by identifier.
#[must_use]
pub fn children_of(rows: &Vec<FlameRow>) -> (r: Children)
    ensures
        forall|p: usize| #[trigger]
            r@.dom().contains(p) <==> kids(row_views(rows@), p).len() > 0,
        forall|p: usize| #[trigger]
            r@.dom().contains(p) ==> r@[p] == kids(row_views(rows@), p),
{
    let ghost views = row_views(rows@);
    let mut children = Children::new();
    let mut i: usize = 0;
    while i < rows.len()
        invariant
            i <= rows@.len(),
            views == row_views(rows@),
            forall|p: usize| #[trigger]
                children@.dom().contains(p) <==> kids_among(views, p, i as nat).len() > 0,
            forall|p: usize| #[trigger]
                children@.dom().contains(p) ==> children@[p] == kids_among(views, p, i as nat),
        decreases rows.len() - i,
    {
        let ghost was = children@;
        assert(views[i as int] == rows@[i as int]@);
        if let Some(parent) = rows[i].parent {
            children = children.put(parent, rows[i].id);
            proof {
                assert forall|p: usize| #[trigger]
                    children@.dom().contains(p) <==> kids_among(views, p, (i + 1) as nat).len()
                        > 0 by {
                    assert(was.dom().contains(p) <==> kids_among(views, p, i as nat).len() > 0);
                }
                assert forall|p: usize| #[trigger] children@.dom().contains(p) implies children@[p]
                    == kids_among(views, p, (i + 1) as nat) by {
                    assert(was.dom().contains(p) <==> kids_among(views, p, i as nat).len() > 0);
                    if p == parent && !was.dom().contains(p) {
                        assert(kids_among(views, p, i as nat) =~= Seq::<usize>::empty());
                    }
                }
            }
        } else {
            assert forall|p: usize| kids_among(views, p, (i + 1) as nat) == #[trigger] kids_among(
                views,
                p,
                i as nat,
            ) by {}
            assert forall|p: usize| #[trigger]
                children@.dom().contains(p) <==> kids_among(views, p, (i + 1) as nat).len() > 0 by {
                assert(was.dom().contains(p) <==> kids_among(views, p, i as nat).len() > 0);
            }
        }
        i += 1;
    }
    children
}

/// Whether a name is that of a kind of call.
pub open spec fn is_call_kind(kind: Seq<char>) -> bool {
    exists|k: EdgeKind| k.spec_name() == kind
}

/// Whether a frame stands for a call rather than a module or a panic.
fn joins(kind: &str) -> (r: bool)
    ensures
        r == is_call_kind(kind@),
{
    let mut i: usize = 0;
    while i < EdgeKind::ALL.len()
        invariant
            i <= EdgeKind::ALL@.len(),
            forall|k: int| 0 <= k < i ==> (#[trigger] EdgeKind::ALL@[k]).spec_name() != kind@,
        decreases EdgeKind::ALL.len() - i,
    {
        if text::same(EdgeKind::ALL[i].name(), kind) {
            return true;
        }
        i += 1;
    }
    proof {
        assert forall|k: EdgeKind| k.spec_name() != kind@ by {
            let at: int = match k {
                EdgeKind::Static => 0,
                EdgeKind::Drop => 1,
                EdgeKind::Vtable => 2,
                EdgeKind::FnPtr => 3,
                EdgeKind::Generic => 4,
                EdgeKind::Unresolved => 5,
            };
            assert(EdgeKind::ALL@[at] == k);
        }
    }
    false
}

/// Whether the frames under one are a single call that goes on to call
/// something.
pub open spec fn swallows(rows: Seq<RowView>, list: Seq<usize>) -> bool {
    &&& list.len() == 1
    &&& list[0] < rows.len()
    &&& rows[list[0] as int].category is None
    &&& is_call_kind(rows[list[0] as int].kind)
    &&& kids(rows, list[0]).len() > 0
}

/// The frames at the end of a run of single calls, and the names of the calls.
pub open spec fn run(rows: Seq<RowView>, list: Seq<usize>, fuel: nat) -> (
    Seq<usize>,
    Seq<Seq<char>>,
)
    decreases fuel,
{
    if fuel == 0 || !swallows(rows, list) {
        (list, Seq::empty())
    } else {
        let (end, names) = run(rows, kids(rows, list[0]), (fuel - 1) as nat);
        (end, seq![rows[list[0] as int].name] + names)
    }
}

/// The frames kept of a frame and of everything under it, after those already
/// kept.
pub open spec fn fold_from(
    rows: Seq<RowView>,
    id: usize,
    parent: Option<usize>,
    kept: Seq<RowView>,
) -> Seq<RowView>
    decreases rows.len() - id, 1int, 0nat,
{
    if id >= rows.len() {
        kept
    } else {
        let (list, names) = run(rows, kids(rows, id), rows.len());
        let row = RowView { id: kept.len() as usize, parent, elided: names, ..rows[id as int] };
        fold_kids(rows, id, list, list.len(), kept.len() as usize, kept.push(row))
    }
}

/// The frames kept of the first `n` of a list, the last of them first, after
/// those already kept.
pub open spec fn fold_kids(
    rows: Seq<RowView>,
    id: usize,
    list: Seq<usize>,
    n: nat,
    parent: usize,
    kept: Seq<RowView>,
) -> Seq<RowView>
    decreases rows.len() - id, 0int, n,
{
    if n == 0 || id >= rows.len() {
        kept
    } else {
        let kid = list[n - 1];
        let kept = if kid > id && kid < rows.len() {
            fold_from(rows, kid, Some(parent), kept)
        } else {
            kept
        };
        fold_kids(rows, id, list, (n - 1) as nat, parent, kept)
    }
}

/// The frames with runs of single calls folded.
pub open spec fn folded(rows: Seq<RowView>) -> Seq<RowView> {
    fold_from(rows, 0, None, Seq::empty())
}

/// The frames kept of a stack of frames and of everything under them, the last
/// of them first.
spec fn fold_stack(
    rows: Seq<RowView>,
    stack: Seq<(usize, Option<usize>)>,
    kept: Seq<RowView>,
) -> Seq<RowView>
    decreases stack.len(),
{
    if stack.len() == 0 {
        kept
    } else {
        fold_stack(
            rows,
            stack.drop_last(),
            fold_from(rows, stack.last().0, stack.last().1, kept),
        )
    }
}

/// A stack with the first `n` of a list put on it under one frame.
spec fn stacked(
    stack: Seq<(usize, Option<usize>)>,
    list: Seq<usize>,
    n: nat,
    parent: usize,
) -> Seq<(usize, Option<usize>)> {
    stack + Seq::new(n, |k: int| (list[k], Some(parent)))
}

proof fn stacking_kids(
    rows: Seq<RowView>,
    stack: Seq<(usize, Option<usize>)>,
    id: usize,
    list: Seq<usize>,
    n: nat,
    parent: usize,
    kept: Seq<RowView>,
)
    requires
        id < rows.len(),
        n <= list.len(),
        forall|k: int| 0 <= k < list.len() ==> id < #[trigger] list[k] < rows.len(),
    ensures
        fold_stack(rows, stacked(stack, list, n, parent), kept) == fold_stack(
            rows,
            stack,
            fold_kids(rows, id, list, n, parent, kept),
        ),
    decreases n,
{
    if n == 0 {
        assert(stacked(stack, list, n, parent) =~= stack);
    } else {
        let all = stacked(stack, list, n, parent);
        assert(all.drop_last() =~= stacked(stack, list, (n - 1) as nat, parent));
        assert(all.last() == (list[n - 1], Some(parent)));
        assert(id < list[n - 1] < rows.len());
        stacking_kids(
            rows,
            stack,
            id,
            list,
            (n - 1) as nat,
            parent,
            fold_from(rows, list[n - 1], Some(parent), kept),
        );
    }
}

/// Every frame adds itself to those kept.
proof fn folding_adds(rows: Seq<RowView>, id: usize, parent: Option<usize>, kept: Seq<RowView>)
    ensures
        fold_from(rows, id, parent, kept).len() >= kept.len() + (if id < rows.len() {
            1int
        } else {
            0
        }),
    decreases rows.len() - id, 1int, 0nat,
{
    if id < rows.len() {
        let (list, names) = run(rows, kids(rows, id), rows.len());
        let row = RowView { id: kept.len() as usize, parent, elided: names, ..rows[id as int] };
        folding_kids_adds(rows, id, list, list.len(), kept.len() as usize, kept.push(row));
    }
}

proof fn folding_kids_adds(
    rows: Seq<RowView>,
    id: usize,
    list: Seq<usize>,
    n: nat,
    parent: usize,
    kept: Seq<RowView>,
)
    ensures
        fold_kids(rows, id, list, n, parent, kept).len() >= kept.len(),
    decreases rows.len() - id, 0int, n,
{
    if n > 0 && id < rows.len() {
        let kid = list[n - 1];
        if kid > id && kid < rows.len() {
            folding_adds(rows, kid, Some(parent), kept);
            folding_kids_adds(
                rows,
                id,
                list,
                (n - 1) as nat,
                parent,
                fold_from(rows, kid, Some(parent), kept),
            );
        } else {
            folding_kids_adds(rows, id, list, (n - 1) as nat, parent, kept);
        }
    }
}

proof fn stack_adds(
    rows: Seq<RowView>,
    stack: Seq<(usize, Option<usize>)>,
    kept: Seq<RowView>,
)
    requires
        forall|k: int| 0 <= k < stack.len() ==> (#[trigger] stack[k]).0 < rows.len(),
    ensures
        fold_stack(rows, stack, kept).len() >= kept.len() + stack.len(),
    decreases stack.len(),
{
    if stack.len() > 0 {
        assert(stack[stack.len() - 1].0 < rows.len());
        folding_adds(rows, stack.last().0, stack.last().1, kept);
        stack_adds(
            rows,
            stack.drop_last(),
            fold_from(rows, stack.last().0, stack.last().1, kept),
        );
    }
}

/// The frames under one come after it.
proof fn kids_follow(rows: Seq<RowView>, parent: usize, n: nat)
    requires
        is_tree(rows),
        n <= rows.len(),
    ensures
        forall|k: int|
            0 <= k < kids_among(rows, parent, n).len() ==> parent < #[trigger] kids_among(
                rows,
                parent,
                n,
            )[k] < rows.len(),
    decreases n,
{
    if n > 0 {
        kids_follow(rows, parent, (n - 1) as nat);
        assert(rows[n - 1].id == n - 1);
        let before = kids_among(rows, parent, (n - 1) as nat);
        let now = kids_among(rows, parent, n);
        assert forall|k: int| 0 <= k < now.len() implies parent < #[trigger] now[k] < rows.len() by {
            if k < before.len() {
                assert(now[k] == before[k]);
            }
        }
    }
}

/// Copies a frame.
fn copy_row(row: &FlameRow, id: usize, parent: Option<usize>, elided: Vec<String>) -> (r: FlameRow)
    ensures
        r@ == (RowView { id, parent, elided: text::texts(elided@), ..row@ }),
{
    FlameRow {
        id,
        parent,
        name: row.name.clone(),
        category: row.category,
        kind: row.kind,
        cleanup: row.cleanup,
        elided,
        value: row.value,
        verdict: row.verdict,
    }
}

/// Follows a run of single calls: the frames at its end, and the names of the
/// calls.
fn follow(rows: &Vec<FlameRow>, children: &Children, start: &Vec<usize>) -> (r: (
    Vec<usize>,
    Vec<String>,
))
    requires
        forall|p: usize| #[trigger]
            children@.dom().contains(p) <==> kids(row_views(rows@), p).len() > 0,
        forall|p: usize| #[trigger]
            children@.dom().contains(p) ==> children@[p] == kids(row_views(rows@), p),
        forall|k: int| 0 <= k < start@.len() ==> (#[trigger] start@[k]) < rows@.len(),
        is_tree(row_views(rows@)),
    ensures
        (r.0@, text::texts(r.1@)) == run(row_views(rows@), start@, rows@.len()),
{
    let ghost views = row_views(rows@);
    let ghost want = run(views, start@, rows@.len());
    let mut list: Vec<usize> = start.clone();
    assert(list@ =~= start@);
    let mut names: Vec<String> = Vec::new();
    let mut fuel: usize = rows.len();
    assert(text::texts(names@) + want.1 =~= want.1);
    while fuel > 0
        invariant_except_break
            list@.len() > 0 ==> true,
        invariant
            fuel <= rows@.len(),
            views == row_views(rows@),
            is_tree(views),
            forall|p: usize| #[trigger] children@.dom().contains(p) <==> kids(views, p).len() > 0,
            forall|p: usize| #[trigger]
                children@.dom().contains(p) ==> children@[p] == kids(views, p),
            forall|k: int| 0 <= k < list@.len() ==> (#[trigger] list@[k]) < rows@.len(),
            ({
                let (end, more) = run(views, list@, fuel as nat);
                want == (end, text::texts(names@) + more)
            }),
        ensures
            want == (list@, text::texts(names@)),
        decreases fuel,
    {
        let ghost more = run(views, list@, fuel as nat).1;
        if list.len() != 1 {
            assert(text::texts(names@) + Seq::<Seq<char>>::empty() =~= text::texts(names@));
            break;
        }
        let only: usize = list[0];
        assert(list@[0] < rows@.len());
        let row = &rows[only];
        assert(views[only as int] == row@);
        let grand = match children.get(only) {
            Some(grand) => grand.clone(),
            None => Vec::new(),
        };
        assert(grand@ =~= kids(views, only)) by {
            assert(children@.dom().contains(only) <==> kids(views, only).len() > 0);
        }
        if row.category.is_some() || !joins(row.kind) || grand.len() == 0 {
            assert(!swallows(views, list@));
            assert(text::texts(names@) + Seq::<Seq<char>>::empty() =~= text::texts(names@));
            break;
        }
        assert(swallows(views, list@));
        let ghost had = names@;
        names.push(row.name.clone());
        proof {
            kids_follow(views, only, views.len());
            let rest = run(views, grand@, (fuel - 1) as nat).1;
            assert(text::texts(names@) =~= text::texts(had).push(row.name@));
            assert(text::texts(had) + (seq![row.name@] + rest) =~= text::texts(names@) + rest);
        }
        list = grand;
        fuel -= 1;
        proof {
            if fuel == 0 {
                assert(text::texts(names@) + Seq::<Seq<char>>::empty() =~= text::texts(names@));
            }
        }
    }
    (list, names)
}

/// A run leads to frames after the one it started under.
proof fn runs_follow(rows: Seq<RowView>, id: usize, list: Seq<usize>, fuel: nat)
    requires
        is_tree(rows),
        forall|k: int| 0 <= k < list.len() ==> id < #[trigger] list[k] < rows.len(),
    ensures
        forall|k: int|
            0 <= k < run(rows, list, fuel).0.len() ==> id < #[trigger] run(rows, list, fuel).0[k]
                < rows.len(),
    decreases fuel,
{
    if fuel > 0 && swallows(rows, list) {
        kids_follow(rows, list[0], rows.len());
        assert(id < list[0]);
        assert forall|k: int| 0 <= k < kids(rows, list[0]).len() implies id < #[trigger] kids(
            rows,
            list[0],
        )[k] < rows.len() by {
            assert(list[0] < kids_among(rows, list[0], rows.len())[k]);
        }
        runs_follow(rows, id, kids(rows, list[0]), (fuel - 1) as nat);
        assert(run(rows, list, fuel).0 == run(rows, kids(rows, list[0]), (fuel - 1) as nat).0);
    } else {
        assert(run(rows, list, fuel).0 == list);
    }
}

/// Folds runs of single calls into the frame above them.
///
/// Most of the tree is a chain rather than a fan, and a run of frames that
/// each call exactly one thing says only "and then it called this". Folding
/// them keeps every ending, so nothing the graph claims is lost.
#[must_use]
pub fn fold_chains(rows: &Vec<FlameRow>) -> (r: Vec<FlameRow>)
    requires
        is_tree(row_views(rows@)),
    ensures
        row_views(r@) == folded(row_views(rows@)),
        is_tree(row_views(r@)),
        forall|q: usize|
            q < r@.len() ==> !swallows(row_views(r@), #[trigger] kids(row_views(r@), q)),
{
    let ghost views = row_views(rows@);
    let ghost want = folded(views);
    let children = children_of(rows);
    let mut kept: Vec<FlameRow> = Vec::new();
    let mut stack: Vec<(usize, Option<usize>)> = Vec::new();
    stack.push((0, None));
    assert(row_views(kept@) =~= Seq::<RowView>::empty());
    assert(stack@.drop_last() =~= Seq::<(usize, Option<usize>)>::empty());
    proof {
        reveal_with_fuel(fold_stack, 2);
        assert(fold_stack(views, stack@, row_views(kept@)) == want);
        stack_adds(views, stack@, row_views(kept@));
    }
    // Every frame is visited at most once, so this ends within the input.
    while stack.len() > 0
        invariant
            views == row_views(rows@),
            is_tree(views),
            want == folded(views),
            forall|p: usize| #[trigger] children@.dom().contains(p) <==> kids(views, p).len() > 0,
            forall|p: usize| #[trigger]
                children@.dom().contains(p) ==> children@[p] == kids(views, p),
            forall|k: int| 0 <= k < stack@.len() ==> (#[trigger] stack@[k]).0 < views.len(),
            forall|k: int|
                0 <= k < stack@.len() ==> match (#[trigger] stack@[k]).1 {
                    Some(p) => p < kept@.len(),
                    None => true,
                },
            fold_stack(views, stack@, row_views(kept@)) == want,
            kept@.len() + stack@.len() <= want.len(),
            stack@.len() == 0 ==> kept@.len() > 0,
            forall|i: int|
                0 <= i < kept@.len() ==> (#[trigger] row_views(kept@)[i]).id == i && match row_views(
                    kept@,
                )[i].parent {
                    Some(p) => p < i,
                    None => true,
                },
        decreases want.len() - kept@.len(),
    {
        let ghost before = row_views(kept@);
        let ghost old_stack = stack@;
        let top = stack.pop();
        let (id, parent) = match top {
            Some(entry) => entry,
            None => {
                assert(false);
                (0, None)
            },
        };
        assert(old_stack.last() == (id, parent));
        assert(old_stack[old_stack.len() - 1].0 < views.len());
        assert(stack@ =~= old_stack.drop_last());
        let start = match children.get(id) {
            Some(list) => list.clone(),
            None => Vec::new(),
        };
        assert(start@ =~= kids(views, id)) by {
            assert(children@.dom().contains(id) <==> kids(views, id).len() > 0);
        }
        proof {
            kids_follow(views, id, views.len());
            assert forall|k: int| 0 <= k < start@.len() implies (#[trigger] start@[k])
                < rows@.len() by {
                assert(kids_among(views, id, views.len())[k] < views.len());
            }
        }
        let (list, names) = follow(rows, &children, &start);
        let new_id: usize = kept.len();
        let row = copy_row(&rows[id], new_id, parent, names);
        assert(views[id as int] == rows@[id as int]@);
        kept.push(row);
        let ghost rest = stack@;
        proof {
            let made = RowView {
                id: new_id,
                parent,
                elided: text::texts(names@),
                ..views[id as int]
            };
            assert(row_views(kept@) =~= before.push(made));
            runs_follow(views, id, start@, views.len());
            stacking_kids(views, rest, id, list@, list@.len(), new_id, row_views(kept@));
            assert(fold_stack(views, rest, fold_from(views, id, parent, before)) == want);
        }
        let mut k: usize = 0;
        assert(stack@ =~= stacked(rest, list@, 0, new_id));
        while k < list.len()
            invariant
                k <= list@.len(),
                stack@ == stacked(rest, list@, k as nat, new_id),
            decreases list.len() - k,
        {
            stack.push((list[k], Some(new_id)));
            k += 1;
            assert(stack@ =~= stacked(rest, list@, k as nat, new_id));
        }
        proof {
            assert forall|k: int| 0 <= k < stack@.len() implies (#[trigger] stack@[k]).0
                < views.len() by {
                if k < rest.len() {
                    assert(stack@[k] == old_stack[k]);
                } else {
                    assert(stack@[k].0 == list@[k - rest.len()]);
                }
            }
            assert forall|k: int| 0 <= k < stack@.len() implies match (#[trigger] stack@[k]).1 {
                Some(p) => p < kept@.len(),
                None => true,
            } by {
                if k < rest.len() {
                    assert(stack@[k] == old_stack[k]);
                }
            }
            assert forall|i: int| 0 <= i < kept@.len() implies (#[trigger] row_views(kept@)[i]).id
                == i && match row_views(kept@)[i].parent {
                Some(p) => p < i,
                None => true,
            } by {
                if i < before.len() {
                    assert(row_views(kept@)[i] == before[i]);
                }
            }
            stack_adds(views, stack@, row_views(kept@));
        }
    }
    proof {
        assert(kept.len() <= usize::MAX);
        folding_leaves_no_run(views);
    }
    kept
}

/// The panics that a list of frames ends in, in order.
pub open spec fn endings(rows: Seq<RowView>) -> Seq<(Seq<char>, u64)>
    decreases rows.len(),
{
    if rows.len() == 0 {
        Seq::empty()
    } else {
        let before = endings(rows.drop_last());
        match rows.last().category {
            Some(c) => before.push((c, rows.last().value)),
            None => before,
        }
    }
}

/// The panics at and under a frame, each after those of the frames above it,
/// and of the frames under one the last first.
pub open spec fn endings_under(rows: Seq<RowView>, id: usize) -> Seq<(Seq<char>, u64)>
    decreases rows.len() - id, 1int, 0nat,
{
    if id >= rows.len() {
        Seq::empty()
    } else {
        let list = kids(rows, id);
        endings_at(rows, id) + endings_below(rows, id, list, list.len())
    }
}

/// The panic at a frame, if it is one.
pub open spec fn endings_at(rows: Seq<RowView>, id: usize) -> Seq<(Seq<char>, u64)> {
    match rows[id as int].category {
        Some(c) => seq![(c, rows[id as int].value)],
        None => Seq::empty(),
    }
}

/// The panics at and under the first `n` frames of a list.
pub open spec fn endings_below(rows: Seq<RowView>, id: usize, list: Seq<usize>, n: nat) -> Seq<
    (Seq<char>, u64),
>
    decreases rows.len() - id, 0int, n,
{
    if n == 0 || id >= rows.len() {
        Seq::empty()
    } else {
        let kid = list[n - 1];
        (if kid > id && kid < rows.len() {
            endings_under(rows, kid)
        } else {
            Seq::empty()
        }) + endings_below(rows, id, list, (n - 1) as nat)
    }
}

proof fn endings_grow(rows: Seq<RowView>, row: RowView)
    ensures
        endings(rows.push(row)) == endings(rows) + (match row.category {
            Some(c) => seq![(c, row.value)],
            None => Seq::<(Seq<char>, u64)>::empty(),
        }),
{
    assert(rows.push(row).drop_last() =~= rows);
    match row.category {
        Some(c) => {
            assert(endings(rows).push((c, row.value)) =~= endings(rows) + seq![(c, row.value)]);
        },
        None => {
            assert(endings(rows) + Seq::<(Seq<char>, u64)>::empty() =~= endings(rows));
        },
    }
}

/// What a single call leads to does not depend on the frame it sits under.
proof fn single_run(rows: Seq<RowView>, id: usize, list: Seq<usize>, fuel: nat)
    requires
        is_tree(rows),
        id < rows.len(),
        forall|k: int| 0 <= k < list.len() ==> id < #[trigger] list[k] < rows.len(),
    ensures
        ({
            let end = run(rows, list, fuel).0;
            endings_below(rows, id, end, end.len()) == endings_below(rows, id, list, list.len())
        }),
    decreases fuel,
{
    if fuel > 0 && swallows(rows, list) {
        let only = list[0];
        let grand = kids(rows, only);
        kids_follow(rows, only, rows.len());
        assert(id < list[0]);
        assert forall|k: int| 0 <= k < grand.len() implies id < #[trigger] grand[k] < rows.len() by {
            assert(only < kids_among(rows, only, rows.len())[k]);
        }
        single_run(rows, id, grand, (fuel - 1) as nat);
        assert forall|k: int| 0 <= k < grand.len() implies only < #[trigger] grand[k]
            < rows.len() by {
            assert(only < kids_among(rows, only, rows.len())[k]);
        }
        same_below(rows, id, only, grand, grand.len());
        reveal_with_fuel(endings_below, 2);
        assert(endings_at(rows, only) + endings_below(rows, only, grand, grand.len())
            =~= endings_below(rows, only, grand, grand.len()));
        assert(endings_below(rows, id, list, 0) =~= Seq::empty());
        assert(endings_below(rows, id, list, 1) =~= endings_under(rows, only));
    }
}

proof fn same_below(rows: Seq<RowView>, a: usize, b: usize, list: Seq<usize>, n: nat)
    requires
        a < rows.len(),
        b < rows.len(),
        n <= list.len(),
        forall|k: int|
            0 <= k < list.len() ==> a < #[trigger] list[k] < rows.len() && b < list[k],
    ensures
        endings_below(rows, a, list, n) == endings_below(rows, b, list, n),
    decreases n,
{
    if n > 0 {
        assert(a < list[n - 1]);
        same_below(rows, a, b, list, (n - 1) as nat);
    }
}

proof fn folding_keeps(rows: Seq<RowView>, id: usize, parent: Option<usize>, kept: Seq<RowView>)
    requires
        is_tree(rows),
        id < rows.len(),
    ensures
        endings(fold_from(rows, id, parent, kept)) == endings(kept) + endings_under(rows, id),
    decreases rows.len() - id, 1int, 0nat,
{
    let start = kids(rows, id);
    let (list, names) = run(rows, start, rows.len());
    let row = RowView { id: kept.len() as usize, parent, elided: names, ..rows[id as int] };
    kids_follow(rows, id, rows.len());
    assert forall|k: int| 0 <= k < start.len() implies id < #[trigger] start[k] < rows.len() by {
        assert(id < kids_among(rows, id, rows.len())[k]);
    }
    runs_follow(rows, id, start, rows.len());
    folding_kids_keeps(rows, id, list, list.len(), kept.len() as usize, kept.push(row));
    endings_grow(kept, row);
    single_run(rows, id, start, rows.len());
    assert(endings(kept) + endings_at(rows, id) + endings_below(rows, id, start, start.len())
        =~= endings(kept) + (endings_at(rows, id) + endings_below(rows, id, start, start.len())));
}

proof fn folding_kids_keeps(
    rows: Seq<RowView>,
    id: usize,
    list: Seq<usize>,
    n: nat,
    parent: usize,
    kept: Seq<RowView>,
)
    requires
        is_tree(rows),
        id < rows.len(),
        n <= list.len(),
        forall|k: int| 0 <= k < list.len() ==> id < #[trigger] list[k] < rows.len(),
    ensures
        endings(fold_kids(rows, id, list, n, parent, kept)) == endings(kept) + endings_below(
            rows,
            id,
            list,
            n,
        ),
    decreases rows.len() - id, 0int, n,
{
    if n > 0 {
        let kid = list[n - 1];
        assert(id < list[n - 1]);
        let next = fold_from(rows, kid, Some(parent), kept);
        folding_keeps(rows, kid, Some(parent), kept);
        folding_kids_keeps(rows, id, list, (n - 1) as nat, parent, next);
        let rest = endings_below(rows, id, list, (n - 1) as nat);
        assert(endings(kept) + endings_under(rows, kid) + rest =~= endings(kept) + (endings_under(
            rows,
            kid,
        ) + rest));
    } else {
        assert(endings(kept) + Seq::<(Seq<char>, u64)>::empty() =~= endings(kept));
    }
}

/// Folding keeps every ending: the panics of the folded frames are those under
/// the root, each with its count.
pub proof fn folding_keeps_every_ending(rows: Seq<RowView>)
    requires
        is_tree(rows),
    ensures
        endings(folded(rows)) == endings_under(rows, 0),
{
    folding_keeps(rows, 0, None, Seq::empty());
    assert(endings(Seq::<RowView>::empty()) + endings_under(rows, 0) =~= endings_under(rows, 0));
}

/// How many frames folding keeps of a frame and of everything under it.
pub open spec fn size(rows: Seq<RowView>, id: usize) -> nat
    decreases rows.len() - id, 1int, 0nat,
{
    if id >= rows.len() {
        0
    } else {
        let list = run(rows, kids(rows, id), rows.len()).0;
        1 + sizes(rows, id, list, list.len())
    }
}

/// How many frames folding keeps of the first `n` of a list.
pub open spec fn sizes(rows: Seq<RowView>, id: usize, list: Seq<usize>, n: nat) -> nat
    decreases rows.len() - id, 0int, n,
{
    if n == 0 || id >= rows.len() {
        0
    } else {
        let kid = list[n - 1];
        (if kid > id && kid < rows.len() {
            size(rows, kid)
        } else {
            0
        }) + sizes(rows, id, list, (n - 1) as nat)
    }
}

proof fn folding_grows(rows: Seq<RowView>, id: usize, parent: Option<usize>, kept: Seq<RowView>)
    ensures
        fold_from(rows, id, parent, kept).len() == kept.len() + size(rows, id),
    decreases rows.len() - id, 1int, 0nat,
{
    if id < rows.len() {
        let (list, names) = run(rows, kids(rows, id), rows.len());
        let row = RowView { id: kept.len() as usize, parent, elided: names, ..rows[id as int] };
        folding_kids_grows(rows, id, list, list.len(), kept.len() as usize, kept.push(row));
    }
}

proof fn folding_kids_grows(
    rows: Seq<RowView>,
    id: usize,
    list: Seq<usize>,
    n: nat,
    parent: usize,
    kept: Seq<RowView>,
)
    ensures
        fold_kids(rows, id, list, n, parent, kept).len() == kept.len() + sizes(rows, id, list, n),
    decreases rows.len() - id, 0int, n,
{
    if n > 0 && id < rows.len() {
        let kid = list[n - 1];
        if kid > id && kid < rows.len() {
            folding_grows(rows, kid, Some(parent), kept);
            let next = fold_from(rows, kid, Some(parent), kept);
            folding_kids_grows(rows, id, list, (n - 1) as nat, parent, next);
        } else {
            folding_kids_grows(rows, id, list, (n - 1) as nat, parent, kept);
        }
    }
}

/// Whether a row is numbered by its place and sits under an earlier row from
/// another place on.
spec fn hangs(row: RowView, at: int, from: nat) -> bool {
    row.id == at && match row.parent {
        Some(p) => from <= p < at,
        None => false,
    }
}

proof fn folding_hangs(rows: Seq<RowView>, id: usize, parent: Option<usize>, kept: Seq<RowView>)
    requires
        id < rows.len(),
        fold_from(rows, id, parent, kept).len() <= usize::MAX,
    ensures
        ({
            let made = fold_from(rows, id, parent, kept);
            &&& kept.len() < made.len()
            &&& made.take(kept.len() as int) == kept
            &&& made[kept.len() as int].id == kept.len()
            &&& made[kept.len() as int].parent == parent
            &&& made[kept.len() as int].category == rows[id as int].category
            &&& made[kept.len() as int].kind == rows[id as int].kind
            &&& forall|i: int|
                kept.len() < i < made.len() ==> hangs(#[trigger] made[i], i, kept.len())
        }),
    decreases rows.len() - id, 1int, 0nat,
{
    let (list, names) = run(rows, kids(rows, id), rows.len());
    let at = kept.len() as usize;
    let row = RowView { id: at, parent, elided: names, ..rows[id as int] };
    let made = fold_from(rows, id, parent, kept);
    folding_kids_grows(rows, id, list, list.len(), at, kept.push(row));
    assert(at == kept.len());
    folding_kids_hang(rows, id, list, list.len(), at, kept.push(row));
    assert forall|i: int| 0 <= i <= kept.len() implies made[i] == kept.push(row)[i] by {
        assert(made[i] == made.take(kept.len() as int + 1)[i]);
    }
    assert(made.take(kept.len() as int) =~= kept);
    assert forall|i: int| kept.len() < i < made.len() implies hangs(
        #[trigger] made[i],
        i,
        kept.len(),
    ) by {
        assert(sits(made[i], i, at, kept.len() + 1));
    }
}

/// Whether a row is numbered by its place and sits under one row or under an
/// earlier one from another place on.
spec fn sits(row: RowView, at: int, parent: usize, from: nat) -> bool {
    row.id == at && match row.parent {
        Some(p) => p == parent || from <= p < at,
        None => false,
    }
}

proof fn folding_kids_hang(
    rows: Seq<RowView>,
    id: usize,
    list: Seq<usize>,
    n: nat,
    parent: usize,
    kept: Seq<RowView>,
)
    requires
        parent < kept.len(),
        fold_kids(rows, id, list, n, parent, kept).len() <= usize::MAX,
    ensures
        ({
            let made = fold_kids(rows, id, list, n, parent, kept);
            &&& kept.len() <= made.len()
            &&& made.take(kept.len() as int) == kept
            &&& forall|i: int|
                kept.len() <= i < made.len() ==> sits(#[trigger] made[i], i, parent, kept.len())
        }),
    decreases rows.len() - id, 0int, n,
{
    let made = fold_kids(rows, id, list, n, parent, kept);
    folding_kids_grows(rows, id, list, n, parent, kept);
    if n > 0 && id < rows.len() {
        let kid = list[n - 1];
        if kid > id && kid < rows.len() {
            let next = fold_from(rows, kid, Some(parent), kept);
            folding_grows(rows, kid, Some(parent), kept);
            folding_kids_grows(rows, id, list, (n - 1) as nat, parent, next);
            folding_hangs(rows, kid, Some(parent), kept);
            folding_kids_hang(rows, id, list, (n - 1) as nat, parent, next);
            assert forall|i: int| 0 <= i < next.len() implies made[i] == next[i] by {
                assert(made[i] == made.take(next.len() as int)[i]);
            }
            assert(made.take(kept.len() as int) =~= next.take(kept.len() as int));
            assert forall|i: int| kept.len() <= i < made.len() implies sits(
                #[trigger] made[i],
                i,
                parent,
                kept.len(),
            ) by {
                if i == kept.len() {
                    assert(made[i] == next[i]);
                } else if i < next.len() {
                    assert(made[i] == next[i]);
                    assert(hangs(next[i], i, kept.len()));
                } else {
                    assert(sits(made[i], i, parent, next.len()));
                }
            }
        } else {
            folding_kids_hang(rows, id, list, (n - 1) as nat, parent, kept);
        }
    } else {
        assert(made.take(kept.len() as int) =~= kept);
    }
}

/// A run is followed to its end.
proof fn runs_end(rows: Seq<RowView>, list: Seq<usize>, fuel: nat)
    requires
        is_tree(rows),
        list.len() == 1 && list[0] < rows.len() ==> fuel >= rows.len() - list[0],
    ensures
        !swallows(rows, run(rows, list, fuel).0),
    decreases fuel,
{
    if swallows(rows, list) {
        let below = kids(rows, list[0]);
        kids_follow(rows, list[0], rows.len());
        assert(list[0] < kids_among(rows, list[0], rows.len())[0]);
        runs_end(rows, below, (fuel - 1) as nat);
    }
}

/// Rows under other frames add nothing to the frames under one.
proof fn none_between(rows: Seq<RowView>, parent: usize, from: nat, to: nat)
    requires
        from <= to <= rows.len(),
        forall|i: int| from <= i < to ==> (#[trigger] rows[i]).parent != Some(parent),
    ensures
        kids_among(rows, parent, to) == kids_among(rows, parent, from),
    decreases to,
{
    if from < to {
        none_between(rows, parent, from, (to - 1) as nat);
        assert(rows[to - 1].parent != Some(parent));
    }
}

/// Where the first `n` frames of a list are kept, the last of them first.
spec fn heads(rows: Seq<RowView>, list: Seq<usize>, n: nat, base: nat) -> Seq<usize>
    decreases n,
{
    if n == 0 {
        Seq::empty()
    } else {
        seq![base as usize] + heads(
            rows,
            list,
            (n - 1) as nat,
            base + size(rows, list[n - 1]),
        )
    }
}

/// How many frames folding keeps of each of a list, in all.
spec fn size_all(rows: Seq<RowView>, list: Seq<usize>) -> nat
    decreases list.len(),
{
    if list.len() == 0 {
        0
    } else {
        size(rows, list[0]) + size_all(rows, list.skip(1))
    }
}

proof fn size_all_but_last(rows: Seq<RowView>, list: Seq<usize>)
    requires
        list.len() > 0,
    ensures
        size_all(rows, list) == size_all(rows, list.drop_last()) + size(rows, list.last()),
    decreases list.len(),
{
    if list.len() > 1 {
        size_all_but_last(rows, list.skip(1));
        assert(list.skip(1).drop_last() =~= list.drop_last().skip(1));
    } else {
        assert(list.skip(1) =~= Seq::empty());
        assert(list.drop_last() =~= Seq::empty());
    }
}

proof fn sizes_are_all(rows: Seq<RowView>, id: usize, list: Seq<usize>, n: nat)
    requires
        id < rows.len(),
        n <= list.len(),
        forall|k: int| 0 <= k < list.len() ==> id < #[trigger] list[k] < rows.len(),
    ensures
        sizes(rows, id, list, n) == size_all(rows, list.take(n as int)),
    decreases n,
{
    if n > 0 {
        sizes_are_all(rows, id, list, (n - 1) as nat);
        let part = list.take(n as int);
        size_all_but_last(rows, part);
        assert(part.drop_last() =~= list.take(n - 1));
        assert(id < list[n - 1]);
    } else {
        assert(list.take(0) =~= Seq::empty());
    }
}

/// Whether a frame of a folded tree stands for a frame of the tree.
spec fn stands_for(whole: Seq<RowView>, at: usize, rows: Seq<RowView>, id: usize) -> bool {
    &&& at < whole.len()
    &&& whole[at as int].category == rows[id as int].category
    &&& whole[at as int].kind == rows[id as int].kind
    &&& kids(whole, at).len() == run(rows, kids(rows, id), rows.len()).0.len()
}

/// Whether a row sits under none of the rows between two places.
spec fn apart(row: RowView, from: nat, to: nat) -> bool {
    match row.parent {
        Some(p) => p < from || p >= to,
        None => true,
    }
}

/// What folding makes of a frame and of everything under it, as it stands in
/// the tree it makes: nothing in it is a run.
proof fn folded_frame(
    rows: Seq<RowView>,
    id: usize,
    parent: Option<usize>,
    kept: Seq<RowView>,
    whole: Seq<RowView>,
)
    requires
        is_tree(rows),
        id < rows.len(),
        is_tree(whole),
        whole.len() <= usize::MAX,
        ({
            let made = fold_from(rows, id, parent, kept);
            &&& made.len() <= whole.len()
            &&& whole.take(made.len() as int) == made
            &&& forall|i: int|
                made.len() <= i < whole.len() ==> apart(#[trigger] whole[i], kept.len(), made.len())
        }),
    ensures
        ({
            let made = fold_from(rows, id, parent, kept);
            &&& stands_for(whole, kept.len() as usize, rows, id)
            &&& size(whole, kept.len() as usize) == size(rows, id)
            &&& forall|q: usize|
                kept.len() <= q < made.len() ==> !swallows(whole, #[trigger] kids(whole, q))
        }),
    decreases rows.len() - id, 1int, 0nat,
{
    let start = kids(rows, id);
    let (list, names) = run(rows, start, rows.len());
    let at = kept.len() as usize;
    let row = RowView { id: at, parent, elided: names, ..rows[id as int] };
    let first = kept.push(row);
    let made = fold_from(rows, id, parent, kept);
    folding_grows(rows, id, parent, kept);
    folding_hangs(rows, id, parent, kept);
    kids_follow(rows, id, rows.len());
    assert forall|k: int| 0 <= k < start.len() implies id < #[trigger] start[k] < rows.len() by {
        assert(id < kids_among(rows, id, rows.len())[k]);
    }
    runs_follow(rows, id, start, rows.len());
    runs_end(rows, start, rows.len());
    folded_kids(rows, id, list, list.len(), at, first, whole);
    assert(made[at as int] == whole.take(made.len() as int)[at as int]);
    let below = heads(rows, list, list.len(), first.len());
    assert(kids(whole, at) == below) by {
        assert forall|i: int| 0 <= i < first.len() implies (#[trigger] whole[i]).parent != Some(
            at,
        ) by {}
        none_between(whole, at, 0, first.len());
        assert forall|i: int| made.len() <= i < whole.len() implies (#[trigger] whole[i]).parent
            != Some(at) by {
            assert(apart(whole[i], kept.len(), made.len()));
        }
        none_between(whole, at, made.len(), whole.len());
        assert(kids(whole, at) =~= below);
    }
    if swallows(whole, below) {
        let only = list[0];
        assert(stands_for(whole, below[0], rows, list[list.len() - 1 - 0]));
        assert(id < list[0]);
        assert(kids(rows, only).len() > 0) by {
            if kids(rows, only).len() == 0 {
                assert(run(rows, kids(rows, only), rows.len()).0 == kids(rows, only));
            }
        }
        assert(swallows(rows, list));
    }
    assert forall|k: int| 0 <= k < below.len() implies at < #[trigger] below[k] < whole.len() by {
        assert(stands_for(whole, below[k], rows, list[list.len() - 1 - k]));
    }
    sizes_are_all(whole, at, below, below.len());
    assert(below.take(below.len() as int) =~= below);
    assert(run(whole, below, whole.len()).0 == below);
    assert forall|q: usize| kept.len() <= q < made.len() implies !swallows(
        whole,
        #[trigger] kids(whole, q),
    ) by {}
}

/// What folding makes of the first `n` frames of a list, as it stands in the
/// tree it makes.
proof fn folded_kids(
    rows: Seq<RowView>,
    id: usize,
    list: Seq<usize>,
    n: nat,
    at: usize,
    kept: Seq<RowView>,
    whole: Seq<RowView>,
)
    requires
        is_tree(rows),
        id < rows.len(),
        n <= list.len(),
        forall|k: int| 0 <= k < list.len() ==> id < #[trigger] list[k] < rows.len(),
        is_tree(whole),
        whole.len() <= usize::MAX,
        at < kept.len(),
        ({
            let made = fold_kids(rows, id, list, n, at, kept);
            &&& made.len() <= whole.len()
            &&& whole.take(made.len() as int) == made
            &&& forall|i: int|
                made.len() <= i < whole.len() ==> apart(#[trigger] whole[i], at as nat, made.len())
        }),
    ensures
        ({
            let made = fold_kids(rows, id, list, n, at, kept);
            let below = heads(rows, list, n, kept.len());
            &&& below.len() == n
            &&& kids_among(whole, at, made.len()) == kids_among(whole, at, kept.len()) + below
            &&& size_all(whole, below) == sizes(rows, id, list, n)
            &&& forall|k: int|
                0 <= k < n ==> kept.len() <= #[trigger] below[k] && stands_for(
                    whole,
                    below[k],
                    rows,
                    list[n - 1 - k],
                )
            &&& forall|q: usize|
                kept.len() <= q < made.len() ==> !swallows(whole, #[trigger] kids(whole, q))
        }),
    decreases rows.len() - id, 0int, n,
{
    let made = fold_kids(rows, id, list, n, at, kept);
    let below = heads(rows, list, n, kept.len());
    folding_kids_grows(rows, id, list, n, at, kept);
    if n > 0 {
        let kid = list[n - 1];
        assert(id < list[n - 1]);
        let next = fold_from(rows, kid, Some(at), kept);
        let rest = heads(rows, list, (n - 1) as nat, next.len());
        folding_grows(rows, kid, Some(at), kept);
        folding_kids_grows(rows, id, list, (n - 1) as nat, at, next);
        folding_hangs(rows, kid, Some(at), kept);
        folding_kids_hang(rows, id, list, (n - 1) as nat, at, next);
        assert forall|i: int| 0 <= i < made.len() implies whole[i] == made[i] by {
            assert(whole[i] == whole.take(made.len() as int)[i]);
        }
        assert forall|i: int| 0 <= i < next.len() implies whole[i] == next[i] by {
            assert(made[i] == made.take(next.len() as int)[i]);
        }
        assert(whole.take(next.len() as int) =~= next);
        assert forall|i: int| next.len() <= i < whole.len() implies apart(
            #[trigger] whole[i],
            kept.len(),
            next.len(),
        ) by {
            if i < made.len() {
                assert(sits(made[i], i, at, next.len()));
            } else {
                assert(apart(whole[i], at as nat, made.len()));
            }
        }
        folded_frame(rows, kid, Some(at), kept, whole);
        folded_kids(rows, id, list, (n - 1) as nat, at, next, whole);
        let base = kept.len() as usize;
        assert(below == seq![base] + rest);
        assert(kids_among(whole, at, kept.len() + 1) == kids_among(whole, at, kept.len()).push(
            base,
        ));
        assert forall|i: int| kept.len() < i < next.len() implies (#[trigger] whole[i]).parent
            != Some(at) by {
            assert(hangs(next[i], i, kept.len()));
        }
        none_between(whole, at, kept.len() + 1, next.len());
        assert(kids_among(whole, at, made.len()) =~= kids_among(whole, at, kept.len()) + below);
        assert(below.skip(1) =~= rest);
        assert forall|k: int| 0 <= k < n implies kept.len() <= #[trigger] below[k] && stands_for(
            whole,
            below[k],
            rows,
            list[n - 1 - k],
        ) by {
            if k > 0 {
                assert(below[k] == rest[k - 1]);
                assert(stands_for(whole, rest[k - 1], rows, list[n - 1 - 1 - (k - 1)]));
            }
        }
        assert forall|q: usize| kept.len() <= q < made.len() implies !swallows(
            whole,
            #[trigger] kids(whole, q),
        ) by {}
    } else {
        assert(kids_among(whole, at, kept.len()) + below =~= kids_among(whole, at, kept.len()));
    }
}

/// Folding leaves no run behind: no frame has as its only child a call that
/// goes on to call something. Folding again therefore keeps every frame.
pub proof fn folding_leaves_no_run(rows: Seq<RowView>)
    requires
        is_tree(rows),
        folded(rows).len() <= usize::MAX,
    ensures
        is_tree(folded(rows)),
        forall|q: usize|
            q < folded(rows).len() ==> !swallows(folded(rows), #[trigger] kids(folded(rows), q)),
        folded(folded(rows)).len() == folded(rows).len(),
{
    let none = Seq::<RowView>::empty();
    let whole = folded(rows);
    folding_hangs(rows, 0, None, none);
    folding_grows(rows, 0, None, none);
    assert(is_tree(whole)) by {
        assert forall|i: int| 0 <= i < whole.len() implies (#[trigger] whole[i]).id == i
            && match whole[i].parent {
            Some(p) => p < i,
            None => true,
        } by {
            if i > 0 {
                assert(hangs(whole[i], i, 0));
            }
        }
    }
    assert(whole.take(whole.len() as int) =~= whole);
    folded_frame(rows, 0, None, none, whole);
    folding_grows(whole, 0, None, none);
}

/// Builds the tree of what shows in a selection, optionally folding runs of
/// single calls.
///
/// # Errors
///
/// Returns an error if the fixpoint does not converge, which does not happen.
pub fn drawn_rows(
    g: &Graph,
    suppressed: CategorySet,
    edges: Edges,
    sel: Selection,
    fold: bool,
) -> (r: Result<Vec<FlameRow>, String>)
    ensures
        r is Ok,
        is_tree(row_views(r->Ok_0@)),
        are_drawn(row_views(r->Ok_0@), g@.bodies, suppressed@, edges, sel, fold),
{
    let (rows, Ghost(basis)) = match plain_rows(g, suppressed, edges, sel) {
        Ok(found) => found,
        Err(message) => {
            return Err(message);
        },
    };
    let out = if fold {
        fold_chains(&rows)
    } else {
        rows
    };
    assert(draws_rows(row_views(out@), g@.bodies, suppressed@, edges, sel, fold, basis));
    Ok(out)
}

/// Whether rows draw what shows of a graph, folded or as it stands.
pub open spec fn draws_rows(
    rows: Seq<RowView>,
    bodies: Seq<BodyView>,
    suppressed: Set<Category>,
    edges: Edges,
    sel: Selection,
    fold: bool,
    basis: Basis,
) -> bool {
    let plain = frames(sel, bodies, basis.drawn, basis.drawn.len());
    &&& is_drawing(
        plain,
        sel,
        bodies,
        suppressed,
        edges,
        basis.policy,
        basis.states,
        basis.drawn,
    )
    &&& rows == (if fold {
        folded(plain)
    } else {
        plain
    })
}

/// Whether rows draw what shows of a graph solved under a policy, folded or as
/// it stands.
pub open spec fn are_drawn(
    rows: Seq<RowView>,
    bodies: Seq<BodyView>,
    suppressed: Set<Category>,
    edges: Edges,
    sel: Selection,
    fold: bool,
) -> bool {
    exists|basis: Basis| #[trigger]
        draws_rows(rows, bodies, suppressed, edges, sel, fold, basis)
}

/// Builds the tree of the usual selection, optionally folding runs of single
/// calls.
///
/// # Errors
///
/// Returns an error if the fixpoint does not converge, which does not happen.
pub fn flame_rows(g: &Graph, suppressed: CategorySet, edges: Edges, fold: bool) -> (r: Result<
    Vec<FlameRow>,
    String,
>)
    ensures
        r is Ok,
        is_tree(row_views(r->Ok_0@)),
        are_drawn(row_views(r->Ok_0@), g@.bodies, suppressed@, edges, usual(), fold),
{
    let sel = Selection::default();
    assert(sel == usual());
    drawn_rows(g, suppressed, edges, sel, fold)
}

/// The names of the frames from below the root down to one.
pub open spec fn path_names(rows: Seq<RowView>, id: usize) -> Seq<Seq<char>>
    decreases id,
{
    match rows[id as int].parent {
        Some(p) => if p < id {
            path_names(rows, p).push(rows[id as int].name)
        } else {
            Seq::empty()
        },
        None => Seq::empty(),
    }
}

/// The whole name of the function a frame stands for, if it stands for one.
pub open spec fn full_name(rows: Seq<RowView>, id: usize) -> Option<Seq<char>> {
    if rows[id as int].kind == "function"@ {
        Some(text::joined(path_names(rows, id), "::"@))
    } else {
        None
    }
}

/// The whole name of the function a frame stands for, if it stands for one.
fn whole_name(rows: &Vec<FlameRow>, id: usize) -> (r: Option<String>)
    requires
        is_tree(row_views(rows@)),
        id < rows@.len(),
    ensures
        model::text_view(r) == full_name(row_views(rows@), id),
{
    let ghost views = row_views(rows@);
    assert(views[id as int] == rows@[id as int]@);
    if !text::same(rows[id].kind, "function") {
        return None;
    }
    let ghost want = path_names(views, id);
    let mut names: Vec<String> = Vec::new();
    let mut at: usize = id;
    assert(want + text::texts(names@) =~= want);
    loop
        invariant
            views == row_views(rows@),
            is_tree(views),
            at < rows@.len(),
            path_names(views, at) + text::texts(names@) == want,
        ensures
            text::texts(names@) == want,
        decreases at,
    {
        assert(views[at as int] == rows@[at as int]@);
        match rows[at].parent {
            Some(p) => {
                let ghost had = names@;
                let ghost before = path_names(views, p);
                let ghost name = rows@[at as int].name@;
                names.insert(0, rows[at].name.clone());
                proof {
                    assert(text::texts(names@) =~= seq![name] + text::texts(had));
                    assert(before.push(name) + text::texts(had) =~= before + text::texts(names@));
                }
                at = p;
            },
            None => {
                assert(path_names(views, at) + text::texts(names@) =~= text::texts(names@));
                break;
            },
        }
    }
    Some(text::join(&names, "::"))
}

/// A frame as a document.
pub open spec fn row_doc(rows: Seq<RowView>, i: int) -> Json {
    let row = rows[i];
    json::empty_object().with("id"@, json::counted(row.id as nat)).with(
        "parent"@,
        match row.parent {
            Some(p) => json::counted(p as nat),
            None => Json::Null,
        },
    ).with("name"@, Json::Str(row.name)).with("category"@, json::optional(row.category)).with(
        "kind"@,
        Json::Str(row.kind),
    ).with("cleanup"@, Json::Bool(row.cleanup)).with("elided"@, json::listed(row.elided)).with(
        "value"@,
        json::counted(row.value as nat),
    ).with(
        "verdict"@,
        match row.verdict {
            Some(v) => Json::Str(v.spec_name()),
            None => Json::Null,
        },
    ).with("full"@, json::optional(full_name(rows, i as usize)))
}

/// The frames as documents.
pub open spec fn row_docs(rows: Seq<RowView>) -> Seq<Json> {
    Seq::new(rows.len(), |i: int| row_doc(rows, i))
}

/// The frames as a document.
fn rows_value(rows: &Vec<FlameRow>) -> (r: serde_json::Value)
    requires
        is_tree(row_views(rows@)),
    ensures
        json::meaning(r) == Json::Arr(row_docs(row_views(rows@))),
{
    let ghost views = row_views(rows@);
    let mut items: Vec<serde_json::Value> = Vec::new();
    let mut i: usize = 0;
    while i < rows.len()
        invariant
            i <= rows@.len(),
            views == row_views(rows@),
            is_tree(views),
            items@.len() == i,
            forall|k: int| 0 <= k < i ==> json::meaning(#[trigger] items@[k]) == row_doc(views, k),
        decreases rows.len() - i,
    {
        let row = &rows[i];
        assert(views[i as int] == row@);
        let mut item = json::object();
        json::put(&mut item, "id", json::number(row.id as u64));
        let parent = match row.parent {
            Some(p) => json::number(p as u64),
            None => json::null(),
        };
        json::put(&mut item, "parent", parent);
        json::put(&mut item, "name", json::string(row.name.clone()));
        let category = match row.category {
            Some(c) => json::words(c),
            None => json::null(),
        };
        json::put(&mut item, "category", category);
        json::put(&mut item, "kind", json::words(row.kind));
        json::put(&mut item, "cleanup", json::flag(row.cleanup));
        json::put(&mut item, "elided", json::list(&row.elided));
        json::put(&mut item, "value", json::number(row.value));
        let verdict = match row.verdict {
            Some(v) => json::words(v.name()),
            None => json::null(),
        };
        json::put(&mut item, "verdict", verdict);
        json::put(&mut item, "full", json::maybe(&whole_name(rows, i)));
        items.push(item);
        i += 1;
    }
    assert(json::meanings(items@) =~= row_docs(views));
    json::array(items)
}

/// Whether a document is that of the tree of a graph solved under a policy.
pub open spec fn is_flame_doc(
    doc: Json,
    bodies: Seq<BodyView>,
    suppressed: Set<Category>,
    edges: Edges,
    fold: bool,
    rows: Seq<RowView>,
) -> bool {
    &&& are_drawn(rows, bodies, suppressed, edges, usual(), fold)
    &&& doc == json::empty_object().with("nodes"@, Json::Arr(row_docs(rows)))
}

/// A prefix tree of every witness path in the crate.
///
/// Merging the shortest path from each local function to each panic it can
/// reach produces exactly the shape of a flame graph: width is the number of
/// reachable panics, depth is call depth. Returned flat, with parent links,
/// so the view can build the hierarchy without this code recursing.
///
/// # Errors
///
/// Returns an error if the fixpoint does not converge, which does not happen.
pub fn flame(g: &Graph, suppressed: CategorySet, edges: Edges, fold: bool) -> (r: Result<
    serde_json::Value,
    String,
>)
    ensures
        r is Ok,
        exists|rows: Seq<RowView>| #[trigger]
            is_flame_doc(json::meaning(r->Ok_0), g@.bodies, suppressed@, edges, fold, rows),
{
    let rows = match flame_rows(g, suppressed, edges, fold) {
        Ok(rows) => rows,
        Err(message) => {
            return Err(message);
        },
    };
    let ghost views = row_views(rows@);
    let mut doc = json::object();
    json::put(&mut doc, "nodes", rows_value(&rows));
    assert(is_flame_doc(json::meaning(doc), g@.bodies, suppressed@, edges, fold, views));
    Ok(doc)
}

/// The most of a source file the view will load.
pub const MAX_SOURCE_BYTES: usize = 4194304;

/// Whether a location names a file.
pub open spec fn names_file(loc: Option<LocView>, file: Seq<char>) -> bool {
    loc is Some && loc->0.file == file
}

/// Whether the record of a function refers to a file.
pub open spec fn refers(body: BodyView, file: Seq<char>) -> bool {
    ||| names_file(body.loc, file)
    ||| exists|j: int| 0 <= j < body.sites.len() && names_file((#[trigger] body.sites[j]).loc, file)
    ||| exists|j: int| 0 <= j < body.calls.len() && names_file((#[trigger] body.calls[j]).loc, file)
}

/// Whether one of the first `n` functions refers to a file.
pub open spec fn referenced(bodies: Seq<BodyView>, file: Seq<char>, n: int) -> bool {
    exists|i: int| 0 <= i < n && refers(#[trigger] bodies[i], file)
}

/// The source files a graph refers to.
pub struct Sources {
    files: Table,
}

impl View for Sources {
    type V = Set<Seq<char>>;

    closed spec fn view(&self) -> Set<Seq<char>> {
        table::entries(self.files).dom()
    }
}

impl Sources {
    /// Whether a file is among them.
    pub fn contains(&self, file: &str) -> (r: bool)
        ensures
            r == self@.contains(file@),
    {
        self.files.get(file).is_some()
    }

    fn name_file(&mut self, loc: &Option<Loc>)
        ensures
            forall|f: Seq<char>| #[trigger]
                final(self)@.contains(f) <==> old(self)@.contains(f) || names_file(
                    model::loc_view(*loc),
                    f,
                ),
    {
        if let Some(loc) = loc {
            self.files.insert(loc.file.clone(), 0);
        }
    }

    fn name_all(&mut self, body: &Body)
        ensures
            forall|f: Seq<char>| #[trigger]
                final(self)@.contains(f) <==> old(self)@.contains(f) || refers(body@, f),
    {
        let ghost was = self@;
        self.name_file(&body.loc);
        let ghost first = self@;
        let mut j: usize = 0;
        while j < body.sites.len()
            invariant
                j <= body.sites@.len(),
                forall|f: Seq<char>| #[trigger]
                    self@.contains(f) <==> first.contains(f) || exists|k: int|
                        0 <= k < j && names_file((#[trigger] body@.sites[k]).loc, f),
            decreases body.sites@.len() - j,
        {
            assert(body@.sites[j as int] == body.sites@[j as int]@);
            self.name_file(&body.sites[j].loc);
            j += 1;
        }
        let ghost second = self@;
        let mut j: usize = 0;
        while j < body.calls.len()
            invariant
                j <= body.calls@.len(),
                forall|f: Seq<char>| #[trigger]
                    self@.contains(f) <==> second.contains(f) || exists|k: int|
                        0 <= k < j && names_file((#[trigger] body@.calls[k]).loc, f),
            decreases body.calls@.len() - j,
        {
            assert(body@.calls[j as int] == body.calls@[j as int]@);
            self.name_file(&body.calls[j].loc);
            j += 1;
        }
    }
}

/// Every source file the graph refers to.
///
/// The view may ask for any of these, and for nothing else: a path that the
/// analysis did not name is not the view's to read.
#[must_use]
pub fn source_allowlist(g: &Graph) -> (r: Sources)
    ensures
        forall|f: Seq<char>| #[trigger]
            r@.contains(f) <==> referenced(g@.bodies, f, g@.bodies.len() as int),
{
    let mut r = Sources { files: Table::new() };
    let n = g.len();
    let mut i: usize = 0;
    while i < n
        invariant
            i <= n == g@.bodies.len() <= u32::MAX,
            forall|f: Seq<char>| #[trigger]
                r@.contains(f) <==> referenced(g@.bodies, f, i as int),
        decreases n - i,
    {
        let ghost was = r@;
        r.name_all(g.body(FuncId::from_index(i)));
        proof {
            assert forall|f: Seq<char>| #[trigger]
                r@.contains(f) <==> referenced(g@.bodies, f, i + 1) by {
                assert(was.contains(f) <==> referenced(g@.bodies, f, i as int));
                if refers(g@.bodies[i as int], f) {
                    assert(referenced(g@.bodies, f, i + 1));
                }
            }
        }
        i += 1;
    }
    r
}

/// What is said of a file the analysis did not name.
pub open spec fn unreferenced(file: Seq<char>) -> Seq<char> {
    "`"@ + file + "` is not referenced by this analysis"@
}

/// Why a source file is not handed out, if it is not: it is not the view's to
/// read, it could not be read, it is too large, or it is no text.
pub open spec fn denied(allowed: bool, file: Seq<char>, read: Result<Vec<u8>, String>) -> Option<
    Seq<char>,
> {
    if !allowed {
        Some(unreferenced(file))
    } else {
        match read {
            Err(cause) => Some("could not read "@ + file + ": "@ + cause@),
            Ok(bytes) => if bytes@.len() > MAX_SOURCE_BYTES {
                Some("`"@ + file + "` is larger than this view will load"@)
            } else if !vstd::utf8::valid_utf8(bytes@) {
                Some("`"@ + file + "` is not valid utf-8: "@ + bytes::utf8_fault(bytes@))
            } else {
                None
            },
        }
    }
}

/// A source file as a document.
pub open spec fn source_doc(file: Seq<char>, contents: Seq<char>) -> Json {
    json::empty_object().with("file"@, Json::Str(file)).with("text"@, Json::Str(contents))
}

/// Answers with one source file, if the graph refers to it, out of what was
/// read of it: its bytes, as many as one past the most that is loaded, or why
/// it could not be read.
///
/// # Errors
///
/// Returns an error if the file is not referenced by the analysis, is too
/// large, or cannot be read.
pub fn source(allowed: &Sources, file: &str, read: Result<Vec<u8>, String>) -> (r: Result<
    serde_json::Value,
    String,
>)
    ensures
        match r {
            Ok(doc) => denied(allowed@.contains(file@), file@, read) is None && json::meaning(doc)
                == source_doc(file@, vstd::utf8::decode_utf8(read->Ok_0@)),
            Err(message) => denied(allowed@.contains(file@), file@, read) == Some(message@),
        },
{
    let mut message = "`".to_owned();
    message.append(file);
    if !allowed.contains(file) {
        message.append("` is not referenced by this analysis");
        return Err(message);
    }
    let raw = match read {
        Ok(raw) => raw,
        Err(cause) => {
            let mut message = "could not read ".to_owned();
            message.append(file);
            message.append(": ");
            message.append(cause.as_str());
            return Err(message);
        },
    };
    if raw.len() > MAX_SOURCE_BYTES {
        message.append("` is larger than this view will load");
        return Err(message);
    }
    match bytes::utf8(raw) {
        Ok(contents) => {
            let mut doc = json::object();
            json::put(&mut doc, "file", json::words(file));
            json::put(&mut doc, "text", json::string(contents));
            Ok(doc)
        },
        Err(cause) => {
            message.append("` is not valid utf-8: ");
            message.append(cause.as_str());
            Err(message)
        },
    }
}

proof fn cutting_goes_on(a: Seq<char>, rest: Seq<char>, depth: int, current: Seq<char>)
    requires
        !a.contains('<'),
        !a.contains('>'),
        depth == 0 ==> !a.contains(':'),
    ensures
        cut(a + rest, depth, current) == cut(rest, depth, current + a),
    decreases a.len(),
{
    if a.len() == 0 {
        assert(a + rest =~= rest);
        assert(current + a =~= current);
    } else {
        let tail = a.skip(1);
        assert(a.contains(a[0]));
        assert forall|i: int| 0 <= i < tail.len() implies tail[i] != '<' && tail[i] != '>' && (depth
            == 0 ==> tail[i] != ':') by {
            assert(a.contains(a[i + 1]));
        }
        assert((a + rest).skip(1) =~= tail + rest);
        cutting_goes_on(tail, rest, depth, current.push(a[0]));
        assert(current.push(a[0]) + tail =~= current + a);
    }
}

/// A path is cut at a separator that stands outside angle brackets, and at no
/// separator inside them: what stands before it, with what it is instantiated
/// at, is one piece, and the rest is cut as a path of its own.
pub proof fn a_path_is_cut_outside_brackets(name: Seq<char>, inner: Seq<char>, rest: Seq<char>)
    requires
        name.len() > 0,
        !name.contains('<'),
        !name.contains('>'),
        !name.contains(':'),
        !inner.contains('<'),
        !inner.contains('>'),
        rest.len() > 0,
        rest[0] != ':',
        cut(rest, 0, Seq::empty()).len() > 0,
    ensures
        segments(name) == seq![name],
        segments(name + seq![':', ':'] + rest) == seq![name] + segments(rest),
        segments(name + seq!['<'] + inner + seq!['>']) == seq![
            name + seq!['<'] + inner + seq!['>'],
        ],
        segments(name + seq!['<'] + inner + seq!['>'] + seq![':', ':'] + rest) == seq![
            name + seq!['<'] + inner + seq!['>'],
        ] + segments(rest),
{
    let none = Seq::<char>::empty();
    let two = seq![':', ':'];
    let whole = name + seq!['<'] + inner + seq!['>'];
    cutting_goes_on(name, none, 0, none);
    assert(name + none =~= name);
    assert(none + name =~= name);
    cutting_goes_on(name, two + rest, 0, none);
    assert(name + two + rest =~= name + (two + rest));
    assert((two + rest).skip(2) =~= rest);
    bracketing_goes_on(name, inner, none);
    assert(whole + none =~= whole);
    bracketing_goes_on(name, inner, two + rest);
    assert(whole + two + rest =~= whole + (two + rest));
    assert(cut(none, 0, whole) == seq![whole]);
    assert(cut(two + rest, 0, whole) == seq![whole] + cut(rest, 0, none));
    assert(cut(two + rest, 0, name) == seq![name] + cut(rest, 0, none));
}

proof fn bracketing_goes_on(name: Seq<char>, inner: Seq<char>, rest: Seq<char>)
    requires
        !name.contains('<'),
        !name.contains('>'),
        !name.contains(':'),
        !inner.contains('<'),
        !inner.contains('>'),
    ensures
        ({
            let whole = name + seq!['<'] + inner + seq!['>'];
            cut(whole + rest, 0, Seq::empty()) == cut(rest, 0, whole)
        }),
{
    let none = Seq::<char>::empty();
    let whole = name + seq!['<'] + inner + seq!['>'];
    let shut = seq!['>'] + rest;
    let open = seq!['<'] + (inner + shut);
    assert(whole + rest =~= name + open);
    cutting_goes_on(name, open, 0, none);
    assert(none + name =~= name);
    assert(open.skip(1) =~= inner + shut);
    cutting_goes_on(inner, shut, 1, name.push('<'));
    assert(shut.skip(1) =~= rest);
    assert((name.push('<') + inner).push('>') =~= whole);
}

/// How many functions a category alone keeps reported is the same count from
/// either side: with the category assumed impossible and the other states it
/// would have otherwise, and the other way round.
pub proof fn clearing_is_the_same_from_either_side(
    bodies: Seq<BodyView>,
    suppressed: Set<Category>,
    states: Seq<StateView>,
    other: Seq<StateView>,
    c: Category,
)
    ensures
        turned(turned(suppressed, c), c) == suppressed,
        effect_doc(bodies, suppressed, states, other, c).member("functions_cleared"@) is Some,
        effect_doc(bodies, suppressed, states, other, c).member("functions_cleared"@)
            == effect_doc(bodies, turned(suppressed, c), other, states, c).member(
            "functions_cleared"@,
        ),
        effect_doc(bodies, suppressed, states, other, c).member("functions_reaching"@) is Some,
        effect_doc(bodies, suppressed, states, other, c).member("functions_reaching"@)
            == effect_doc(bodies, turned(suppressed, c), other, states, c).member(
            "functions_reaching"@,
        ),
        effect_doc(bodies, suppressed, states, other, c).member("suppressed"@) != effect_doc(
            bodies,
            turned(suppressed, c),
            other,
            states,
            c,
        ).member("suppressed"@),
{
    assert(turned(turned(suppressed, c), c) =~= suppressed);
    reveal_strlit("functions_cleared");
    reveal_strlit("functions_reaching");
    reveal_strlit("suppressed");
    assert("functions_cleared"@.len() == 17);
    assert("functions_reaching"@.len() == 18);
    assert("suppressed"@.len() == 10);
}

/// A file is handed out only where the analysis names it, and where it does
/// the whole of it is, if it can be read, is no larger than is loaded and is
/// text.
pub proof fn only_what_is_named_is_handed_out(
    bodies: Seq<BodyView>,
    file: Seq<char>,
    bytes: Vec<u8>,
)
    ensures
        denied(referenced(bodies, file, bodies.len() as int), file, Ok(bytes)) is None <==> (exists|
            i: int,
        |
            0 <= i < bodies.len() && refers(#[trigger] bodies[i], file)) && bytes@.len()
            <= 4194304 && vstd::utf8::valid_utf8(bytes@),
{
}

} // verus!
