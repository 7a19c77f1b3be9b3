//! Which functions a rendering names, and under what names.
//!
//! Every rendering of the analysis, the report, the check and the drawing,
//! answers the same question about each function: does it show, and under
//! what name? The answer depends on the policy flags, and it has to be the
//! same everywhere, or a function reported under one name would be drawn
//! under another, or drawn where the report leaves it out. So the rules
//! live here, once.

use vstd::prelude::*;

use crate::args;
use crate::args::{Args, Closures, Generics};
use crate::category::{Category, CategorySet};
use crate::graph;
use crate::graph::{FuncId, Graph};
use crate::model;
use crate::model::{Body, BodyView};
use crate::solve::Solution;
use crate::table::Groups;
use crate::text;

verus! {

/// Which functions show, and under what names.
#[derive(Debug, Clone, Copy)]
pub struct Selection {
    /// Functions from dependencies as well as the local crate.
    pub all_crates: bool,
    /// How closures are named.
    pub closures: Closures,
    /// How generic functions report.
    pub generics: Generics,
    /// When set, the only categories shown.
    pub only: Option<CategorySet>,
}

impl Default for Selection {
    /// The local crate, closures as their own functions, generic functions
    /// as written, and every category.
    fn default() -> (r: Selection)
        ensures
            !r.all_crates,
            r.closures is Separate,
            r.generics is Written,
            r.only is None,
    {
        Selection {
            all_crates: false,
            closures: Closures::Separate,
            generics: Generics::Written,
            only: None,
        }
    }
}

/// The name a function shows under.
pub open spec fn shown_name(closures: Closures, display: Seq<char>) -> Seq<char> {
    if closures is Parent && text::holds(display, "::{closure"@) {
        display.take(text::first_at(display, "::{closure"@))
    } else {
        display
    }
}

/// The categories of a function that show.
pub open spec fn shown_of(only: Option<CategorySet>, enabled: Set<Category>) -> Set<Category> {
    match only {
        Some(set) => enabled.intersect(set@),
        None => enabled,
    }
}

impl Selection {
    /// The crate and the name a body shows under.
    pub open spec fn label(self, body: BodyView) -> (Seq<char>, Seq<char>) {
        (body.krate, shown_name(self.closures, body.display))
    }

    /// Whether a body is read at all.
    pub open spec fn admitted(self, body: BodyView) -> bool {
        !body.opaque && (self.all_crates || body.local)
    }

    /// Whether a body is read and shows under a label.
    pub open spec fn carries(
        self,
        bodies: Seq<BodyView>,
        i: int,
        label: (Seq<char>, Seq<char>),
    ) -> bool {
        0 <= i < bodies.len() && self.admitted(bodies[i]) && self.label(bodies[i]) == label
    }

    /// Whether the crate's own build carries a label, rather than only a test
    /// target.
    pub open spec fn owned(self, bodies: Seq<BodyView>, label: (Seq<char>, Seq<char>)) -> bool {
        exists|i: int| #[trigger] self.carries(bodies, i, label) && !bodies[i].from_tests
    }

    /// Whether an instantiation carries a label, rather than only the body as
    /// written.
    pub open spec fn instantiated(
        self,
        bodies: Seq<BodyView>,
        label: (Seq<char>, Seq<char>),
    ) -> bool {
        exists|i: int| #[trigger]
            self.carries(bodies, i, label) && !model::open_key(bodies[i].key)
    }

    /// Whether a body shows.
    ///
    /// A name only a test carries is a test, and shows nowhere. Under
    /// instantiated generics the body as written yields to the instantiations
    /// wherever there are any.
    pub open spec fn shows(self, bodies: Seq<BodyView>, i: int) -> bool {
        let label = self.label(bodies[i]);
        &&& self.admitted(bodies[i])
        &&& self.owned(bodies, label)
        &&& !(self.generics is Instantiated && self.instantiated(bodies, label) && model::open_key(
            bodies[i].key,
        ))
    }

    /// The selection that settings describe.
    pub open spec fn spec_of(args: Args) -> Selection {
        Selection {
            all_crates: args.all_crates,
            closures: args.closures,
            generics: args.generics,
            only: args.only,
        }
    }

    /// The selection that settings describe.
    pub fn of(args: &Args) -> (r: Selection)
        ensures
            r == Selection::spec_of(*args),
    {
        Selection {
            all_crates: args.all_crates,
            closures: args.closures,
            generics: args.generics,
            only: args.only,
        }
    }

    /// The name a body shows under.
    ///
    /// A closure is not an addressable function of the crate's own
    /// interface, so the parent view folds it into the function it is
    /// written in. The separate view stays the default because it is the
    /// precise one: a panic contained by a catch belongs to the closure,
    /// not to its caller.
    pub fn name<'a>(&self, body: &'a Body) -> (r: &'a str)
        ensures
            r@ == shown_name(self.closures, body@.display),
    {
        let display = body.display.as_str();
        match self.closures {
            Closures::Separate => display,
            Closures::Parent => match text::find(display, "::{closure") {
                Some(at) => {
                    proof {
                        text::first_at_is(display@, "::{closure"@, at as int);
                    }
                    display.substring_char(0, at)
                },
                None => display,
            },
        }
    }

    /// The categories of a function that show.
    pub fn shown(&self, enabled: CategorySet) -> (r: CategorySet)
        ensures
            r@ == shown_of(self.only, enabled@),
    {
        match self.only {
            Some(only) => enabled.intersection(only),
            None => enabled,
        }
    }

    /// Whether a body is read at all: it has one, and it is of the crates
    /// asked for.
    pub fn admits(&self, body: &Body) -> (r: bool)
        ensures
            r == self.admitted(body@),
    {
        !body.opaque && (self.all_crates || body.local)
    }

    /// Every function that shows, in the graph's order.
    ///
    /// Bodies sharing a name are one function: a generic function is read
    /// as written and once per instantiation, and a test target adds
    /// instantiations under the crate's own names. A name only a test
    /// carries is a test, and shows nowhere. Under instantiated generics
    /// the body as written yields to the instantiations wherever there are
    /// any, so what shows is what the build's own uses of the function do.
    pub fn functions(&self, graph: &Graph) -> (r: Vec<FuncId>)
        ensures
            r@ == graph::ids_where(
                graph@.bodies.len() as int,
                |i: int| self.shows(graph@.bodies, i),
            ),
    {
        let n = graph.len();
        let ghost bodies = graph@.bodies;
        let mut groups = Groups::new();
        let mut known: Vec<Named> = Vec::new();
        let mut i: usize = 0;
        while i < n
            invariant
                i <= n == bodies.len() <= u32::MAX,
                bodies == graph@.bodies,
                groups@.len() == known@.len() <= i,
                self.tells(bodies, i as int, groups@, known@),
            decreases n - i,
        {
            let body = graph.body(FuncId::from_index(i));
            let ghost label = self.label(body@);
            if self.admits(body) {
                let ghost was = groups@;
                let ghost had = known@;
                let (more, at) = groups.enter(body.krate.as_str(), self.name(body));
                groups = more;
                if at == known.len() {
                    known.push(Named { owned: false, instantiated: false });
                }
                let mut named = known[at];
                if !body.from_tests {
                    named.owned = true;
                }
                if !body.key.is_open() {
                    named.instantiated = true;
                }
                known[at] = named;
                proof {
                    self.tells_one_more(bodies, i as int, was, had, groups@, known@, at as int);
                }
            } else {
                proof {
                    self.tells_the_same(bodies, i as int, groups@, known@);
                }
            }
            i += 1;
        }
        let mut out: Vec<FuncId> = Vec::new();
        let mut k: usize = 0;
        let ghost p = |i: int| self.shows(bodies, i);
        while k < n
            invariant
                k <= n == bodies.len() <= u32::MAX,
                bodies == graph@.bodies,
                p == (|i: int| self.shows(bodies, i)),
                groups@.len() == known@.len(),
                self.tells(bodies, n as int, groups@, known@),
                out@ == graph::ids_where(k as int, p),
            decreases n - k,
        {
            let id = FuncId::from_index(k);
            let body = graph.body(id);
            let keep = self.admits(body) && match groups.find(
                body.krate.as_str(),
                self.name(body),
            ) {
                Some(at) => {
                    let named = known[at];
                    proof {
                        self.told(bodies, groups@, known@, at as int);
                    }
                    self.keeps(body, named)
                },
                None => {
                    proof {
                        if self.admitted(bodies[k as int]) {
                            assert(self.carries(bodies, k as int, self.label(bodies[k as int])));
                        }
                    }
                    false
                },
            };
            assert(keep == p(k as int));
            if keep {
                out.push(id);
            }
            k += 1;
        }
        out
    }

    /// Whether one body of a name shows, given what is known of the name.
    fn keeps(&self, body: &Body, known: Named) -> (r: bool)
        ensures
            r == (known.owned && !(self.generics is Instantiated && known.instantiated
                && model::open_key(body@.key))),
    {
        let yields = self.generics == Generics::Instantiated && known.instantiated
            && body.key.is_open();
        known.owned && !yields
    }

    /// Whether what is known of each name is what the first `n` bodies say.
    spec fn tells(
        self,
        bodies: Seq<BodyView>,
        n: int,
        labels: Seq<(Seq<char>, Seq<char>)>,
        known: Seq<Named>,
    ) -> bool {
        &&& labels.len() == known.len()
        &&& forall|i: int|
            #![trigger bodies[i]]
            0 <= i < n && self.admitted(bodies[i]) ==> labels.contains(self.label(bodies[i]))
        &&& forall|g: int|
            0 <= g < labels.len() ==> ((#[trigger] known[g]).owned <==> exists|i: int|
                0 <= i < n && #[trigger] self.carries(bodies, i, labels[g])
                    && !bodies[i].from_tests)
        &&& forall|g: int|
            0 <= g < labels.len() ==> ((#[trigger] known[g]).instantiated <==> exists|i: int|
                0 <= i < n && #[trigger] self.carries(bodies, i, labels[g]) && !model::open_key(
                    bodies[i].key,
                ))
    }

    proof fn tells_the_same(
        self,
        bodies: Seq<BodyView>,
        n: int,
        labels: Seq<(Seq<char>, Seq<char>)>,
        known: Seq<Named>,
    )
        requires
            self.tells(bodies, n, labels, known),
            !self.admitted(bodies[n]),
        ensures
            self.tells(bodies, n + 1, labels, known),
    {
        assert forall|g: int| 0 <= g < labels.len() implies ((#[trigger] known[g]).owned <==> exists|
            i: int,
        |
            0 <= i < n + 1 && #[trigger] self.carries(bodies, i, labels[g]) && !bodies[i].from_tests) by {
            if exists|i: int|
                0 <= i < n + 1 && #[trigger] self.carries(bodies, i, labels[g])
                    && !bodies[i].from_tests {
                let i = choose|i: int|
                    0 <= i < n + 1 && #[trigger] self.carries(bodies, i, labels[g])
                        && !bodies[i].from_tests;
                assert(0 <= i < n && self.carries(bodies, i, labels[g]));
            }
        }
        assert forall|g: int| 0 <= g < labels.len() implies ((
        #[trigger] known[g]).instantiated <==> exists|i: int|
            0 <= i < n + 1 && #[trigger] self.carries(bodies, i, labels[g]) && !model::open_key(
                bodies[i].key,
            )) by {
            if exists|i: int|
                0 <= i < n + 1 && #[trigger] self.carries(bodies, i, labels[g])
                    && !model::open_key(bodies[i].key) {
                let i = choose|i: int|
                    0 <= i < n + 1 && #[trigger] self.carries(bodies, i, labels[g])
                        && !model::open_key(bodies[i].key);
                assert(0 <= i < n && self.carries(bodies, i, labels[g]));
            }
        }
    }

    proof fn tells_one_more(
        self,
        bodies: Seq<BodyView>,
        n: int,
        was: Seq<(Seq<char>, Seq<char>)>,
        had: Seq<Named>,
        labels: Seq<(Seq<char>, Seq<char>)>,
        known: Seq<Named>,
        at: int,
    )
        requires
            0 <= n < bodies.len(),
            self.admitted(bodies[n]),
            self.tells(bodies, n, was, had),
            0 <= at < labels.len() == known.len(),
            labels[at] == self.label(bodies[n]),
            was.no_duplicates(),
            labels == was || (labels == was.push(self.label(bodies[n])) && at == was.len()
                && !was.contains(self.label(bodies[n]))),
            forall|g: int| 0 <= g < labels.len() && g != at ==> #[trigger] known[g] == had[g],
            known[at].owned == ((at < had.len() && had[at].owned) || !bodies[n].from_tests),
            known[at].instantiated == ((at < had.len() && had[at].instantiated)
                || !model::open_key(bodies[n].key)),
        ensures
            self.tells(bodies, n + 1, labels, known),
    {
        let label = self.label(bodies[n]);
        assert(self.carries(bodies, n, label));
        assert forall|i: int|
            #![trigger bodies[i]]
            0 <= i < n + 1 && self.admitted(bodies[i]) implies labels.contains(
            self.label(bodies[i]),
        ) by {
            if i < n {
                let l = self.label(bodies[i]);
                let k = choose|k: int| 0 <= k < was.len() && was[k] == l;
                assert(labels[k] == l);
            } else {
                assert(labels[at] == label);
            }
        }
        assert forall|g: int| 0 <= g < labels.len() implies ((#[trigger] known[g]).owned <==> exists|
            i: int,
        |
            0 <= i < n + 1 && #[trigger] self.carries(bodies, i, labels[g]) && !bodies[i].from_tests)
            && (known[g].instantiated <==> exists|i: int|
            0 <= i < n + 1 && #[trigger] self.carries(bodies, i, labels[g]) && !model::open_key(
                bodies[i].key,
            )) by {
            if g < was.len() {
                assert(labels[g] == was[g]);
                if g != at {
                    assert(labels[g] != label) by {
                        if labels == was {
                            assert(was[g] != was[at]);
                        } else {
                            assert(was.contains(was[g]));
                        }
                    }
                }
                assert(had[g].owned <==> exists|i: int|
                    0 <= i < n && #[trigger] self.carries(bodies, i, was[g])
                        && !bodies[i].from_tests);
                assert(had[g].instantiated <==> exists|i: int|
                    0 <= i < n && #[trigger] self.carries(bodies, i, was[g]) && !model::open_key(
                        bodies[i].key,
                    ));
                if had[g].owned {
                    let i = choose|i: int|
                        0 <= i < n && #[trigger] self.carries(bodies, i, was[g])
                            && !bodies[i].from_tests;
                    assert(self.carries(bodies, i, labels[g]));
                }
                if had[g].instantiated {
                    let i = choose|i: int|
                        0 <= i < n && #[trigger] self.carries(bodies, i, was[g])
                            && !model::open_key(bodies[i].key);
                    assert(self.carries(bodies, i, labels[g]));
                }
            } else {
                assert forall|i: int| 0 <= i < n implies !#[trigger] self.carries(
                    bodies,
                    i,
                    labels[g],
                ) by {
                    if self.carries(bodies, i, labels[g]) {
                        assert(was.contains(self.label(bodies[i])));
                    }
                }
            }
        }
    }

    proof fn told(
        self,
        bodies: Seq<BodyView>,
        labels: Seq<(Seq<char>, Seq<char>)>,
        known: Seq<Named>,
        g: int,
    )
        requires
            self.tells(bodies, bodies.len() as int, labels, known),
            0 <= g < labels.len(),
        ensures
            known[g].owned == self.owned(bodies, labels[g]),
            known[g].instantiated == self.instantiated(bodies, labels[g]),
    {
        let n = bodies.len() as int;
        if self.owned(bodies, labels[g]) {
            let i = choose|i: int| #[trigger]
                self.carries(bodies, i, labels[g]) && !bodies[i].from_tests;
            assert(0 <= i < n && self.carries(bodies, i, labels[g]));
        }
        if self.instantiated(bodies, labels[g]) {
            let i = choose|i: int| #[trigger]
                self.carries(bodies, i, labels[g]) && !model::open_key(bodies[i].key);
            assert(0 <= i < n && self.carries(bodies, i, labels[g]));
        }
    }
}

/// What one shown function raises across its bodies.
#[derive(Debug)]
pub struct Raised {
    /// The crate the function is defined in.
    pub krate: String,
    /// The name it shows under.
    pub name: String,
    /// What its bodies raise together.
    pub categories: CategorySet,
}

/// What is not a given function.
pub open spec fn apart_from(id: FuncId) -> spec_fn(FuncId) -> bool {
    |other: FuncId| other != id
}

/// A list with one of its members moved to the front.
pub open spec fn with_first(ids: Seq<FuncId>, id: FuncId) -> Seq<FuncId> {
    if ids.contains(id) {
        seq![id] + ids.filter(apart_from(id))
    } else {
        ids
    }
}

impl Selection {
    /// The labels of a list of functions, in the order in which they are
    /// first seen.
    pub open spec fn labels(self, bodies: Seq<BodyView>, ids: Seq<FuncId>) -> Seq<
        (Seq<char>, Seq<char>),
    >
        decreases ids.len(),
    {
        if ids.len() == 0 {
            Seq::empty()
        } else {
            let rest = self.labels(bodies, ids.drop_last());
            let label = self.label(bodies[ids.last().0 as int]);
            if rest.contains(label) {
                rest
            } else {
                rest.push(label)
            }
        }
    }

    /// Whether a body of a list of functions raises a category under a label.
    pub open spec fn raises_under(
        self,
        bodies: Seq<BodyView>,
        raised: Seq<Set<Category>>,
        ids: Seq<FuncId>,
        label: (Seq<char>, Seq<char>),
        c: Category,
    ) -> bool {
        exists|k: int|
            0 <= k < ids.len() && self.label(bodies[(#[trigger] ids[k]).0 as int]) == label
                && shown_of(self.only, raised[ids[k].0 as int]).contains(c)
    }

    /// What each function raises under a solution.
    pub open spec fn enabled_of(solution: Solution) -> Seq<Set<Category>> {
        Seq::new(solution.states().len(), |i: int| solution.states()[i].enabled)
    }

    /// The functions that show, in order.
    pub open spec fn shown_ids(self, bodies: Seq<BodyView>) -> Seq<FuncId> {
        graph::ids_where(bodies.len() as int, |i: int| self.shows(bodies, i))
    }

    /// What each shown function raises across its bodies, by crate and name,
    /// so a total counts functions the way the report does.
    pub fn raised(&self, graph: &Graph, solution: &Solution) -> (r: Vec<Raised>)
        requires
            solution.states().len() == graph@.bodies.len(),
        ensures
            ({
                let ids = self.shown_ids(graph@.bodies);
                let labels = self.labels(graph@.bodies, ids);
                &&& r@.len() == labels.len()
                &&& forall|g: int|
                    0 <= g < labels.len() ==> {
                        &&& ((#[trigger] r@[g]).krate@, r@[g].name@) == labels[g]
                        &&& forall|c: Category|
                            r@[g].categories@.contains(c) <==> self.raises_under(
                                graph@.bodies,
                                Selection::enabled_of(*solution),
                                ids,
                                labels[g],
                                c,
                            )
                    }
            }),
    {
        let ghost bodies = graph@.bodies;
        let ghost enabled = Selection::enabled_of(*solution);
        let functions = self.functions(graph);
        let ghost ids = functions@;
        assert(ids == self.shown_ids(bodies));
        let n = graph.len();
        proof {
            graph::ids_are_listed(bodies.len() as int, |i: int| self.shows(bodies, i));
        }
        let mut groups = Groups::new();
        let mut out: Vec<Raised> = Vec::new();
        let mut i: usize = 0;
        assert(self.labels(bodies, ids.take(0)) =~= Seq::empty());
        while i < functions.len()
            invariant
                i <= functions@.len(),
                ids == functions@,
                bodies == graph@.bodies,
                n == bodies.len() <= u32::MAX,
                enabled == Selection::enabled_of(*solution),
                solution.states().len() == bodies.len(),
                forall|k: int| 0 <= k < ids.len() ==> (#[trigger] ids[k]).0 < bodies.len(),
                groups@ == self.labels(bodies, ids.take(i as int)),
                out@.len() == groups@.len() <= i,
                forall|g: int|
                    0 <= g < out@.len() ==> {
                        &&& ((#[trigger] out@[g]).krate@, out@[g].name@) == groups@[g]
                        &&& forall|c: Category|
                            out@[g].categories@.contains(c) <==> self.raises_under(
                                bodies,
                                enabled,
                                ids.take(i as int),
                                groups@[g],
                                c,
                            )
                    },
            decreases functions.len() - i,
        {
            let id = functions[i];
            assert(ids[i as int].0 < bodies.len());
            let body = graph.body(id);
            let ghost was = groups@;
            let ghost had = out@;
            let name = self.name(body);
            let (more, at) = groups.enter(body.krate.as_str(), name);
            groups = more;
            let ghost label = self.label(body@);
            proof {
                assert(ids.take(i + 1).drop_last() =~= ids.take(i as int));
                assert(ids.take(i + 1).last() == id);
            }
            let more = self.shown(solution.enabled(id));
            if at == out.len() {
                out.push(
                    Raised {
                        krate: body.krate.clone(),
                        name: name.to_owned(),
                        categories: CategorySet::empty(),
                    },
                );
            }
            let held = out[at].categories.union(more);
            out[at].categories = held;
            proof {
                assert forall|g: int| 0 <= g < out@.len() implies {
                    &&& ((#[trigger] out@[g]).krate@, out@[g].name@) == groups@[g]
                    &&& forall|c: Category|
                        out@[g].categories@.contains(c) <==> self.raises_under(
                            bodies,
                            enabled,
                            ids.take(i + 1),
                            groups@[g],
                            c,
                        )
                } by {
                    let front = ids.take(i as int);
                    let now = ids.take(i + 1);
                    assert forall|c: Category|
                        out@[g].categories@.contains(c) <==> self.raises_under(
                            bodies,
                            enabled,
                            now,
                            groups@[g],
                            c,
                        ) by {
                        if self.raises_under(bodies, enabled, front, groups@[g], c) {
                            let k = choose|k: int|
                                0 <= k < front.len() && self.label(
                                    bodies[(#[trigger] front[k]).0 as int],
                                ) == groups@[g] && shown_of(
                                    self.only,
                                    enabled[front[k].0 as int],
                                ).contains(c);
                            assert(now[k] == front[k]);
                        }
                        if self.raises_under(bodies, enabled, now, groups@[g], c) {
                            let k = choose|k: int|
                                0 <= k < now.len() && self.label(
                                    bodies[(#[trigger] now[k]).0 as int],
                                ) == groups@[g] && shown_of(
                                    self.only,
                                    enabled[now[k].0 as int],
                                ).contains(c);
                            if k < i {
                                assert(front[k] == now[k]);
                            }
                        }
                        assert(now[i as int] == id);
                        if g < was.len() {
                            assert(had[g].categories@.contains(c) <==> self.raises_under(
                                bodies,
                                enabled,
                                front,
                                was[g],
                                c,
                            ));
                            if g != at && groups@[g] == label {
                                assert(groups@[at as int] == label);
                                assert(false);
                            }
                        } else {
                            assert forall|k: int| 0 <= k < front.len() implies self.label(
                                bodies[(#[trigger] front[k]).0 as int],
                            ) != label by {
                                self.labels_hold(bodies, front, k);
                            }
                        }
                    }
                }
            }
            i += 1;
        }
        assert(ids.take(i as int) =~= ids);
        out
    }

    proof fn labels_hold(self, bodies: Seq<BodyView>, ids: Seq<FuncId>, k: int)
        requires
            0 <= k < ids.len(),
        ensures
            self.labels(bodies, ids).contains(self.label(bodies[ids[k].0 as int])),
        decreases ids.len(),
    {
        let rest = self.labels(bodies, ids.drop_last());
        let all = self.labels(bodies, ids);
        let label = self.label(bodies[ids[k].0 as int]);
        if k < ids.len() - 1 {
            self.labels_hold(bodies, ids.drop_last(), k);
            let g = choose|g: int| 0 <= g < rest.len() && rest[g] == label;
            assert(all[g] == label);
        } else if !rest.contains(label) {
            assert(all[rest.len() as int] == label);
        }
    }

    /// The bodies that show under the same label as a function.
    pub open spec fn shown_as(self, bodies: Seq<BodyView>, id: FuncId) -> Seq<FuncId> {
        graph::ids_where(
            bodies.len() as int,
            |i: int|
                self.shows(bodies, i) && self.label(bodies[i]) == self.label(bodies[id.0 as int]),
        )
    }

    /// The bodies that answer for the same label as a function.
    pub open spec fn known_as(self, bodies: Seq<BodyView>, id: FuncId) -> Seq<FuncId> {
        if self.shown_as(bodies, id).len() > 0 {
            self.shown_as(bodies, id)
        } else {
            graph::ids_where(
                bodies.len() as int,
                |i: int| self.label(bodies[i]) == self.label(bodies[id.0 as int]),
            )
        }
    }

    /// Whether two bodies show under one label.
    fn alike(&self, a: &Body, b: &Body) -> (r: bool)
        ensures
            r == (self.label(a@) == self.label(b@)),
    {
        text::same(a.krate.as_str(), b.krate.as_str()) && text::same(self.name(a), self.name(b))
    }

    /// The bodies reported under the same name as `id`, with `id` first.
    ///
    /// The report merges a generic function's written body with its
    /// instantiations, and under `--closures parent` a function with its
    /// closures. A body the selection does not show matches every body of
    /// its name in the graph.
    pub fn namesakes(&self, graph: &Graph, id: FuncId) -> (r: Vec<FuncId>)
        requires
            id.0 < graph@.bodies.len(),
        ensures
            r@ == with_first(self.known_as(graph@.bodies, id), id),
            r@.len() > 0,
            forall|k: int| 0 <= k < r@.len() ==> (#[trigger] r@[k]).0 < graph@.bodies.len(),
    {
        let ghost bodies = graph@.bodies;
        let n = graph.len();
        let body = graph.body(id);
        let ghost q = |i: int| self.label(bodies[i]) == self.label(bodies[id.0 as int]);
        let ghost p = |i: int| self.shows(bodies, i);
        let functions = self.functions(graph);
        proof {
            graph::ids_are_listed(n as int, p);
        }
        let mut ids: Vec<FuncId> = Vec::new();
        let mut i: usize = 0;
        assert(functions@.take(0) =~= Seq::empty());
        while i < functions.len()
            invariant
                i <= functions@.len(),
                bodies == graph@.bodies,
                body@ == bodies[id.0 as int],
                q == (|i: int| self.label(bodies[i]) == self.label(bodies[id.0 as int])),
                forall|k: int|
                    0 <= k < functions@.len() ==> (#[trigger] functions@[k]).0 < bodies.len(),
                ids@ == functions@.take(i as int).filter(|id: FuncId| q(id.0 as int)),
            decreases functions.len() - i,
        {
            proof {
                crate::lists::filtered_step(
                    functions@,
                    |id: FuncId| q(id.0 as int),
                    i as int,
                );
            }
            let other = functions[i];
            assert(functions@[i as int].0 < bodies.len());
            if self.alike(graph.body(other), body) {
                ids.push(other);
            }
            i += 1;
        }
        proof {
            assert(functions@.take(i as int) =~= functions@);
            graph::ids_filtered(n as int, p, q);
            assert((|i: int| p(i) && q(i)) =~= (|i: int|
                self.shows(bodies, i) && self.label(bodies[i]) == self.label(
                    bodies[id.0 as int],
                )));
        }
        if ids.len() == 0 {
            let mut k: usize = 0;
            while k < n
                invariant
                    k <= n == bodies.len() <= u32::MAX,
                    bodies == graph@.bodies,
                    body@ == bodies[id.0 as int],
                    q == (|i: int| self.label(bodies[i]) == self.label(bodies[id.0 as int])),
                    ids@ == graph::ids_where(k as int, q),
                decreases n - k,
            {
                let other = FuncId::from_index(k);
                if self.alike(graph.body(other), body) {
                    ids.push(other);
                }
                k += 1;
            }
            proof {
                graph::ids_are_listed(n as int, q);
                assert(q(id.0 as int));
                assert(ids@.contains(FuncId(id.0)));
            }
        } else {
            proof {
                graph::ids_are_listed(n as int, |i: int| p(i) && q(i));
            }
        }
        assert(ids@ == self.known_as(bodies, id));
        assert(forall|k: int| 0 <= k < ids@.len() ==> (#[trigger] ids@[k]).0 < bodies.len());
        first(ids, id)
    }
}

/// A list with one of its members moved to the front.
fn first(ids: Vec<FuncId>, id: FuncId) -> (r: Vec<FuncId>)
    requires
        ids@.no_duplicates(),
    ensures
        r@ == with_first(ids@, id),
        r@.len() == ids@.len(),
        forall|k: int| 0 <= k < r@.len() ==> ids@.contains(#[trigger] r@[k]),
{
    let mut found = false;
    let mut out: Vec<FuncId> = Vec::new();
    out.push(id);
    let mut i: usize = 0;
    let ghost apart = apart_from(id);
    assert(ids@.take(0) =~= Seq::empty());
    assert(out@ =~= seq![id] + ids@.take(0).filter(apart));
    while i < ids.len()
        invariant
            i <= ids@.len(),
            apart == apart_from(id),
            ids@.no_duplicates(),
            found == ids@.take(i as int).contains(id),
            out@ == seq![id] + ids@.take(i as int).filter(apart),
            out@.len() == i + (if found {
                0int
            } else {
                1
            }),
        decreases ids.len() - i,
    {
        proof {
            crate::lists::filtered_step(ids@, apart, i as int);
            let was = ids@.take(i as int);
            let now = ids@.take(i + 1);
            assert(now =~= was.push(ids@[i as int]));
            if was.contains(id) {
                let k = choose|k: int| 0 <= k < was.len() && was[k] == id;
                assert(now[k] == id);
                assert(ids@[k] != ids@[i as int]);
            }
            if ids@[i as int] == id {
                assert(now[i as int] == id);
            }
            if now.contains(id) {
                let k = choose|k: int| 0 <= k < now.len() && now[k] == id;
                if k < i {
                    assert(was[k] == id);
                }
            }
        }
        if ids[i] == id {
            found = true;
        } else {
            let ghost before = out@;
            out.push(ids[i]);
            assert(out@ =~= seq![id] + ids@.take(i + 1).filter(apart));
        }
        i += 1;
    }
    assert(ids@.take(i as int) =~= ids@);
    proof {
        crate::lists::filtered(ids@, apart);
        assert(found ==> with_first(ids@, id) =~= seq![id] + ids@.filter(apart));
        assert forall|k: int| 0 <= k < with_first(ids@, id).len() implies ids@.contains(
            #[trigger] with_first(ids@, id)[k],
        ) by {
            if found && k > 0 {
                let kept = ids@.filter(apart);
                assert(with_first(ids@, id)[k] == kept[k - 1]);
                assert(kept.contains(kept[k - 1]));
            }
        }
    }
    if found {
        out
    } else {
        ids
    }
}

/// What is known of a name once every body carrying it has been seen.
#[derive(Clone, Copy)]
struct Named {
    /// Whether the crate's own build carries the name, rather than only a
    /// test target.
    owned: bool,
    /// Whether an instantiation carries the name, rather than only the
    /// body as written.
    instantiated: bool,
}

/// A name that only tests carry shows nowhere.
pub proof fn a_test_shows_nowhere(selection: Selection, bodies: Seq<BodyView>, i: int)
    requires
        0 <= i < bodies.len(),
        forall|j: int|
            0 <= j < bodies.len() && (#[trigger] bodies[j]).krate == bodies[i].krate && shown_name(
                selection.closures,
                bodies[j].display,
            ) == shown_name(selection.closures, bodies[i].display) ==> bodies[j].from_tests,
    ensures
        !selection.shows(bodies, i),
{
}

/// A body that can be read, of the crate itself and of its own build, shows,
/// unless it is one as written that an instantiation under its name stands in
/// for.
pub proof fn what_the_build_carries_shows(selection: Selection, bodies: Seq<BodyView>, i: int)
    requires
        0 <= i < bodies.len(),
        !bodies[i].opaque,
        bodies[i].local,
        !bodies[i].from_tests,
        selection.generics is Instantiated && model::open_key(bodies[i].key) ==> forall|j: int|
            0 <= j < bodies.len() && (#[trigger] bodies[j]).krate == bodies[i].krate && shown_name(
                selection.closures,
                bodies[j].display,
            ) == shown_name(selection.closures, bodies[i].display) ==> model::open_key(
                bodies[j].key,
            ),
    ensures
        selection.shows(bodies, i),
{
    assert(selection.carries(bodies, i, selection.label(bodies[i])));
}

/// A body as written does not show beside an instantiation of it, where
/// generics are read as instantiated.
pub proof fn a_generic_yields_to_its_instantiations(
    selection: Selection,
    bodies: Seq<BodyView>,
    i: int,
    j: int,
)
    requires
        0 <= i < bodies.len(),
        0 <= j < bodies.len(),
        selection.generics is Instantiated,
        model::open_key(bodies[i].key),
        !model::open_key(bodies[j].key),
        !bodies[j].opaque,
        selection.all_crates || bodies[j].local,
        bodies[j].krate == bodies[i].krate,
        shown_name(selection.closures, bodies[j].display) == shown_name(
            selection.closures,
            bodies[i].display,
        ),
    ensures
        !selection.shows(bodies, i),
{
    assert(selection.carries(bodies, j, selection.label(bodies[i])));
}

/// A body that cannot be read never shows, and one of another crate shows only
/// where all crates are asked for.
pub proof fn what_is_not_asked_for_does_not_show(
    selection: Selection,
    bodies: Seq<BodyView>,
    i: int,
)
    requires
        0 <= i < bodies.len(),
        bodies[i].opaque || (!bodies[i].local && !selection.all_crates),
    ensures
        !selection.shows(bodies, i),
{
}

/// A closure shows under the function it is in where it is asked to, at
/// whatever depth, and under its own name elsewhere.
pub proof fn a_closure_shows_under_its_parent(parent: Seq<char>, rest: Seq<char>)
    requires
        !text::holds(parent + "::{closure"@.drop_last(), "::{closure"@),
    ensures
        shown_name(Closures::Parent, parent + "::{closure"@ + rest) == parent,
        shown_name(Closures::Separate, parent + "::{closure"@ + rest) == parent + "::{closure"@
            + rest,
{
    let mark = "::{closure"@;
    let whole = parent + mark + rest;
    let at = parent.len() as int;
    reveal_strlit("::{closure");
    assert(whole.subrange(at, at + mark.len()) =~= mark);
    let short = parent + mark.drop_last();
    assert forall|k: int| 0 <= k < at implies !text::occurs_at(whole, mark, k) by {
        if text::occurs_at(whole, mark, k) {
            assert(short.subrange(k, k + mark.len()) =~= whole.subrange(k, k + mark.len()));
            assert(text::occurs_at(short, mark, k));
        }
    }
    text::first_at_is(whole, mark, at);
    assert(whole.take(at) =~= parent);
}

/// A category of a function shows exactly where the function raises it and it
/// is one of those asked for.
pub proof fn what_shows_is_raised_and_asked_for(
    only: Option<CategorySet>,
    enabled: Set<Category>,
    c: Category,
)
    ensures
        shown_of(only, enabled).contains(c) <==> enabled.contains(c) && (only matches Some(set)
            ==> set@.contains(c)),
{
}

/// A list with one of its members moved to the front starts with it, holds
/// what it held and nothing else, and holds that member once.
pub proof fn moving_to_the_front_keeps_the_list(ids: Seq<FuncId>, id: FuncId, other: FuncId)
    ensures
        ids.contains(id) ==> with_first(ids, id)[0] == id,
        with_first(ids, id).contains(other) <==> ids.contains(other),
        forall|k: int|
            0 < k < with_first(ids, id).len() && ids.contains(id) ==> #[trigger] with_first(ids, id)[k]
                != id,
{
    crate::lists::filtered(ids, apart_from(id));
    let rest = ids.filter(apart_from(id));
    let now = with_first(ids, id);
    if ids.contains(id) {
        assert(now == seq![id] + rest);
        assert(now[0] == id);
        if other != id && ids.contains(other) {
            let i = choose|i: int| 0 <= i < ids.len() && ids[i] == other;
            assert(apart_from(id)(ids[i]));
            assert(rest.contains(other));
            let j = choose|j: int| 0 <= j < rest.len() && rest[j] == other;
            assert(now[j + 1] == other);
        }
        if now.contains(other) && other != id {
            let j = choose|j: int| 0 <= j < now.len() && now[j] == other;
            assert(rest[j - 1] == other);
            assert(rest.contains(other));
        }
        assert forall|k: int| 0 < k < now.len() implies #[trigger] now[k] != id by {
            assert(rest[k - 1] == now[k]);
            assert(apart_from(id)(rest[k - 1]));
        }
    }
}

} // verus!
