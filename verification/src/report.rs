//! Rendering of analysis results.

use vstd::prelude::*;

use crate::args::{Args, Format, Generics};
use crate::category;
use crate::category::{Category, CategorySet};
use crate::graph;
use crate::graph::{FuncId, Graph};
use crate::json;
use crate::json::Json;
use crate::lists;
use crate::lists::Order;
use crate::model;
use crate::model::{Body, BodyView, ConfigView, LocView};
use crate::select;
use crate::select::Selection;
use crate::solve;
use crate::solve::{Env, Policy, Solution};
use crate::table::Groups;
use crate::text;
use crate::verify;
use crate::verify::{Missed, Verdict, Verdicts};
use crate::witness;
use crate::witness::{Terminal, Witness};

verus! {

/// One reported function.
#[derive(Debug)]
pub struct Finding {
    /// The crate the function is defined in.
    pub krate: String,
    /// The name it reports under.
    pub name: String,
    /// Every node that renders under this name. A generic function has one
    /// per instantiation, and they share a source location, so reporting
    /// them separately would print the same line several times.
    pub ids: Vec<FuncId>,
    /// What it can raise.
    pub categories: CategorySet,
}

/// What a [`Finding`] says.
#[verifier::ext_equal]
pub struct FindingView {
    pub krate: Seq<char>,
    pub name: Seq<char>,
    pub ids: Seq<FuncId>,
    pub categories: Set<Category>,
}

impl View for Finding {
    type V = FindingView;

    open spec fn view(&self) -> FindingView {
        FindingView {
            krate: self.krate@,
            name: self.name@,
            ids: self.ids@,
            categories: self.categories@,
        }
    }
}

/// What a list of findings says.
pub open spec fn finding_views(findings: Seq<Finding>) -> Seq<FindingView> {
    findings.map_values(|f: Finding| f@)
}

/// What the bodies of a label raise, as written or as instantiated.
pub open spec fn raised_by(
    sel: Selection,
    bodies: Seq<BodyView>,
    enabled: Seq<Set<Category>>,
    label: (Seq<char>, Seq<char>),
    written: bool,
) -> Set<Category> {
    Set::new(
        |c: Category|
            exists|i: int| #[trigger]
                sel.carries(bodies, i, label) && model::open_key(bodies[i].key) == written
                    && select::shown_of(sel.only, enabled[i]).contains(c),
    )
}

/// What is reported under a label.
///
/// A generic function is read as written and once per instantiation, and
/// which of those the name reports is the caller's choice: everything, or the
/// instantiations alone where there are any.
pub open spec fn reported(
    sel: Selection,
    bodies: Seq<BodyView>,
    enabled: Seq<Set<Category>>,
    label: (Seq<char>, Seq<char>),
) -> Set<Category> {
    if sel.generics is Instantiated && sel.instantiated(bodies, label) {
        raised_by(sel, bodies, enabled, label, false)
    } else {
        raised_by(sel, bodies, enabled, label, true).union(
            raised_by(sel, bodies, enabled, label, false),
        )
    }
}

/// The bodies of a label, in the graph's order.
pub open spec fn carriers(
    sel: Selection,
    bodies: Seq<BodyView>,
    label: (Seq<char>, Seq<char>),
) -> Seq<FuncId> {
    graph::ids_where(bodies.len() as int, |i: int| sel.carries(bodies, i, label))
}

/// Whether a label is reported: the crate's own build has the function, and it
/// can raise something.
pub open spec fn is_reported(
    sel: Selection,
    bodies: Seq<BodyView>,
    enabled: Seq<Set<Category>>,
    label: (Seq<char>, Seq<char>),
) -> bool {
    sel.owned(bodies, label) && reported(sel, bodies, enabled, label) != Set::<Category>::empty()
}

/// The finding of a label.
pub open spec fn finding_of(
    sel: Selection,
    bodies: Seq<BodyView>,
    enabled: Seq<Set<Category>>,
    label: (Seq<char>, Seq<char>),
) -> FindingView {
    FindingView {
        krate: label.0,
        name: label.1,
        ids: carriers(sel, bodies, label),
        categories: reported(sel, bodies, enabled, label),
    }
}

/// Whether one finding is listed before another: by name, and of two crates by
/// which is seen first.
pub open spec fn listed_before(a: FindingView, b: FindingView) -> bool {
    if a.name != b.name {
        text::comes_before(a.name, b.name)
    } else {
        a.ids[0].0 < b.ids[0].0
    }
}

/// Whether a list is the findings of a graph: one for each label that is
/// reported, in order.
pub open spec fn is_report(
    findings: Seq<FindingView>,
    sel: Selection,
    bodies: Seq<BodyView>,
    enabled: Seq<Set<Category>>,
) -> bool {
    &&& forall|k: int|
        0 <= k < findings.len() ==> {
            let label = ((#[trigger] findings[k]).krate, findings[k].name);
            is_reported(sel, bodies, enabled, label) && findings[k] == finding_of(
                sel,
                bodies,
                enabled,
                label,
            )
        }
    &&& forall|label: (Seq<char>, Seq<char>)| #[trigger]
        is_reported(sel, bodies, enabled, label) ==> findings.contains(
            finding_of(sel, bodies, enabled, label),
        )
    &&& forall|a: int, b: int|
        0 <= a < b < findings.len() ==> listed_before(#[trigger] findings[a], #[trigger] findings[b])
}

/// The report and the drawing agree: what is reported under a name is what the
/// functions that show under it raise.
pub proof fn report_agrees_with_selection(
    sel: Selection,
    bodies: Seq<BodyView>,
    enabled: Seq<Set<Category>>,
    label: (Seq<char>, Seq<char>),
    c: Category,
)
    requires
        bodies.len() <= u32::MAX,
        sel.owned(bodies, label),
    ensures
        reported(sel, bodies, enabled, label).contains(c) <==> sel.raises_under(
            bodies,
            enabled,
            sel.shown_ids(bodies),
            label,
            c,
        ),
{
    let p = |i: int| sel.shows(bodies, i);
    let ids = sel.shown_ids(bodies);
    graph::ids_are_listed(bodies.len() as int, p);
    if sel.raises_under(bodies, enabled, ids, label, c) {
        let k = choose|k: int|
            0 <= k < ids.len() && sel.label(bodies[(#[trigger] ids[k]).0 as int]) == label
                && select::shown_of(sel.only, enabled[ids[k].0 as int]).contains(c);
        let i = ids[k].0 as int;
        assert(p(i));
        assert(sel.carries(bodies, i, label));
    }
    if reported(sel, bodies, enabled, label).contains(c) {
        let from = |i: int|
            sel.carries(bodies, i, label) && select::shown_of(sel.only, enabled[i]).contains(c)
                && !(sel.generics is Instantiated && sel.instantiated(bodies, label)
                && model::open_key(bodies[i].key));
        assert(exists|i: int| #[trigger] from(i)) by {
            if raised_by(sel, bodies, enabled, label, false).contains(c) {
                let i = choose|i: int| #[trigger]
                    sel.carries(bodies, i, label) && model::open_key(bodies[i].key) == false
                        && select::shown_of(sel.only, enabled[i]).contains(c);
                assert(from(i));
            } else {
                let i = choose|i: int| #[trigger]
                    sel.carries(bodies, i, label) && model::open_key(bodies[i].key) == true
                        && select::shown_of(sel.only, enabled[i]).contains(c);
                assert(from(i));
            }
        }
        let i = choose|i: int| #[trigger] from(i);
        assert(sel.shows(bodies, i));
        assert(p(i));
        assert(ids.contains(FuncId(i as u32)));
        let k = choose|k: int| 0 <= k < ids.len() && ids[k] == FuncId(i as u32);
        assert(ids[k].0 == i);
    }
}

/// A function being put together out of its bodies.
struct Draft {
    finding: Finding,
    written: CategorySet,
    instantiated: Option<CategorySet>,
    owned: bool,
}

/// What the first `n` bodies of a label raise, as written or as instantiated.
spec fn raised_so_far(
    sel: Selection,
    bodies: Seq<BodyView>,
    enabled: Seq<Set<Category>>,
    label: (Seq<char>, Seq<char>),
    written: bool,
    n: int,
) -> Set<Category> {
    Set::new(
        |c: Category|
            exists|i: int|
                0 <= i < n && #[trigger] sel.carries(bodies, i, label) && model::open_key(
                    bodies[i].key,
                ) == written && select::shown_of(sel.only, enabled[i]).contains(c),
    )
}

impl Draft {
    /// Whether this is what the first `n` bodies say of a label.
    spec fn tells(
        self,
        sel: Selection,
        bodies: Seq<BodyView>,
        enabled: Seq<Set<Category>>,
        label: (Seq<char>, Seq<char>),
        n: int,
    ) -> bool {
        &&& (self.finding.krate@, self.finding.name@) == label
        &&& self.finding.ids@ == graph::ids_where(n, |i: int| sel.carries(bodies, i, label))
        &&& self.finding.ids@.len() > 0
        &&& self.written@ == raised_so_far(sel, bodies, enabled, label, true, n)
        &&& self.owned <==> exists|i: int|
            0 <= i < n && #[trigger] sel.carries(bodies, i, label) && !bodies[i].from_tests
        &&& self.instantiated is Some <==> exists|i: int|
            0 <= i < n && #[trigger] sel.carries(bodies, i, label) && !model::open_key(
                bodies[i].key,
            )
        &&& match self.instantiated {
            Some(set) => set@ == raised_so_far(sel, bodies, enabled, label, false, n),
            None => true,
        }
    }

    /// A body of another label changes nothing.
    proof fn tells_the_same(
        self,
        sel: Selection,
        bodies: Seq<BodyView>,
        enabled: Seq<Set<Category>>,
        label: (Seq<char>, Seq<char>),
        n: int,
    )
        requires
            self.tells(sel, bodies, enabled, label, n),
            0 <= n,
            !sel.carries(bodies, n, label),
        ensures
            self.tells(sel, bodies, enabled, label, n + 1),
    {
        assert(raised_so_far(sel, bodies, enabled, label, true, n + 1) =~= raised_so_far(
            sel,
            bodies,
            enabled,
            label,
            true,
            n,
        ));
        assert(raised_so_far(sel, bodies, enabled, label, false, n + 1) =~= raised_so_far(
            sel,
            bodies,
            enabled,
            label,
            false,
            n,
        ));
        let p = |i: int| sel.carries(bodies, i, label);
        assert(graph::ids_where(n + 1, p) == graph::ids_where(n, p));
        if exists|i: int|
            0 <= i < n + 1 && #[trigger] sel.carries(bodies, i, label) && !bodies[i].from_tests {
            let i = choose|i: int|
                0 <= i < n + 1 && #[trigger] sel.carries(bodies, i, label) && !bodies[i].from_tests;
            assert(0 <= i < n && sel.carries(bodies, i, label));
        }
        if exists|i: int|
            0 <= i < n + 1 && #[trigger] sel.carries(bodies, i, label) && !model::open_key(
                bodies[i].key,
            ) {
            let i = choose|i: int|
                0 <= i < n + 1 && #[trigger] sel.carries(bodies, i, label) && !model::open_key(
                    bodies[i].key,
                );
            assert(0 <= i < n && sel.carries(bodies, i, label));
        }
    }

    /// Starts with nothing seen of a label.
    fn start(
        krate: &str,
        name: &str,
        sel: Ghost<Selection>,
        bodies: Ghost<Seq<BodyView>>,
        enabled: Ghost<Seq<Set<Category>>>,
        n: Ghost<int>,
    ) -> (r: Draft)
        requires
            0 <= n@,
            forall|i: int|
                0 <= i < n@ ==> !#[trigger] sel@.carries(bodies@, i, (krate@, name@)),
        ensures
            (r.finding.krate@, r.finding.name@) == (krate@, name@),
            r.finding.ids@ == graph::ids_where(
                n@,
                |i: int| sel@.carries(bodies@, i, (krate@, name@)),
            ),
            r.written@ == raised_so_far(sel@, bodies@, enabled@, (krate@, name@), true, n@),
            !r.owned,
            r.instantiated is None,
    {
        proof {
            let p = |i: int| sel@.carries(bodies@, i, (krate@, name@));
            none_where(n@, p);
            assert(raised_so_far(sel@, bodies@, enabled@, (krate@, name@), true, n@)
                =~= Set::empty());
        }
        Draft {
            finding: Finding {
                krate: krate.to_owned(),
                name: name.to_owned(),
                ids: Vec::new(),
                categories: CategorySet::empty(),
            },
            written: CategorySet::empty(),
            instantiated: None,
            owned: false,
        }
    }
}

proof fn none_where(n: int, p: spec_fn(int) -> bool)
    requires
        forall|i: int| 0 <= i < n ==> !#[trigger] p(i),
    ensures
        graph::ids_where(n, p) == Seq::<FuncId>::empty(),
    decreases n,
{
    if n > 0 {
        none_where(n - 1, p);
    }
}

/// The order findings are listed in.
struct Listing<'a> {
    drafts: &'a Vec<Draft>,
}

impl<'a> Order for Listing<'a> {
    closed spec fn covers(&self, a: usize) -> bool {
        &&& a < self.drafts@.len()
        &&& forall|i: int, j: int|
            0 <= i < self.drafts@.len() && 0 <= j < self.drafts@.len() && i != j && (
            #[trigger] self.drafts@[i]).finding.name@ == (#[trigger] self.drafts@[j]).finding.name@
                ==> self.drafts@[i].finding.ids@[0].0 != self.drafts@[j].finding.ids@[0].0
        &&& forall|i: int|
            0 <= i < self.drafts@.len() ==> (#[trigger] self.drafts@[i]).finding.ids@.len() > 0
    }

    closed spec fn precedes(&self, a: usize, b: usize) -> bool {
        listed_before(self.drafts@[a as int].finding@, self.drafts@[b as int].finding@)
    }

    proof fn total(&self, a: usize, b: usize) {
        text::texts_are_ordered(
            self.drafts@[a as int].finding.name@,
            self.drafts@[b as int].finding.name@,
        );
    }

    proof fn transitive(&self, a: usize, b: usize, c: usize) {
        let x = self.drafts@[a as int].finding.name@;
        let y = self.drafts@[b as int].finding.name@;
        let z = self.drafts@[c as int].finding.name@;
        text::texts_are_ordered(x, y);
        text::texts_are_ordered(y, z);
        text::texts_are_ordered(x, z);
        if text::comes_before(x, y) && text::comes_before(y, z) {
            text::text_order_is_transitive(x, y, z);
        }
    }

    fn less(&self, a: usize, b: usize) -> (r: bool) {
        let x = &self.drafts[a].finding;
        let y = &self.drafts[b].finding;
        if !text::same(x.name.as_str(), y.name.as_str()) {
            text::before(x.name.as_str(), y.name.as_str())
        } else {
            assert(self.drafts@[a as int].finding.ids@.len() > 0);
            assert(self.drafts@[b as int].finding.ids@.len() > 0);
            x.ids[0].0 < y.ids[0].0
        }
    }
}

impl Clone for Finding {
    fn clone(&self) -> (r: Finding)
        ensures
            r@ == self@,
    {
        let ids = self.ids.clone();
        assert(ids@ =~= self.ids@);
        Finding {
            krate: self.krate.clone(),
            name: self.name.clone(),
            ids,
            categories: self.categories,
        }
    }
}

impl Draft {
    /// Adds a body to its label.
    fn add(
        &mut self,
        id: FuncId,
        body: &Body,
        categories: CategorySet,
        sel: Ghost<Selection>,
        bodies: Ghost<Seq<BodyView>>,
        enabled: Ghost<Seq<Set<Category>>>,
        label: Ghost<(Seq<char>, Seq<char>)>,
    )
        requires
            id.0 < bodies@.len() <= u32::MAX,
            body@ == bodies@[id.0 as int],
            sel@.carries(bodies@, id.0 as int, label@),
            categories@ == select::shown_of(sel@.only, enabled@[id.0 as int]),
            (old(self).finding.krate@, old(self).finding.name@) == label@,
            old(self).finding.ids@ == graph::ids_where(
                id.0 as int,
                |i: int| sel@.carries(bodies@, i, label@),
            ),
            old(self).written@ == raised_so_far(
                sel@,
                bodies@,
                enabled@,
                label@,
                true,
                id.0 as int,
            ),
            old(self).owned <==> exists|i: int|
                0 <= i < id.0 && #[trigger] sel@.carries(bodies@, i, label@)
                    && !bodies@[i].from_tests,
            old(self).instantiated is Some <==> exists|i: int|
                0 <= i < id.0 && #[trigger] sel@.carries(bodies@, i, label@) && !model::open_key(
                    bodies@[i].key,
                ),
            match old(self).instantiated {
                Some(set) => set@ == raised_so_far(
                    sel@,
                    bodies@,
                    enabled@,
                    label@,
                    false,
                    id.0 as int,
                ),
                None => true,
            },
        ensures
            final(self).tells(sel@, bodies@, enabled@, label@, id.0 + 1),
    {
        let ghost n = id.0 as int;
        let ghost before = *self;
        proof {
            assert forall|w: bool, c: Category|
                raised_so_far(sel@, bodies@, enabled@, label@, w, n + 1).contains(c)
                    <==> raised_so_far(sel@, bodies@, enabled@, label@, w, n).contains(c) || (
                model::open_key(bodies@[n].key) == w && categories@.contains(c)) by {
                if raised_so_far(sel@, bodies@, enabled@, label@, w, n).contains(c) {
                    let i = choose|i: int|
                        0 <= i < n && #[trigger] sel@.carries(bodies@, i, label@)
                            && model::open_key(bodies@[i].key) == w && select::shown_of(
                            sel@.only,
                            enabled@[i],
                        ).contains(c);
                    assert(0 <= i < n + 1 && sel@.carries(bodies@, i, label@));
                }
                if model::open_key(bodies@[n].key) == w && categories@.contains(c) {
                    assert(sel@.carries(bodies@, n, label@));
                }
            }
        }
        self.finding.ids.push(id);
        if !body.from_tests {
            self.owned = true;
        }
        if body.key.is_open() {
            self.written = self.written.union(categories);
        } else {
            let held = match self.instantiated {
                Some(set) => set,
                None => {
                    proof {
                        assert(raised_so_far(sel@, bodies@, enabled@, label@, false, n)
                            =~= Set::empty()) by {
                            assert forall|c: Category| !raised_so_far(
                                sel@,
                                bodies@,
                                enabled@,
                                label@,
                                false,
                                n,
                            ).contains(c) by {
                                if raised_so_far(
                                    sel@,
                                    bodies@,
                                    enabled@,
                                    label@,
                                    false,
                                    n,
                                ).contains(c) {
                                    let i = choose|i: int|
                                        0 <= i < n && #[trigger] sel@.carries(bodies@, i, label@)
                                            && model::open_key(bodies@[i].key) == false
                                            && select::shown_of(
                                            sel@.only,
                                            enabled@[i],
                                        ).contains(c);
                                    assert(sel@.carries(bodies@, i, label@));
                                }
                            }
                        }
                    }
                    CategorySet::empty()
                },
            };
            self.instantiated = Some(held.union(categories));
        }
        proof {
            let p = |i: int| sel@.carries(bodies@, i, label@);
            assert(graph::ids_where(n + 1, p) == graph::ids_where(n, p).push(FuncId(n as u32)));
            assert(self.written@ =~= raised_so_far(
                sel@,
                bodies@,
                enabled@,
                label@,
                true,
                n + 1,
            ));
            if self.instantiated is Some {
                assert(self.instantiated->0@ =~= raised_so_far(
                    sel@,
                    bodies@,
                    enabled@,
                    label@,
                    false,
                    n + 1,
                ));
            }
            if before.owned {
                let i = choose|i: int|
                    0 <= i < n && #[trigger] sel@.carries(bodies@, i, label@)
                        && !bodies@[i].from_tests;
                assert(0 <= i < n + 1 && sel@.carries(bodies@, i, label@));
            }
            if before.instantiated is Some {
                let i = choose|i: int|
                    0 <= i < n && #[trigger] sel@.carries(bodies@, i, label@) && !model::open_key(
                        bodies@[i].key,
                    );
                assert(0 <= i < n + 1 && sel@.carries(bodies@, i, label@));
            }
            assert(sel@.carries(bodies@, n, label@));
        }
    }

    /// What the drafted function reports, once every body has been seen.
    fn settled(&self, generics: Generics) -> (r: CategorySet)
        ensures
            r@ == (if generics is Instantiated && self.instantiated is Some {
                self.instantiated->0@
            } else {
                self.written@.union(
                    match self.instantiated {
                        Some(set) => set@,
                        None => Set::empty(),
                    },
                )
            }),
    {
        match self.instantiated {
            Some(set) => if generics == Generics::Instantiated {
                set
            } else {
                self.written.union(set)
            },
            None => {
                assert(self.written@.union(Set::empty()) =~= self.written@);
                self.written
            },
        }
    }

    /// A draft that has seen every body says what is reported of its label.
    proof fn settles(
        self,
        sel: Selection,
        bodies: Seq<BodyView>,
        enabled: Seq<Set<Category>>,
        label: (Seq<char>, Seq<char>),
    )
        requires
            self.tells(sel, bodies, enabled, label, bodies.len() as int),
        ensures
            self.owned == sel.owned(bodies, label),
            self.instantiated is Some == sel.instantiated(bodies, label),
            (if sel.generics is Instantiated && self.instantiated is Some {
                self.instantiated->0@
            } else {
                self.written@.union(
                    match self.instantiated {
                        Some(set) => set@,
                        None => Set::empty(),
                    },
                )
            }) == reported(sel, bodies, enabled, label),
            self.finding.ids@ == carriers(sel, bodies, label),
    {
        let n = bodies.len() as int;
        if sel.owned(bodies, label) {
            let i = choose|i: int| #[trigger]
                sel.carries(bodies, i, label) && !bodies[i].from_tests;
            assert(0 <= i < n && sel.carries(bodies, i, label));
        }
        if sel.instantiated(bodies, label) {
            let i = choose|i: int| #[trigger]
                sel.carries(bodies, i, label) && !model::open_key(bodies[i].key);
            assert(0 <= i < n && sel.carries(bodies, i, label));
        }
        assert forall|w: bool| #[trigger] raised_so_far(sel, bodies, enabled, label, w, n)
            == raised_by(sel, bodies, enabled, label, w) by {
            assert(raised_so_far(sel, bodies, enabled, label, w, n) =~= raised_by(
                sel,
                bodies,
                enabled,
                label,
                w,
            )) by {
                assert forall|c: Category|
                    raised_by(sel, bodies, enabled, label, w).contains(c) implies raised_so_far(
                    sel,
                    bodies,
                    enabled,
                    label,
                    w,
                    n,
                ).contains(c) by {
                    let i = choose|i: int| #[trigger]
                        sel.carries(bodies, i, label) && model::open_key(bodies[i].key) == w
                            && select::shown_of(sel.only, enabled[i]).contains(c);
                    assert(0 <= i < n && sel.carries(bodies, i, label));
                }
            }
        }
        assert(raised_so_far(sel, bodies, enabled, label, true, n) == raised_by(
            sel,
            bodies,
            enabled,
            label,
            true,
        ));
        assert(raised_so_far(sel, bodies, enabled, label, false, n) == raised_by(
            sel,
            bodies,
            enabled,
            label,
            false,
        ));
        if self.instantiated is None {
            assert(raised_by(sel, bodies, enabled, label, false) =~= Set::empty()) by {
                assert forall|c: Category| !raised_by(sel, bodies, enabled, label, false).contains(
                    c,
                ) by {
                    if raised_by(sel, bodies, enabled, label, false).contains(c) {
                        let i = choose|i: int| #[trigger]
                            sel.carries(bodies, i, label) && model::open_key(bodies[i].key)
                                == false && select::shown_of(sel.only, enabled[i]).contains(c);
                        assert(0 <= i < n && sel.carries(bodies, i, label));
                    }
                }
            }
        }
    }
}

/// Groups every function the report considers by its label.
///
/// A function that reports nothing still matters: an instantiation of a
/// generic function that raises nothing is what the instantiation view reads
/// instead of the body as written.
fn drafts(graph: &Graph, solution: &Solution, sel: Selection) -> (r: (
    Vec<Draft>,
    Ghost<Seq<(Seq<char>, Seq<char>)>>,
))
    requires
        solution.states().len() == graph@.bodies.len(),
    ensures
        r.0@.len() == r.1@.len(),
        r.1@.no_duplicates(),
        forall|g: int|
            0 <= g < r.0@.len() ==> (#[trigger] r.0@[g]).tells(
                sel,
                graph@.bodies,
                Selection::enabled_of(*solution),
                r.1@[g],
                graph@.bodies.len() as int,
            ),
        forall|i: int|
            #![trigger graph@.bodies[i]]
            0 <= i < graph@.bodies.len() && sel.admitted(graph@.bodies[i]) ==> r.1@.contains(
                sel.label(graph@.bodies[i]),
            ),
{
    let ghost bodies = graph@.bodies;
    let ghost enabled = Selection::enabled_of(*solution);
    let n = graph.len();
    let mut groups = Groups::new();
    let mut out: Vec<Draft> = Vec::new();
    let mut i: usize = 0;
    while i < n
        invariant
            i <= n == bodies.len() <= u32::MAX,
            bodies == graph@.bodies,
            enabled == Selection::enabled_of(*solution),
            solution.states().len() == bodies.len(),
            out@.len() == groups@.len() <= i,
            forall|g: int|
                0 <= g < out@.len() ==> (#[trigger] out@[g]).tells(
                    sel,
                    bodies,
                    enabled,
                    groups@[g],
                    i as int,
                ),
            forall|k: int|
                #![trigger bodies[k]]
                0 <= k < i && sel.admitted(bodies[k]) ==> groups@.contains(sel.label(bodies[k])),
        decreases n - i,
    {
        let id = FuncId::from_index(i);
        let body = graph.body(id);
        let ghost label = sel.label(body@);
        let ghost was = groups@;
        let ghost had = out@;
        if sel.admits(body) {
            let name = sel.name(body);
            let (more, at) = groups.enter(body.krate.as_str(), name);
            groups = more;
            let categories = sel.shown(solution.enabled(id));
            assert(enabled[i as int] == solution.states()[i as int].enabled);
            assert(sel.carries(bodies, i as int, label));
            if at == out.len() {
                proof {
                    assert forall|k: int| 0 <= k < i implies !#[trigger] sel.carries(
                        bodies,
                        k,
                        label,
                    ) by {
                        if sel.carries(bodies, k, label) {
                            assert(was.contains(sel.label(bodies[k])));
                        }
                    }
                }
                let fresh = Draft::start(
                    body.krate.as_str(),
                    name,
                    Ghost(sel),
                    Ghost(bodies),
                    Ghost(enabled),
                    Ghost(i as int),
                );
                out.push(fresh);
            }
            let ghost mid = out@;
            out[at].add(
                id,
                body,
                categories,
                Ghost(sel),
                Ghost(bodies),
                Ghost(enabled),
                Ghost(label),
            );
            proof {
                assert forall|g: int| 0 <= g < out@.len() implies (#[trigger] out@[g]).tells(
                    sel,
                    bodies,
                    enabled,
                    groups@[g],
                    i + 1,
                ) by {
                    if g != at {
                        assert(out@[g] == mid[g]);
                        assert(mid[g] == had[g]);
                        assert(groups@[g] == was[g]);
                        assert(groups@[g] != label) by {
                            if groups@[g] == label {
                                assert(was.contains(label));
                                let k = choose|k: int| 0 <= k < was.len() && was[k] == label;
                                assert(groups@[at as int] == label);
                            }
                        }
                        had[g].tells_the_same(sel, bodies, enabled, groups@[g], i as int);
                    }
                }
                assert forall|k: int|
                    #![trigger bodies[k]]
                    0 <= k < i + 1 && sel.admitted(bodies[k]) implies groups@.contains(
                    sel.label(bodies[k]),
                ) by {
                    if k < i {
                        let l = sel.label(bodies[k]);
                        let m = choose|m: int| 0 <= m < was.len() && was[m] == l;
                        assert(groups@[m] == l);
                    } else {
                        assert(groups@[at as int] == label);
                    }
                }
            }
        } else {
            proof {
                assert forall|g: int| 0 <= g < out@.len() implies (#[trigger] out@[g]).tells(
                    sel,
                    bodies,
                    enabled,
                    groups@[g],
                    i + 1,
                ) by {
                    had[g].tells_the_same(sel, bodies, enabled, groups@[g], i as int);
                }
            }
        }
        i += 1;
    }
    let ghost labels = groups@;
    let _ = groups.len();
    (out, Ghost(labels))
}

/// Selects the functions worth reporting, one entry per name.
///
/// The report and the check both group here, so a function that reports
/// under one name cannot be gated under another. A generic function is
/// read as written and once per instantiation, and which of those the
/// name reports is the caller's choice: everything, or the instantiations
/// alone where there are any.
pub fn collect(graph: &Graph, solution: &Solution, args: &Args) -> (r: Vec<Finding>)
    requires
        solution.states().len() == graph@.bodies.len(),
    ensures
        is_report(
            finding_views(r@),
            Selection::spec_of(*args),
            graph@.bodies,
            Selection::enabled_of(*solution),
        ),
        forall|k: int|
            0 <= k < r@.len() ==> (#[trigger] r@[k]).ids@.len() > 0 && forall|m: int|
                0 <= m < r@[k].ids@.len() ==> (#[trigger] r@[k].ids@[m]).0 < graph@.bodies.len(),
{
    let sel = Selection::of(args);
    let ghost bodies = graph@.bodies;
    let ghost enabled = Selection::enabled_of(*solution);
    let n = graph.len();
    let (made, Ghost(labels)) = drafts(graph, solution, sel);
    let mut made = made;
    let mut kept: Vec<usize> = Vec::new();
    let mut g: usize = 0;
    while g < made.len()
        invariant
            g <= made@.len() == labels.len(),
            sel == Selection::spec_of(*args),
            forall|k: int|
                g <= k < made@.len() ==> (#[trigger] made@[k]).tells(
                    sel,
                    bodies,
                    enabled,
                    labels[k],
                    bodies.len() as int,
                ),
            forall|k: int|
                0 <= k < g ==> (#[trigger] made@[k]).finding@ == finding_of(
                    sel,
                    bodies,
                    enabled,
                    labels[k],
                ) && made@[k].finding.ids@.len() > 0,
            forall|a: int, b: int|
                0 <= a < b < kept@.len() ==> #[trigger] kept@[a] < #[trigger] kept@[b],
            forall|a: int|
                0 <= a < kept@.len() ==> (#[trigger] kept@[a]) < g && is_reported(
                    sel,
                    bodies,
                    enabled,
                    labels[kept@[a] as int],
                ),
            forall|k: int|
                0 <= k < g && is_reported(sel, bodies, enabled, #[trigger] labels[k])
                    ==> kept@.contains(k as usize),
        decreases made.len() - g,
    {
        let ghost was = kept@;
        let ghost draft = made@[g as int];
        proof {
            draft.settles(sel, bodies, enabled, labels[g as int]);
        }
        let categories = made[g].settled(args.generics);
        let owned = made[g].owned;
        made[g].finding.categories = categories;
        assert(made@[g as int].finding@ =~= finding_of(sel, bodies, enabled, labels[g as int]));
        if owned && !categories.is_empty() {
            kept.push(g);
        }
        assert forall|k: int|
            0 <= k < g + 1 && is_reported(sel, bodies, enabled, #[trigger] labels[k]) implies kept@.contains(
            k as usize,
        ) by {
            if k < g {
                let m = choose|m: int| 0 <= m < was.len() && was[m] == k as usize;
                assert(kept@[m] == k as usize);
            } else {
                assert(kept@[kept@.len() - 1] == k as usize);
            }
        }
        g += 1;
    }
    let order = Listing { drafts: &made };
    proof {
        assert forall|k: int| 0 <= k < made@.len() implies ids_are_carriers(
            sel,
            bodies,
            labels[k],
            (#[trigger] made@[k]).finding.ids@,
        ) by {
            graph::ids_are_listed(
                bodies.len() as int,
                |i: int| sel.carries(bodies, i, labels[k]),
            );
        }
        assert forall|i: int, j: int|
            0 <= i < made@.len() && 0 <= j < made@.len() && i != j && (
            #[trigger] made@[i]).finding.name@ == (#[trigger] made@[j]).finding.name@ implies made@[i].finding.ids@[0].0
            != made@[j].finding.ids@[0].0 by {
            assert(ids_are_carriers(sel, bodies, labels[i], made@[i].finding.ids@));
            assert(ids_are_carriers(sel, bodies, labels[j], made@[j].finding.ids@));
            assert(sel.carries(bodies, made@[i].finding.ids@[0].0 as int, labels[i]));
            assert(sel.carries(bodies, made@[j].finding.ids@[0].0 as int, labels[j]));
        }
    }
    let sorted = lists::sort(&order, &kept);
    assert forall|k: int| 0 <= k < sorted@.len() implies (#[trigger] sorted@[k]) < made@.len()
        && is_reported(sel, bodies, enabled, labels[sorted@[k] as int]) by {
        assert(sorted@.contains(sorted@[k]));
        assert(kept@.contains(sorted@[k]));
        let m = choose|m: int| 0 <= m < kept@.len() && kept@[m] == sorted@[k];
        assert(kept@[m] < made@.len());
    }
    let mut out: Vec<Finding> = Vec::new();
    let mut k: usize = 0;
    while k < sorted.len()
        invariant
            k <= sorted@.len(),
            made@.len() == labels.len(),
            forall|m: int| 0 <= m < sorted@.len() ==> (#[trigger] sorted@[m]) < made@.len(),
            out@.len() == k,
            forall|m: int|
                0 <= m < k ==> (#[trigger] out@[m])@ == made@[sorted@[m] as int].finding@,
        decreases sorted.len() - k,
    {
        assert(sorted@[k as int] < made@.len());
        out.push(made[sorted[k]].finding.clone());
        k += 1;
    }
    proof {
        let views = finding_views(out@);
        assert forall|m: int| 0 <= m < views.len() implies {
            let label = ((#[trigger] views[m]).krate, views[m].name);
            is_reported(sel, bodies, enabled, label) && views[m] == finding_of(
                sel,
                bodies,
                enabled,
                label,
            )
        } by {
            assert(views[m] == out@[m]@);
            let g = sorted@[m] as int;
            assert(out@[m]@ == made@[g].finding@);
            assert(labels[g] == (labels[g].0, labels[g].1));
        }
        assert forall|label: (Seq<char>, Seq<char>)| #[trigger]
            is_reported(sel, bodies, enabled, label) implies views.contains(
            finding_of(sel, bodies, enabled, label),
        ) by {
            let i = choose|i: int| #[trigger]
                sel.carries(bodies, i, label) && !bodies[i].from_tests;
            assert(sel.admitted(bodies[i]));
            assert(labels.contains(sel.label(bodies[i])));
            let g = choose|g: int| 0 <= g < labels.len() && labels[g] == label;
            assert(is_reported(sel, bodies, enabled, labels[g]));
            assert(kept@.contains(g as usize));
            assert(sorted@.contains(g as usize));
            let m = choose|m: int| 0 <= m < sorted@.len() && sorted@[m] == g as usize;
            assert(out@[m]@ == made@[g].finding@);
            assert(views[m] == finding_of(sel, bodies, enabled, label));
        }
        assert forall|a: int, b: int| 0 <= a < b < views.len() implies listed_before(
            #[trigger] views[a],
            #[trigger] views[b],
        ) by {
            assert(order.precedes(sorted@[a], sorted@[b]));
            assert(out@[a]@ == made@[sorted@[a] as int].finding@);
            assert(out@[b]@ == made@[sorted@[b] as int].finding@);
        }
        assert forall|m: int| 0 <= m < out@.len() implies (#[trigger] out@[m]).ids@.len() > 0
            && forall|x: int|
            0 <= x < out@[m].ids@.len() ==> (#[trigger] out@[m].ids@[x]).0 < bodies.len() by {
            let g = sorted@[m] as int;
            assert(out@[m]@ == made@[g].finding@);
            assert(ids_are_carriers(sel, bodies, labels[g], made@[g].finding.ids@));
            assert(out@[m].ids@ == made@[g].finding.ids@);
        }
    }
    out
}

/// Whether a list of ids holds bodies of a label alone.
spec fn ids_are_carriers(
    sel: Selection,
    bodies: Seq<BodyView>,
    label: (Seq<char>, Seq<char>),
    ids: Seq<FuncId>,
) -> bool {
    forall|x: int|
        0 <= x < ids.len() ==> (#[trigger] ids[x]).0 < bodies.len() && sel.carries(
            bodies,
            ids[x].0 as int,
            label,
        )
}

/// Whether anything at all would be reported under these settings.
///
/// The exit code is what a continuous integration run reads, so it has to
/// agree with what the report prints rather than with the unfiltered
/// solution: a run that names no finding has nothing to report.
pub fn any_finding(graph: &Graph, solution: &Solution, args: &Args) -> (r: bool)
    requires
        solution.states().len() == graph@.bodies.len(),
    ensures
        r <==> exists|label: (Seq<char>, Seq<char>)|
            is_reported(
                Selection::spec_of(*args),
                graph@.bodies,
                Selection::enabled_of(*solution),
                label,
            ),
{
    let findings = collect(graph, solution, args);
    proof {
        let views = finding_views(findings@);
        let sel = Selection::spec_of(*args);
        if findings@.len() > 0 {
            assert(is_reported(
                sel,
                graph@.bodies,
                Selection::enabled_of(*solution),
                (views[0].krate, views[0].name),
            ));
        }
    }
    findings.len() > 0
}

/// Renders a flag as text.
pub open spec fn switch(value: bool) -> Seq<char> {
    if value {
        "on"@
    } else {
        "off"@
    }
}

/// Renders a flag as text.
fn on_off(value: bool) -> (r: &'static str)
    ensures
        r@ == switch(value),
{
    if value {
        "on"
    } else {
        "off"
    }
}

/// A text followed by the lines that name a build configuration.
pub open spec fn with_config(out: Seq<char>, c: ConfigView) -> Seq<char> {
    let out = out + "    rustc              "@ + c.rustc + "\n"@;
    let out = out + "    profile            "@ + c.profile + " (debug assertions "@ + switch(
        c.debug_assertions,
    ) + ", overflow checks "@ + switch(c.overflow_checks) + ")\n"@;
    let out = out + "    standard library   "@ + c.std_mode.spec_name() + "\n"@;
    match c.mir_opt_level {
        Some(level) => out + "    mir opt level      "@ + text::decimal(level as nat) + "\n"@,
        None => out,
    }
}

/// A text followed by the analysis preamble.
pub open spec fn with_header(
    out: Seq<char>,
    config: Option<ConfigView>,
    suppressed: Set<Category>,
    analysed: nat,
    found: nat,
) -> Seq<char> {
    let out = out + "Analysis\n"@;
    let out = match config {
        Some(c) => with_config(out, c),
        None => out,
    };
    let out = out + "    suppressed         "@ + (if suppressed == Set::<Category>::empty() {
        "nothing"@
    } else {
        category::list_text(suppressed)
    }) + "\n"@;
    out + "    functions          "@ + text::decimal(analysed) + " analysed, "@ + text::decimal(
        found,
    ) + " can panic\n"@
}

/// Writes the analysis preamble.
fn header(graph: &Graph, args: &Args, found: usize, out: &mut String)
    ensures
        final(out)@ == with_header(
            old(out)@,
            graph@.config,
            args.suppress@,
            graph@.bodies.len(),
            found as nat,
        ),
{
    out.append("Analysis\n");
    if let Some(config) = graph.config() {
        out.append("    rustc              ");
        out.append(config.rustc.as_str());
        out.append("\n");
        out.append("    profile            ");
        out.append(config.profile.as_str());
        out.append(" (debug assertions ");
        out.append(on_off(config.debug_assertions));
        out.append(", overflow checks ");
        out.append(on_off(config.overflow_checks));
        out.append(")\n");
        out.append("    standard library   ");
        out.append(config.std_mode.name());
        out.append("\n");
        if let Some(level) = config.mir_opt_level {
            out.append("    mir opt level      ");
            out.append(text::number(level as u64).as_str());
            out.append("\n");
        }
    }
    out.append("    suppressed         ");
    if args.suppress.is_empty() {
        out.append("nothing");
    } else {
        out.append(args.suppress.text().as_str());
    }
    out.append("\n");
    out.append("    functions          ");
    out.append(text::number(graph.len() as u64).as_str());
    out.append(" analysed, ");
    out.append(text::number(found as u64).as_str());
    out.append(" can panic\n");
}

/// The first site of a body, from an index on, that is reachable and raises a
/// category.
pub open spec fn first_site(env: Env, body: BodyView, c: Category, from: int) -> Option<int>
    decreases body.sites.len() - from,
{
    if from >= body.sites.len() {
        None
    } else if body.sites[from].category == c && env.site_runs(body, from) {
        Some(from)
    } else {
        first_site(env, body, c, from + 1)
    }
}

/// The first body of a list, from an index on, that itself raises a category,
/// and the site that does.
pub open spec fn direct(env: Env, ids: Seq<FuncId>, c: Category, from: int) -> Option<(FuncId, int)>
    decreases ids.len() - from,
{
    if from >= ids.len() {
        None
    } else {
        match first_site(env, env.bodies[ids[from].0 as int], c, 0) {
            Some(i) => Some((ids[from], i)),
            None => direct(env, ids, c, from + 1),
        }
    }
}

/// The panic of a category that this function raises itself.
///
/// Returns nothing when the category is only reached through a call.
fn direct_site(graph: &Graph, solution: &Solution, ids: &Vec<FuncId>, category: Category) -> (r: Option<
    (FuncId, usize),
>)
    requires
        solution.states().len() == graph@.bodies.len(),
        forall|k: int| 0 <= k < ids@.len() ==> (#[trigger] ids@[k]).0 < graph@.bodies.len(),
    ensures
        match r {
            Some(p) => direct(solution.env(*graph), ids@, category, 0) == Some((p.0, p.1 as int))
                && p.0.0 < graph@.bodies.len() && p.1
                < graph@.bodies[p.0.0 as int].sites.len(),
            None => direct(solution.env(*graph), ids@, category, 0) is None,
        },
{
    let ghost env = solution.env(*graph);
    let mut k: usize = 0;
    while k < ids.len()
        invariant
            k <= ids@.len(),
            env == solution.env(*graph),
            solution.states().len() == graph@.bodies.len(),
            forall|k: int| 0 <= k < ids@.len() ==> (#[trigger] ids@[k]).0 < graph@.bodies.len(),
            direct(env, ids@, category, 0) == direct(env, ids@, category, k as int),
        decreases ids.len() - k,
    {
        let id = ids[k];
        assert(ids@[k as int].0 < graph@.bodies.len());
        let body = graph.body(id);
        let activity = solution.activity(graph, id);
        let mut i: usize = 0;
        while i < body.sites.len()
            invariant
                i <= body@.sites.len(),
                k < ids@.len(),
                id == ids@[k as int],
                id.0 < graph@.bodies.len(),
                env == solution.env(*graph),
                body@ == env.bodies[id.0 as int],
                activity.tells(env, body@),
                direct(env, ids@, category, 0) == direct(env, ids@, category, k as int),
                first_site(env, body@, category, 0) == first_site(env, body@, category, i as int),
            decreases body.sites.len() - i,
        {
            assert(body@.sites[i as int] == body.sites@[i as int]@);
            assert(activity.sites@[i as int] == env.site_runs(body@, i as int));
            if body.sites[i].category == category && activity.site(i) {
                return Some((id, i));
            }
            i += 1;
        }
        k += 1;
    }
    None
}

/// The artifact's verdict on one finding and category.
///
/// A finding can merge several instantiations of one function; whichever
/// the artifact confirms decides, and only unanimity can call it absent.
pub open spec fn joint_verdict(
    facts: Map<Seq<char>, verify::FactsView>,
    bodies: Seq<BodyView>,
    ids: Seq<FuncId>,
    c: Category,
) -> Verdict {
    if exists|k: int|
        0 <= k < ids.len() && verify::verdict(facts, bodies[(#[trigger] ids[k]).0 as int].key, c)
            == Verdict::Confirmed {
        Verdict::Confirmed
    } else if forall|k: int|
        0 <= k < ids.len() ==> verify::verdict(facts, bodies[(#[trigger] ids[k]).0 as int].key, c)
            == Verdict::Absent {
        Verdict::Absent
    } else {
        Verdict::Unverified
    }
}

/// The artifact's verdict on one finding and category.
fn verdict_of(graph: &Graph, verdicts: &Verdicts, ids: &Vec<FuncId>, category: Category) -> (r: Verdict)
    requires
        forall|k: int| 0 <= k < ids@.len() ==> (#[trigger] ids@[k]).0 < graph@.bodies.len(),
    ensures
        r == joint_verdict(verdicts@, graph@.bodies, ids@, category),
{
    let mut all_absent = true;
    let mut k: usize = 0;
    while k < ids.len()
        invariant
            k <= ids@.len(),
            forall|k: int| 0 <= k < ids@.len() ==> (#[trigger] ids@[k]).0 < graph@.bodies.len(),
            forall|m: int|
                0 <= m < k ==> verify::verdict(
                    verdicts@,
                    graph@.bodies[(#[trigger] ids@[m]).0 as int].key,
                    category,
                ) != Verdict::Confirmed,
            all_absent <==> forall|m: int|
                0 <= m < k ==> verify::verdict(
                    verdicts@,
                    graph@.bodies[(#[trigger] ids@[m]).0 as int].key,
                    category,
                ) == Verdict::Absent,
        decreases ids.len() - k,
    {
        assert(ids@[k as int].0 < graph@.bodies.len());
        match verdicts.of(&graph.body(ids[k]).key, category) {
            Verdict::Confirmed => {
                return Verdict::Confirmed;
            },
            Verdict::Absent => {},
            Verdict::Unverified => {
                all_absent = false;
            },
        }
        k += 1;
    }
    if all_absent {
        Verdict::Absent
    } else {
        Verdict::Unverified
    }
}

/// What a report says of a verdict.
pub open spec fn verdict_words(v: Verdict) -> Seq<char> {
    match v {
        Verdict::Confirmed => "confirmed in"@,
        Verdict::Absent => "absent from"@,
        Verdict::Unverified => "unverified in"@,
    }
}

/// What is known of the artifact, if anything is.
pub open spec fn facts_of(verdicts: Option<&Verdicts>) -> Option<Map<Seq<char>, verify::FactsView>> {
    match verdicts {
        Some(v) => Some(v@),
        None => None,
    }
}

/// A text followed by a source position, if there is one.
pub open spec fn with_place(out: Seq<char>, loc: Option<LocView>) -> Seq<char> {
    match loc {
        Some(l) => out + " at "@ + model::position(l),
        None => out,
    }
}

/// Writes a source position, if there is one.
fn place(loc: &Option<model::Loc>, out: &mut String)
    ensures
        final(out)@ == with_place(old(out)@, model::loc_view(*loc)),
{
    if let Some(l) = loc {
        out.append(" at ");
        out.append(l.text().as_str());
    }
}

/// A text followed by the line of one category of a finding.
pub open spec fn with_category(
    out: Seq<char>,
    env: Env,
    facts: Option<Map<Seq<char>, verify::FactsView>>,
    ids: Seq<FuncId>,
    c: Category,
) -> Seq<char> {
    let out = out + "    "@ + c.spec_name();
    let out = match direct(env, ids, c, 0) {
        Some((id, i)) => {
            let site = env.bodies[id.0 as int].sites[i];
            with_place(out + " "@ + site.reason, site.loc)
        },
        None => out + " reached through a call"@,
    };
    let out = match facts {
        Some(f) => out + " ("@ + verdict_words(joint_verdict(f, env.bodies, ids, c))
            + " the compiled artifact)"@,
        None => out,
    };
    out + "\n"@
}

/// A text followed by the lines of the first `n` categories of a finding.
pub open spec fn with_categories(
    out: Seq<char>,
    env: Env,
    facts: Option<Map<Seq<char>, verify::FactsView>>,
    ids: Seq<FuncId>,
    list: Seq<Category>,
    n: nat,
) -> Seq<char>
    decreases n,
{
    if n == 0 {
        out
    } else {
        with_category(
            with_categories(out, env, facts, ids, list, (n - 1) as nat),
            env,
            facts,
            ids,
            list[n - 1],
        )
    }
}

/// A text followed by where a function is defined, if that is known.
pub open spec fn with_definition(out: Seq<char>, loc: Option<LocView>) -> Seq<char> {
    match loc {
        Some(l) => out + "    defined at "@ + model::position(l) + "\n"@,
        None => out,
    }
}

/// Writes where a function is defined, if that is known.
fn definition(loc: &Option<model::Loc>, out: &mut String)
    ensures
        final(out)@ == with_definition(old(out)@, model::loc_view(*loc)),
{
    if let Some(l) = loc {
        out.append("    defined at ");
        out.append(l.text().as_str());
        out.append("\n");
    }
}

/// A text followed by the paragraph of one finding.
pub open spec fn with_finding(
    out: Seq<char>,
    env: Env,
    facts: Option<Map<Seq<char>, verify::FactsView>>,
    f: FindingView,
) -> Seq<char> {
    let out = out + f.name + "\n"@;
    let out = with_definition(out, env.bodies[f.ids[0].0 as int].loc);
    let list = category::in_order(f.categories);
    with_categories(out, env, facts, f.ids, list, list.len()) + "\n"@
}

/// A text followed by the paragraphs of the first `n` findings.
pub open spec fn with_findings(
    out: Seq<char>,
    env: Env,
    facts: Option<Map<Seq<char>, verify::FactsView>>,
    findings: Seq<FindingView>,
    n: nat,
) -> Seq<char>
    decreases n,
{
    if n == 0 {
        out
    } else {
        with_finding(
            with_findings(out, env, facts, findings, (n - 1) as nat),
            env,
            facts,
            findings[n - 1],
        )
    }
}

/// A text followed by the lines of the first `n` entry points of a function.
pub open spec fn with_reaches(out: Seq<char>, reaches: Seq<Set<Category>>, n: nat) -> Seq<char>
    decreases n,
{
    if n == 0 {
        out
    } else {
        with_reaches(out, reaches, (n - 1) as nat) + "    "@ + text::joined(
            category::names_of(reaches[n - 1]),
            ", or "@,
        ) + "\n"@
    }
}

/// What a [`Missed`] says.
pub open spec fn missed_view(m: Missed) -> (FuncId, Seq<Set<Category>>) {
    (m.id, verify::sets_of(m.reaches@))
}

/// What a list of them says.
pub open spec fn missed_views(list: Seq<Missed>) -> Seq<(FuncId, Seq<Set<Category>>)> {
    list.map_values(|m: Missed| missed_view(m))
}

/// A text followed by the paragraphs of the first `n` functions that the
/// artifact reaches a panic from and the report does not name with it.
pub open spec fn with_missed(
    out: Seq<char>,
    bodies: Seq<BodyView>,
    missed: Seq<(FuncId, Seq<Set<Category>>)>,
    n: nat,
) -> Seq<char>
    decreases n,
{
    if n == 0 {
        out
    } else {
        let out = with_missed(out, bodies, missed, (n - 1) as nat);
        let body = bodies[missed[n - 1].0.0 as int];
        let out = with_definition(out + body.display + "\n"@, body.loc);
        with_reaches(out, missed[n - 1].1, missed[n - 1].1.len()) + "\n"@
    }
}

/// A text followed by what the artifact reaches that the report does not say.
pub open spec fn with_missed_prose(
    out: Seq<char>,
    bodies: Seq<BodyView>,
    missed: Seq<(FuncId, Seq<Set<Category>>)>,
) -> Seq<char> {
    if missed.len() == 0 {
        out
    } else {
        with_missed(
            out + "The compiled artifact reaches panics the analysis did not report:\n\n"@,
            bodies,
            missed,
            missed.len(),
        )
    }
}

/// Writes the functions the artifact reaches a panic from that the report
/// does not name them with.
fn missed_prose(graph: &Graph, missed: &Vec<Missed>, out: &mut String)
    requires
        forall|k: int| 0 <= k < missed@.len() ==> (#[trigger] missed@[k]).id.0 < graph@.bodies.len(),
    ensures
        final(out)@ == with_missed_prose(old(out)@, graph@.bodies, missed_views(missed@)),
{
    if missed.len() == 0 {
        return;
    }
    out.append("The compiled artifact reaches panics the analysis did not report:\n\n");
    let ghost start = out@;
    let ghost views = missed_views(missed@);
    let mut i: usize = 0;
    while i < missed.len()
        invariant
            i <= missed@.len(),
            views == missed_views(missed@),
            forall|k: int|
                0 <= k < missed@.len() ==> (#[trigger] missed@[k]).id.0 < graph@.bodies.len(),
            out@ == with_missed(start, graph@.bodies, views, i as nat),
        decreases missed.len() - i,
    {
        let entry = &missed[i];
        assert(missed@[i as int].id.0 < graph@.bodies.len());
        assert(views[i as int] == missed_view(*entry));
        let body = graph.body(entry.id);
        out.append(body.display.as_str());
        out.append("\n");
        definition(&body.loc, out);
        let ghost from = out@;
        let ghost reaches = verify::sets_of(entry.reaches@);
        let mut k: usize = 0;
        while k < entry.reaches.len()
            invariant
                k <= entry.reaches@.len(),
                reaches == verify::sets_of(entry.reaches@),
                out@ == with_reaches(from, reaches, k as nat),
            decreases entry.reaches.len() - k,
        {
            assert(reaches[k as int] == entry.reaches@[k as int]@);
            out.append("    ");
            out.append(text::join(&entry.reaches[k].names(), ", or ").as_str());
            out.append("\n");
            k += 1;
        }
        out.append("\n");
        i += 1;
    }
}

/// The report of a graph as prose, after what is already written.
pub open spec fn with_report(
    out: Seq<char>,
    env: Env,
    config: Option<ConfigView>,
    suppressed: Set<Category>,
    findings: Seq<FindingView>,
    facts: Option<Map<Seq<char>, verify::FactsView>>,
    missed: Seq<(FuncId, Seq<Set<Category>>)>,
) -> Seq<char> {
    let out = with_header(out, config, suppressed, env.bodies.len(), findings.len());
    if findings.len() == 0 {
        out + "\nNo function can panic under this policy.\n"@
    } else {
        let out = with_findings(out + "\n"@, env, facts, findings, findings.len());
        let out = if facts is Some {
            with_missed_prose(out, env.bodies, missed)
        } else {
            out
        };
        out + "Run `panicgraph why <function>` to see a call path.\n"@
    }
}

/// Whether a list is what the artifact reaches that the report does not say.
pub open spec fn is_missed(
    list: Seq<(FuncId, Seq<Set<Category>>)>,
    env: Env,
    facts: Map<Seq<char>, verify::FactsView>,
) -> bool {
    &&& forall|k: int|
        0 <= k < list.len() ==> {
            let i = (#[trigger] list[k]).0.0 as int;
            &&& i < env.bodies.len()
            &&& list[k].1 == verify::missing(
                facts,
                env.bodies[i],
                env.states[i].enabled,
                env.policy.suppressed@,
            )
            &&& list[k].1.len() > 0
        }
    &&& forall|i: int|
        0 <= i < env.bodies.len() && (#[trigger] verify::missing(
            facts,
            env.bodies[i],
            env.states[i].enabled,
            env.policy.suppressed@,
        )).len() > 0 ==> exists|k: int| 0 <= k < list.len() && (#[trigger] list[k]).0.0 == i
    &&& forall|a: int, b: int|
        0 <= a < b < list.len() ==> graph::alphabetical(
            env.bodies,
            (#[trigger] list[a]).0.0 as int,
            (#[trigger] list[b]).0.0 as int,
        )
}

/// What the artifact reaches that the report does not say.
fn missed_by(graph: &Graph, solution: &Solution, verdicts: &Verdicts) -> (r: Vec<Missed>)
    requires
        solution.states().len() == graph@.bodies.len(),
    ensures
        is_missed(missed_views(r@), solution.env(*graph), verdicts@),
        forall|k: int| 0 <= k < r@.len() ==> (#[trigger] r@[k]).id.0 < graph@.bodies.len(),
{
    let r = verdicts.missed(graph, solution);
    proof {
        let list = missed_views(r@);
        let env = solution.env(*graph);
        assert forall|k: int| 0 <= k < list.len() implies {
            let i = (#[trigger] list[k]).0.0 as int;
            &&& i < env.bodies.len()
            &&& list[k].1 == verify::missing(
                verdicts@,
                env.bodies[i],
                env.states[i].enabled,
                env.policy.suppressed@,
            )
            &&& list[k].1.len() > 0
        } by {
            assert(list[k] == missed_view(r@[k]));
        }
        assert forall|i: int|
            0 <= i < env.bodies.len() && (#[trigger] verify::missing(
                verdicts@,
                env.bodies[i],
                env.states[i].enabled,
                env.policy.suppressed@,
            )).len() > 0 implies exists|k: int| 0 <= k < list.len() && (#[trigger] list[k]).0.0 == i by {
            let k = choose|k: int| 0 <= k < r@.len() && (#[trigger] r@[k]).id.0 == i;
            assert(list[k].0.0 == i);
        }
        assert forall|a: int, b: int| 0 <= a < b < list.len() implies graph::alphabetical(
            env.bodies,
            (#[trigger] list[a]).0.0 as int,
            (#[trigger] list[b]).0.0 as int,
        ) by {
            assert(list[a].0 == r@[a].id);
            assert(list[b].0 == r@[b].id);
        }
    }
    r
}

/// Whether a list of findings can be rendered over a graph.
pub open spec fn renderable(findings: Seq<Finding>, bodies: Seq<BodyView>) -> bool {
    forall|k: int|
        0 <= k < findings.len() ==> (#[trigger] findings[k]).ids@.len() > 0 && forall|m: int|
            0 <= m < findings[k].ids@.len() ==> (#[trigger] findings[k].ids@[m]).0 < bodies.len()
}

/// Writes the human readable report.
fn human(
    graph: &Graph,
    solution: &Solution,
    args: &Args,
    findings: &Vec<Finding>,
    verdicts: Option<&Verdicts>,
    out: &mut String,
)
    requires
        solution.states().len() == graph@.bodies.len(),
        renderable(findings@, graph@.bodies),
    ensures
        exists|missed: Seq<(FuncId, Seq<Set<Category>>)>|
            (verdicts is Some && findings@.len() > 0 ==> is_missed(
                missed,
                solution.env(*graph),
                verdicts->0@,
            )) && final(out)@ == #[trigger] with_report(
                old(out)@,
                solution.env(*graph),
                graph@.config,
                args.suppress@,
                finding_views(findings@),
                facts_of(verdicts),
                missed,
            ),
{
    let ghost first = out@;
    let ghost env = solution.env(*graph);
    let ghost views = finding_views(findings@);
    let ghost facts = facts_of(verdicts);
    header(graph, args, findings.len(), out);
    if findings.len() == 0 {
        out.append("\nNo function can panic under this policy.\n");
        proof {
            let missed = Seq::<(FuncId, Seq<Set<Category>>)>::empty();
            assert(out@ == with_report(
                first,
                env,
                graph@.config,
                args.suppress@,
                views,
                facts,
                missed,
            ));
        }
        return;
    }
    out.append("\n");
    let ghost start = out@;
    let mut i: usize = 0;
    while i < findings.len()
        invariant
            i <= findings@.len(),
            env == solution.env(*graph),
            views == finding_views(findings@),
            facts == facts_of(verdicts),
            solution.states().len() == graph@.bodies.len(),
            renderable(findings@, graph@.bodies),
            out@ == with_findings(start, env, facts, views, i as nat),
        decreases findings.len() - i,
    {
        let finding = &findings[i];
        assert(views[i as int] == finding@);
        assert(findings@[i as int].ids@.len() > 0);
        assert(findings@[i as int].ids@[0].0 < graph@.bodies.len());
        let body = graph.body(finding.ids[0]);
        out.append(finding.name.as_str());
        out.append("\n");
        definition(&body.loc, out);
        let ghost from = out@;
        let list = finding.categories.iter();
        let mut k: usize = 0;
        while k < list.len()
            invariant
                k <= list@.len(),
                env == solution.env(*graph),
                facts == facts_of(verdicts),
                solution.states().len() == graph@.bodies.len(),
                forall|m: int|
                    0 <= m < finding.ids@.len() ==> (#[trigger] finding.ids@[m]).0
                        < graph@.bodies.len(),
                out@ == with_categories(from, env, facts, finding.ids@, list@, k as nat),
            decreases list.len() - k,
        {
            let category = list[k];
            out.append("    ");
            out.append(category.name());
            match direct_site(graph, solution, &finding.ids, category) {
                Some((id, at)) => {
                    let site = &graph.body(id).sites[at];
                    assert(env.bodies[id.0 as int].sites[at as int] == site@);
                    out.append(" ");
                    out.append(site.reason.as_str());
                    place(&site.loc, out);
                },
                None => {
                    out.append(" reached through a call");
                },
            }
            if let Some(known) = verdicts {
                let word = match verdict_of(graph, known, &finding.ids, category) {
                    Verdict::Confirmed => "confirmed in",
                    Verdict::Absent => "absent from",
                    Verdict::Unverified => "unverified in",
                };
                out.append(" (");
                out.append(word);
                out.append(" the compiled artifact)");
            }
            out.append("\n");
            k += 1;
        }
        out.append("\n");
        i += 1;
    }
    let ghost mut missed = Seq::<(FuncId, Seq<Set<Category>>)>::empty();
    if let Some(known) = verdicts {
        let list = missed_by(graph, solution, known);
        missed_prose(graph, &list, out);
        proof {
            missed = missed_views(list@);
        }
    }
    out.append("Run `panicgraph why <function>` to see a call path.\n");
    assert(out@ == with_report(first, env, graph@.config, args.suppress@, views, facts, missed));
}

/// The fields a workflow command wants of a `file:line:col` location, or
/// nothing at all when there is no location to name.
pub open spec fn location_fields(loc: Option<Seq<char>>) -> Seq<char> {
    match loc {
        None => Seq::empty(),
        Some(s) => match text::last_index(s, ':') {
            None => Seq::empty(),
            Some(j) => match text::last_index(s.take(j), ':') {
                None => Seq::empty(),
                Some(i) => "file="@ + s.take(i) + ",line="@ + s.subrange(i + 1, j) + ",col="@
                    + s.skip(j + 1) + ","@,
            },
        },
    }
}

/// Splits a `file:line:col` location into the fields a workflow command
/// wants, or nothing at all when there is no location to name.
pub fn workflow_location(loc: &Option<String>) -> (r: String)
    ensures
        r@ == location_fields(model::text_view(*loc)),
{
    let nothing = String::new();
    assert(nothing@ =~= Seq::empty());
    match loc {
        None => nothing,
        Some(s) => {
            let v = text::chars_of(s.as_str());
            assert(v@.take(v@.len() as int) =~= s@);
            match text::rfind(&v, ':', v.len()) {
                None => nothing,
                Some(j) => match text::rfind(&v, ':', j) {
                    None => nothing,
                    Some(i) => {
                        let mut out = "file=".to_owned();
                        out.append(text::text_of(v.as_slice(), 0, i).as_str());
                        out.append(",line=");
                        out.append(text::text_of(v.as_slice(), i + 1, j).as_str());
                        out.append(",col=");
                        out.append(text::text_of(v.as_slice(), j + 1, v.len()).as_str());
                        out.append(",");
                        assert(v@.subrange(0, i as int) =~= s@.take(i as int));
                        assert(v@.subrange(j + 1, v@.len() as int) =~= s@.skip(j + 1));
                        out
                    },
                },
            }
        },
    }
}

/// The text of an optional source position.
pub open spec fn place_text(loc: Option<LocView>) -> Option<Seq<char>> {
    match loc {
        Some(l) => Some(model::position(l)),
        None => None,
    }
}

/// The text of an optional source position.
pub fn place_of(loc: &Option<model::Loc>) -> (r: Option<String>)
    ensures
        model::text_view(r) == place_text(model::loc_view(*loc)),
{
    match loc {
        Some(l) => Some(l.text()),
        None => None,
    }
}

/// A text followed by one workflow command for each of the first `n` findings.
pub open spec fn with_warnings(
    out: Seq<char>,
    bodies: Seq<BodyView>,
    findings: Seq<FindingView>,
    n: nat,
) -> Seq<char>
    decreases n,
{
    if n == 0 {
        out
    } else {
        let out = with_warnings(out, bodies, findings, (n - 1) as nat);
        let f = findings[n - 1];
        out + "::warning "@ + location_fields(place_text(bodies[f.ids[0].0 as int].loc))
            + "title=Function can panic::"@ + f.name + " can panic with "@ + category::list_text(
            f.categories,
        ) + "\n"@
    }
}

/// Writes one workflow command per finding, which a continuous integration
/// log turns into an annotation against the source.
fn github(graph: &Graph, findings: &Vec<Finding>, out: &mut String)
    requires
        renderable(findings@, graph@.bodies),
    ensures
        final(out)@ == with_warnings(
            old(out)@,
            graph@.bodies,
            finding_views(findings@),
            findings@.len(),
        ),
{
    let ghost start = out@;
    let ghost views = finding_views(findings@);
    let mut i: usize = 0;
    while i < findings.len()
        invariant
            i <= findings@.len(),
            views == finding_views(findings@),
            renderable(findings@, graph@.bodies),
            out@ == with_warnings(start, graph@.bodies, views, i as nat),
        decreases findings.len() - i,
    {
        let finding = &findings[i];
        assert(views[i as int] == finding@);
        assert(findings@[i as int].ids@.len() > 0);
        assert(findings@[i as int].ids@[0].0 < graph@.bodies.len());
        let body = graph.body(finding.ids[0]);
        out.append("::warning ");
        out.append(workflow_location(&place_of(&body.loc)).as_str());
        out.append("title=Function can panic::");
        out.append(finding.name.as_str());
        out.append(" can panic with ");
        out.append(finding.categories.text().as_str());
        out.append("\n");
        i += 1;
    }
}

/// A text followed by the lines of the first `n` categories of the taxonomy.
pub open spec fn with_kinds(out: Seq<char>, n: nat) -> Seq<char>
    decreases n,
{
    if n == 0 {
        out
    } else {
        let c = category::ALL@[n - 1];
        with_kinds(out, (n - 1) as nat) + "  "@ + text::padded(c.spec_name(), 18) + " "@
            + c.spec_describe() + "\n"@
    }
}

/// Writes the taxonomy as prose.
pub fn kinds(out: &mut String)
    ensures
        final(out)@ == with_kinds(old(out)@ + "Panic categories\n\n"@, 21)
            + "\nGroup aliases: `oom` covers capacity-overflow and alloc-failure, `default` adds ub-check, `assumed` covers what the analysis could not read, `all` covers everything.\n"@,
{
    out.append("Panic categories\n\n");
    let ghost start = out@;
    let mut i: usize = 0;
    while i < category::ALL.len()
        invariant
            i <= category::ALL@.len(),
            out@ == with_kinds(start, i as nat),
        decreases category::ALL.len() - i,
    {
        let c = category::ALL[i];
        out.append("  ");
        text::append_padded(out, c.name(), 18);
        out.append(" ");
        out.append(c.describe());
        out.append("\n");
        i += 1;
    }
    out.append(
        "\nGroup aliases: `oom` covers capacity-overflow and alloc-failure, `default` adds ub-check, `assumed` covers what the analysis could not read, `all` covers everything.\n",
    );
}

/// What is said of functions that only suppression makes clean.
pub open spec fn hint_text(hidden: nat, suppressed: Set<Category>) -> Seq<char> {
    text::decimal(hidden) + " local functions panic only through suppressed categories ("@
        + category::list_text(suppressed) + ")."@
}

/// Suppressed categories that were nonetheless observed, for the hint line.
pub fn suppressed_hint(graph: &Graph, solution: &Solution, args: &Args) -> (r: Result<
    Option<String>,
    String,
>)
    requires
        solution.states().len() == graph@.bodies.len(),
    ensures
        r is Ok,
        args.suppress@ == Set::<Category>::empty() ==> r->Ok_0 is None,
        args.suppress@ != Set::<Category>::empty() ==> forall|
            policy: Policy,
            bare: Seq<solve::StateView>,
        |
            solve::bare_of(solution.spec_policy(), policy) && #[trigger] solve::solved(
                graph@.bodies,
                policy,
                bare,
            ) ==> {
                let hidden = solve::cleared(
                    graph@.bodies,
                    solution.states(),
                    bare,
                    graph@.bodies.len(),
                );
                if hidden > 0 {
                    r->Ok_0 is Some && r->Ok_0->0@ == hint_text(hidden, args.suppress@)
                } else {
                    r->Ok_0 is None
                }
            },
{
    if args.suppress.is_empty() {
        return Ok(None);
    }
    let hidden = match solution.cleared_by_suppression(graph) {
        Ok(n) => n,
        Err(message) => {
            return Err(message);
        },
    };
    if hidden == 0 {
        return Ok(None);
    }
    let mut out = text::number(hidden as u64);
    out.append(" local functions panic only through suppressed categories (");
    out.append(args.suppress.text().as_str());
    out.append(").");
    Ok(Some(out))
}

/// A build configuration as a document.
pub open spec fn config_doc(config: Option<ConfigView>) -> Json {
    match config {
        None => Json::Null,
        Some(c) => json::empty_object().with("rustc"@, Json::Str(c.rustc)).with(
            "profile"@,
            Json::Str(c.profile),
        ).with("debug_assertions"@, Json::Bool(c.debug_assertions)).with(
            "overflow_checks"@,
            Json::Bool(c.overflow_checks),
        ).with(
            "std_mode"@,
            Json::Str(
                match c.std_mode {
                    model::StdMode::Shipped => "Shipped"@,
                    model::StdMode::Full => "Full"@,
                },
            ),
        ).with(
            "mir_opt_level"@,
            match c.mir_opt_level {
                Some(level) => json::counted(level as nat),
                None => Json::Null,
            },
        ),
    }
}

/// A graph's build configuration as a document.
pub fn config_value(graph: &Graph) -> (r: serde_json::Value)
    ensures
        json::meaning(r) == config_doc(graph@.config),
{
    match graph.config() {
        None => json::null(),
        Some(config) => {
            let mut doc = json::object();
            json::put(&mut doc, "rustc", json::string(config.rustc.clone()));
            json::put(&mut doc, "profile", json::string(config.profile.clone()));
            json::put(&mut doc, "debug_assertions", json::flag(config.debug_assertions));
            json::put(&mut doc, "overflow_checks", json::flag(config.overflow_checks));
            let mode = match config.std_mode {
                model::StdMode::Shipped => "Shipped",
                model::StdMode::Full => "Full",
            };
            json::put(&mut doc, "std_mode", json::words(mode));
            let level = match config.mir_opt_level {
                Some(level) => json::number(level as u64),
                None => json::null(),
            };
            json::put(&mut doc, "mir_opt_level", level);
            doc
        },
    }
}

/// An object with a member for each of the first `n` categories of a list that
/// gives the artifact's verdict on it.
pub open spec fn verified_doc(
    facts: Map<Seq<char>, verify::FactsView>,
    bodies: Seq<BodyView>,
    ids: Seq<FuncId>,
    list: Seq<Category>,
    n: nat,
) -> Json
    decreases n,
{
    if n == 0 {
        json::empty_object()
    } else {
        verified_doc(facts, bodies, ids, list, (n - 1) as nat).with(
            list[n - 1].spec_name(),
            Json::Str(joint_verdict(facts, bodies, ids, list[n - 1]).spec_name()),
        )
    }
}

/// One finding as a document.
pub open spec fn finding_doc(
    bodies: Seq<BodyView>,
    facts: Option<Map<Seq<char>, verify::FactsView>>,
    f: FindingView,
) -> Json {
    let item = json::empty_object().with("function"@, Json::Str(f.name)).with(
        "crate"@,
        Json::Str(f.krate),
    ).with("location"@, json::optional(place_text(bodies[f.ids[0].0 as int].loc))).with(
        "categories"@,
        json::listed(category::names_of(f.categories)),
    );
    match facts {
        Some(known) => {
            let list = category::in_order(f.categories);
            item.with("verified"@, verified_doc(known, bodies, f.ids, list, list.len()))
        },
        None => item,
    }
}

/// One finding as a document.
fn finding_value(graph: &Graph, verdicts: Option<&Verdicts>, finding: &Finding) -> (r: serde_json::Value)
    requires
        finding.ids@.len() > 0,
        forall|m: int|
            0 <= m < finding.ids@.len() ==> (#[trigger] finding.ids@[m]).0 < graph@.bodies.len(),
    ensures
        json::meaning(r) == finding_doc(graph@.bodies, facts_of(verdicts), finding@),
{
    assert(finding.ids@[0].0 < graph@.bodies.len());
    let body = graph.body(finding.ids[0]);
    let mut item = json::object();
    json::put(&mut item, "function", json::string(finding.name.clone()));
    json::put(&mut item, "crate", json::string(finding.krate.clone()));
    json::put(&mut item, "location", json::maybe(&place_of(&body.loc)));
    json::put(&mut item, "categories", json::list(&finding.categories.names()));
    if let Some(known) = verdicts {
        let list = finding.categories.iter();
        let mut verified = json::object();
        let mut k: usize = 0;
        while k < list.len()
            invariant
                k <= list@.len(),
                forall|m: int|
                    0 <= m < finding.ids@.len() ==> (#[trigger] finding.ids@[m]).0
                        < graph@.bodies.len(),
                json::meaning(verified) == verified_doc(
                    known@,
                    graph@.bodies,
                    finding.ids@,
                    list@,
                    k as nat,
                ),
                json::meaning(verified) is Obj,
            decreases list.len() - k,
        {
            let word = verdict_of(graph, known, &finding.ids, list[k]).name();
            json::put(&mut verified, list[k].name(), json::words(word));
            k += 1;
        }
        json::put(&mut item, "verified", verified);
    }
    item
}

/// The documents of the first `n` sets of categories.
pub open spec fn reaches_docs(reaches: Seq<Set<Category>>) -> Seq<Json> {
    reaches.map_values(|s: Set<Category>| json::listed(category::names_of(s)))
}

/// A function that the artifact reaches more from than the report says, as a
/// document.
pub open spec fn missed_doc(
    sel: Selection,
    bodies: Seq<BodyView>,
    entry: (FuncId, Seq<Set<Category>>),
) -> Json {
    let body = bodies[entry.0.0 as int];
    json::empty_object().with(
        "function"@,
        Json::Str(select::shown_name(sel.closures, body.display)),
    ).with("crate"@, Json::Str(body.krate)).with(
        "location"@,
        json::optional(place_text(body.loc)),
    ).with("reaches"@, Json::Arr(reaches_docs(entry.1)))
}

/// A function that the artifact reaches more from than the report says, as a
/// document.
fn missed_value(graph: &Graph, sel: Selection, entry: &Missed) -> (r: serde_json::Value)
    requires
        entry.id.0 < graph@.bodies.len(),
    ensures
        json::meaning(r) == missed_doc(sel, graph@.bodies, missed_view(*entry)),
{
    let body = graph.body(entry.id);
    let mut item = json::object();
    json::put(&mut item, "function", json::words(sel.name(body)));
    json::put(&mut item, "crate", json::string(body.krate.clone()));
    json::put(&mut item, "location", json::maybe(&place_of(&body.loc)));
    let mut reaches: Vec<serde_json::Value> = Vec::new();
    let mut k: usize = 0;
    while k < entry.reaches.len()
        invariant
            k <= entry.reaches@.len(),
            reaches@.len() == k,
            forall|m: int|
                0 <= m < k ==> json::meaning(#[trigger] reaches@[m]) == json::listed(
                    category::names_of(entry.reaches@[m]@),
                ),
        decreases entry.reaches.len() - k,
    {
        reaches.push(json::list(&entry.reaches[k].names()));
        k += 1;
    }
    assert(json::meanings(reaches@) =~= reaches_docs(verify::sets_of(entry.reaches@)));
    json::put(&mut item, "reaches", json::array(reaches));
    item
}

/// The report of a graph as a document.
pub open spec fn report_doc(
    sel: Selection,
    bodies: Seq<BodyView>,
    config: Option<ConfigView>,
    findings: Seq<FindingView>,
    facts: Option<Map<Seq<char>, verify::FactsView>>,
    missed: Seq<(FuncId, Seq<Set<Category>>)>,
) -> Json {
    let doc = json::empty_object().with("config"@, config_doc(config)).with(
        "analysed"@,
        json::counted(bodies.len()),
    ).with(
        "findings"@,
        Json::Arr(findings.map_values(|f: FindingView| finding_doc(bodies, facts, f))),
    );
    if facts is Some {
        doc.with(
            "missed"@,
            Json::Arr(
                missed.map_values(
                    |m: (FuncId, Seq<Set<Category>>)| missed_doc(sel, bodies, m),
                ),
            ),
        )
    } else {
        doc
    }
}

/// Writes a document, with a line feed after it.
pub(crate) fn emit(doc: &serde_json::Value, out: &mut String) -> (r: Result<(), String>)
    ensures
        r is Ok,
        final(out)@ == old(out)@ + json::pretty(json::meaning(*doc)) + "\n"@,
{
    match json::write(doc) {
        Ok(text) => {
            out.append(text.as_str());
            out.append("\n");
            Ok(())
        },
        Err(_) => Err("the document could not be written".to_owned()),
    }
}

/// Writes the machine readable report.
fn json(
    graph: &Graph,
    solution: &Solution,
    findings: &Vec<Finding>,
    args: &Args,
    verdicts: Option<&Verdicts>,
    out: &mut String,
) -> (r: Result<(), String>)
    requires
        solution.states().len() == graph@.bodies.len(),
        renderable(findings@, graph@.bodies),
    ensures
        r is Ok,
        exists|missed: Seq<(FuncId, Seq<Set<Category>>)>|
            (verdicts is Some ==> is_missed(missed, solution.env(*graph), verdicts->0@))
                && final(out)@ == old(out)@ + json::pretty(
                #[trigger] report_doc(
                    Selection::spec_of(*args),
                    graph@.bodies,
                    graph@.config,
                    finding_views(findings@),
                    facts_of(verdicts),
                    missed,
                ),
            ) + "\n"@,
{
    let ghost start = out@;
    let ghost bodies = graph@.bodies;
    let ghost facts = facts_of(verdicts);
    let sel = Selection::of(args);
    let mut items: Vec<serde_json::Value> = Vec::new();
    let mut i: usize = 0;
    while i < findings.len()
        invariant
            i <= findings@.len(),
            bodies == graph@.bodies,
            facts == facts_of(verdicts),
            renderable(findings@, bodies),
            items@.len() == i,
            forall|k: int|
                0 <= k < i ==> json::meaning(#[trigger] items@[k]) == finding_doc(
                    bodies,
                    facts,
                    findings@[k]@,
                ),
        decreases findings.len() - i,
    {
        assert(findings@[i as int].ids@.len() > 0);
        items.push(finding_value(graph, verdicts, &findings[i]));
        i += 1;
    }
    let ghost views = finding_views(findings@);
    assert(json::meanings(items@) =~= views.map_values(
        |f: FindingView| finding_doc(bodies, facts, f),
    ));
    let mut doc = json::object();
    json::put(&mut doc, "config", config_value(graph));
    json::put(&mut doc, "analysed", json::number(graph.len() as u64));
    json::put(&mut doc, "findings", json::array(items));
    let ghost mut missed = Seq::<(FuncId, Seq<Set<Category>>)>::empty();
    if let Some(known) = verdicts {
        let list = missed_by(graph, solution, known);
        let mut lost: Vec<serde_json::Value> = Vec::new();
        let mut k: usize = 0;
        while k < list.len()
            invariant
                k <= list@.len(),
                bodies == graph@.bodies,
                forall|m: int| 0 <= m < list@.len() ==> (#[trigger] list@[m]).id.0 < bodies.len(),
                lost@.len() == k,
                forall|m: int|
                    0 <= m < k ==> json::meaning(#[trigger] lost@[m]) == missed_doc(
                        sel,
                        bodies,
                        missed_view(list@[m]),
                    ),
            decreases list.len() - k,
        {
            assert(list@[k as int].id.0 < bodies.len());
            lost.push(missed_value(graph, sel, &list[k]));
            k += 1;
        }
        proof {
            missed = missed_views(list@);
            assert(json::meanings(lost@) =~= missed.map_values(
                |m: (FuncId, Seq<Set<Category>>)| missed_doc(sel, bodies, m),
            ));
        }
        json::put(&mut doc, "missed", json::array(lost));
    }
    assert(json::meaning(doc) == report_doc(sel, bodies, graph@.config, views, facts, missed));
    emit(&doc, out)
}

/// Whether a text is what a rendering of given findings leaves after what was
/// written before.
pub open spec fn renders(
    env: Env,
    config: Option<ConfigView>,
    args: Args,
    facts: Option<Map<Seq<char>, verify::FactsView>>,
    before: Seq<char>,
    after: Seq<char>,
    findings: Seq<FindingView>,
    missed: Seq<(FuncId, Seq<Set<Category>>)>,
) -> bool {
    let sel = Selection::spec_of(args);
    match args.format {
        Format::Human => {
            &&& facts is Some && findings.len() > 0 ==> is_missed(missed, env, facts->0)
            &&& after == with_report(
                before,
                env,
                config,
                args.suppress@,
                findings,
                facts,
                missed,
            )
        },
        Format::Json => {
            &&& facts is Some ==> is_missed(missed, env, facts->0)
            &&& after == before + json::pretty(
                report_doc(sel, env.bodies, config, findings, facts, missed),
            ) + "\n"@
        },
        Format::Github => after == with_warnings(before, env.bodies, findings, findings.len()),
        // Handled before the report is built, because it draws the tree
        // rather than the list of findings.
        Format::Svg => after == before,
    }
}

/// Renders the result of an analysis.
///
/// # Errors
///
/// None: a document that was built can be written.
pub fn analysis(
    graph: &Graph,
    solution: &Solution,
    args: &Args,
    verdicts: Option<&Verdicts>,
    out: &mut String,
) -> (r: Result<(), String>)
    requires
        solution.states().len() == graph@.bodies.len(),
    ensures
        r is Ok,
        exists|findings: Seq<FindingView>, missed: Seq<(FuncId, Seq<Set<Category>>)>|
            is_report(
                findings,
                Selection::spec_of(*args),
                graph@.bodies,
                Selection::enabled_of(*solution),
            ) && #[trigger] renders(
                solution.env(*graph),
                graph@.config,
                *args,
                facts_of(verdicts),
                old(out)@,
                final(out)@,
                findings,
                missed,
            ),
{
    let ghost start = out@;
    let findings = collect(graph, solution, args);
    let ghost views = finding_views(findings@);
    let ghost env = solution.env(*graph);
    let ghost facts = facts_of(verdicts);
    let ghost none = Seq::<(FuncId, Seq<Set<Category>>)>::empty();
    match args.format {
        Format::Human => {
            human(graph, solution, args, &findings, verdicts, out);
            proof {
                let missed = choose|missed: Seq<(FuncId, Seq<Set<Category>>)>|
                    (verdicts is Some && findings@.len() > 0 ==> is_missed(
                        missed,
                        env,
                        verdicts->0@,
                    )) && out@ == #[trigger] with_report(
                        start,
                        env,
                        graph@.config,
                        args.suppress@,
                        views,
                        facts,
                        missed,
                    );
                assert(renders(env, graph@.config, *args, facts, start, out@, views, missed));
            }
        },
        Format::Json => {
            let r = json(graph, solution, &findings, args, verdicts, out);
            proof {
                let missed = choose|missed: Seq<(FuncId, Seq<Set<Category>>)>|
                    (verdicts is Some ==> is_missed(missed, env, verdicts->0@)) && out@ == start
                        + json::pretty(
                        #[trigger] report_doc(
                            Selection::spec_of(*args),
                            graph@.bodies,
                            graph@.config,
                            views,
                            facts,
                            missed,
                        ),
                    ) + "\n"@;
                assert(renders(env, graph@.config, *args, facts, start, out@, views, missed));
            }
            return r;
        },
        Format::Github => {
            github(graph, &findings, out);
            assert(renders(env, graph@.config, *args, facts, start, out@, views, none));
        },
        Format::Svg => {
            assert(renders(env, graph@.config, *args, facts, start, out@, views, none));
        },
    }
    Ok(())
}

/// The documents of the first `n` categories of the taxonomy.
pub open spec fn kind_docs(n: nat) -> Seq<Json> {
    Seq::new(
        n,
        |i: int|
            json::empty_object().with("name"@, Json::Str(category::ALL@[i].spec_name())).with(
                "describe"@,
                Json::Str(category::ALL@[i].spec_describe()),
            ).with("assumed"@, Json::Bool(category::unread().contains(category::ALL@[i]))),
    )
}

/// The categories and what each means, as a document. Each says whether its
/// name stands for a panic or for a place the analysis could not read.
pub(crate) fn kind_values() -> (r: serde_json::Value)
    ensures
        json::meaning(r) == Json::Arr(kind_docs(21)),
{
    let mut items: Vec<serde_json::Value> = Vec::new();
    let mut i: usize = 0;
    while i < category::ALL.len()
        invariant
            i <= category::ALL@.len(),
            json::meanings(items@) == kind_docs(i as nat),
        decreases category::ALL.len() - i,
    {
        let c = category::ALL[i];
        let ghost was = items@;
        let mut item = json::object();
        json::put(&mut item, "name", json::words(c.name()));
        json::put(&mut item, "describe", json::words(c.describe()));
        json::put(&mut item, "assumed", json::flag(CategorySet::assumed().contains(c)));
        items.push(item);
        assert(json::meanings(items@) =~= json::meanings(was).push(json::meaning(item)));
        assert(kind_docs((i + 1) as nat) =~= kind_docs(i as nat).push(json::meaning(item)));
        i += 1;
    }
    json::array(items)
}

/// The taxonomy as a document.
pub open spec fn kinds_doc() -> Json {
    json::empty_object().with("categories"@, Json::Arr(kind_docs(21))).with(
        "aliases"@,
        json::empty_object().with("oom"@, json::listed(category::names_of(category::allocation()))).with(
            "default"@,
            json::listed(
                category::names_of(category::allocation().insert(Category::UbCheck)),
            ),
        ).with("assumed"@, json::listed(category::names_of(category::unread()))).with(
            "all"@,
            json::listed(category::names_of(Set::full())),
        ),
    )
}

/// Lists the categories and what each means, for a machine.
pub fn kinds_json(out: &mut String) -> (r: Result<(), String>)
    ensures
        r is Ok,
        final(out)@ == old(out)@ + json::pretty(kinds_doc()) + "\n"@,
{
    let mut aliases = json::object();
    json::put(&mut aliases, "oom", json::list(&CategorySet::oom().names()));
    json::put(&mut aliases, "default", json::list(&CategorySet::default_suppressed().names()));
    json::put(&mut aliases, "assumed", json::list(&CategorySet::assumed().names()));
    json::put(&mut aliases, "all", json::list(&CategorySet::everything().names()));
    let mut doc = json::object();
    json::put(&mut doc, "categories", kind_values());
    json::put(&mut doc, "aliases", aliases);
    emit(&doc, out)
}

/// What the bodies that answer for one name raise together.
pub open spec fn raised_together(env: Env, ids: Seq<FuncId>) -> Set<Category> {
    Set::new(
        |c: Category|
            exists|k: int|
                0 <= k < ids.len() && env.states[(#[trigger] ids[k]).0 as int].enabled.contains(c),
    )
}

/// The first body of a list, from an index on, that raises a category.
pub open spec fn raiser(env: Env, ids: Seq<FuncId>, c: Category, from: int) -> FuncId
    decreases ids.len() - from,
{
    if from >= ids.len() {
        FuncId(0)
    } else if env.states[ids[from].0 as int].enabled.contains(c) {
        ids[from]
    } else {
        raiser(env, ids, c, from + 1)
    }
}

/// Whether there is a shortest path for each category of a list, from the
/// first body that raises it.
pub open spec fn are_paths(
    env: Env,
    ids: Seq<FuncId>,
    list: Seq<Category>,
    paths: Seq<witness::WitnessView>,
) -> bool {
    paths.len() == list.len() && forall|k: int|
        0 <= k < list.len() ==> witness::is_witness(
            env,
            raiser(env, ids, list[k], 0),
            list[k],
            #[trigger] paths[k],
        )
}

/// What the bodies that answer for one name raise together.
pub(crate) fn together(solution: &Solution, ids: &Vec<FuncId>, graph: Ghost<Graph>) -> (r: CategorySet)
    requires
        forall|k: int| 0 <= k < ids@.len() ==> (#[trigger] ids@[k]).0 < solution.states().len(),
    ensures
        r@ == raised_together(solution.env(graph@), ids@),
{
    let ghost env = solution.env(graph@);
    let mut set = CategorySet::empty();
    let mut i: usize = 0;
    assert(ids@.take(0) =~= Seq::empty());
    assert(set@ =~= raised_together(env, ids@.take(0)));
    while i < ids.len()
        invariant
            i <= ids@.len(),
            env == solution.env(graph@),
            forall|k: int| 0 <= k < ids@.len() ==> (#[trigger] ids@[k]).0 < solution.states().len(),
            set@ == raised_together(env, ids@.take(i as int)),
        decreases ids.len() - i,
    {
        assert(ids@[i as int].0 < solution.states().len());
        let ghost was = set@;
        set = set.union(solution.enabled(ids[i]));
        proof {
            let front = ids@.take(i as int);
            let now = ids@.take(i + 1);
            assert forall|c: Category| set@.contains(c) <==> raised_together(env, now).contains(c) by {
                if raised_together(env, front).contains(c) {
                    let k = choose|k: int|
                        0 <= k < front.len() && env.states[(
                        #[trigger] front[k]).0 as int].enabled.contains(c);
                    assert(now[k] == front[k]);
                }
                if raised_together(env, now).contains(c) {
                    let k = choose|k: int|
                        0 <= k < now.len() && env.states[(
                        #[trigger] now[k]).0 as int].enabled.contains(c);
                    if k < i {
                        assert(front[k] == now[k]);
                    }
                }
                assert(now[i as int] == ids@[i as int]);
            }
            assert(set@ =~= raised_together(env, now));
        }
        i += 1;
    }
    assert(ids@.take(i as int) =~= ids@);
    set
}

/// Finds a shortest path for each category of a list, from the first body that
/// raises it.
pub(crate) fn paths_of(graph: &Graph, solution: &Solution, ids: &Vec<FuncId>, list: &Vec<Category>) -> (r: Vec<
    (FuncId, Witness),
>)
    requires
        solution.solves(*graph),
        forall|k: int| 0 <= k < ids@.len() ==> (#[trigger] ids@[k]).0 < graph@.bodies.len(),
        forall|k: int|
            0 <= k < list@.len() ==> raised_together(solution.env(*graph), ids@).contains(
                #[trigger] list@[k],
            ),
    ensures
        r@.len() == list@.len(),
        forall|k: int|
            0 <= k < list@.len() ==> {
                &&& (#[trigger] r@[k]).0 == raiser(solution.env(*graph), ids@, list@[k], 0)
                &&& r@[k].0.0 < graph@.bodies.len()
                &&& witness::is_witness(solution.env(*graph), r@[k].0, list@[k], r@[k].1@)
            },
{
    let ghost env = solution.env(*graph);
    let mut out: Vec<(FuncId, Witness)> = Vec::new();
    let mut k: usize = 0;
    while k < list.len()
        invariant
            k <= list@.len(),
            env == solution.env(*graph),
            solution.solves(*graph),
            forall|k: int| 0 <= k < ids@.len() ==> (#[trigger] ids@[k]).0 < graph@.bodies.len(),
            forall|k: int|
                0 <= k < list@.len() ==> raised_together(env, ids@).contains(#[trigger] list@[k]),
            out@.len() == k,
            forall|m: int|
                0 <= m < k ==> {
                    &&& (#[trigger] out@[m]).0 == raiser(env, ids@, list@[m], 0)
                    &&& out@[m].0.0 < graph@.bodies.len()
                    &&& witness::is_witness(env, out@[m].0, list@[m], out@[m].1@)
                },
        decreases list.len() - k,
    {
        let c = list[k];
        assert(raised_together(env, ids@).contains(list@[k as int]));
        let mut i: usize = 0;
        let ghost had = out@;
        while i < ids.len()
            invariant_except_break
                i <= ids@.len(),
                out@ == had,
                forall|m: int|
                    0 <= m < i ==> !env.states[(#[trigger] ids@[m]).0 as int].enabled.contains(c),
                raiser(env, ids@, c, 0) == raiser(env, ids@, c, i as int),
            invariant
                env == solution.env(*graph),
                solution.solves(*graph),
                forall|k: int| 0 <= k < ids@.len() ==> (#[trigger] ids@[k]).0 < graph@.bodies.len(),
                raised_together(env, ids@).contains(c),
            ensures
                out@.len() == had.len() + 1,
                forall|m: int| 0 <= m < had.len() ==> out@[m] == had[m],
                out@[had.len() as int].0 == raiser(env, ids@, c, 0),
                out@[had.len() as int].0.0 < graph@.bodies.len(),
                witness::is_witness(
                    env,
                    out@[had.len() as int].0,
                    c,
                    out@[had.len() as int].1@,
                ),
            decreases ids.len() - i,
        {
            let id = ids[i];
            assert(ids@[i as int].0 < graph@.bodies.len());
            match witness::find(graph, solution, id, c) {
                Some(w) => {
                    out.push((id, w));
                    break;
                },
                None => {},
            }
            i += 1;
            proof {
                if i == ids.len() {
                    let m = choose|m: int|
                        0 <= m < ids@.len() && env.states[(
                        #[trigger] ids@[m]).0 as int].enabled.contains(c);
                    assert(false);
                }
            }
        }
        assert forall|m: int| 0 <= m < k + 1 implies {
            &&& (#[trigger] out@[m]).0 == raiser(env, ids@, list@[m], 0)
            &&& out@[m].0.0 < graph@.bodies.len()
            &&& witness::is_witness(env, out@[m].0, list@[m], out@[m].1@)
        } by {
            if m < k {
                assert(out@[m] == had[m]);
            }
        }
        k += 1;
    }
    out
}

/// A text followed by the first `n` calls of a path.
pub open spec fn with_hops(
    out: Seq<char>,
    bodies: Seq<BodyView>,
    hops: Seq<witness::HopView>,
    n: nat,
) -> Seq<char>
    decreases n,
{
    if n == 0 {
        out
    } else {
        let out = with_hops(out, bodies, hops, (n - 1) as nat);
        let hop = hops[n - 1];
        let out = match hop.loc {
            Some(l) => out + "      at "@ + model::position(l) + "  ["@ + hop.kind.spec_name()
                + "]\n"@,
            None => out,
        };
        out + "  -> "@ + bodies[hop.callee.0 as int].display + "\n"@
    }
}

/// A text followed by what a path ends at.
pub open spec fn with_terminal(out: Seq<char>, body: BodyView, terminal: Terminal) -> Seq<char> {
    match terminal {
        Terminal::Site(i) => {
            let site = body.sites[i as int];
            with_place(out + "      "@ + site.reason, site.loc) + "\n"@
        },
        Terminal::Opaque => if body.foreign {
            out + "      foreign code, which has no Rust body to read\n"@
        } else {
            out + "      no MIR available for this function, so its panics are unknown\n"@
                + "      re-run with `--std full` to see inside the standard library\n"@
        },
        Terminal::Unresolved(i) => {
            let call = body.calls[i as int];
            with_place(
                out + "      calls "@ + call.callee_display + " through a "@
                    + call.kind.spec_name() + " edge, target unknown"@,
                call.loc,
            ) + "\n"@
        },
    }
}

/// Writes the last line of a witness path.
fn describe_terminal(graph: &Graph, path: &Witness, out: &mut String)
    requires
        path.func.0 < graph@.bodies.len(),
        match path.terminal {
            Terminal::Site(i) => i < graph@.bodies[path.func.0 as int].sites.len(),
            Terminal::Opaque => true,
            Terminal::Unresolved(i) => i < graph@.bodies[path.func.0 as int].calls.len(),
        },
    ensures
        final(out)@ == with_terminal(old(out)@, graph@.bodies[path.func.0 as int], path.terminal),
{
    let body = graph.body(path.func);
    match path.terminal {
        Terminal::Site(i) => {
            let site = &body.sites[i];
            assert(body@.sites[i as int] == site@);
            out.append("      ");
            out.append(site.reason.as_str());
            place(&site.loc, out);
            out.append("\n");
        },
        Terminal::Opaque => {
            if body.foreign {
                out.append("      foreign code, which has no Rust body to read\n");
            } else {
                out.append(
                    "      no MIR available for this function, so its panics are unknown\n",
                );
                out.append(
                    "      re-run with `--std full` to see inside the standard library\n",
                );
            }
        },
        Terminal::Unresolved(i) => {
            let call = &body.calls[i];
            assert(body@.calls[i as int] == call@);
            out.append("      calls ");
            out.append(call.callee_display.as_str());
            out.append(" through a ");
            out.append(call.kind.name());
            out.append(" edge, target unknown");
            place(&call.loc, out);
            out.append("\n");
        },
    }
}

/// A text followed by the paragraphs of the first `n` categories that a
/// function raises.
pub open spec fn with_paths(
    out: Seq<char>,
    env: Env,
    display: Seq<char>,
    ids: Seq<FuncId>,
    list: Seq<Category>,
    paths: Seq<witness::WitnessView>,
    n: nat,
) -> Seq<char>
    decreases n,
{
    if n == 0 {
        out
    } else {
        let out = with_paths(out, env, display, ids, list, paths, (n - 1) as nat);
        let c = list[n - 1];
        let w = paths[n - 1];
        let out = out + display + " can panic with `"@ + c.spec_name() + "`:\n\n"@;
        let out = out + "  "@ + env.bodies[raiser(env, ids, c, 0).0 as int].display + "\n"@;
        let out = with_hops(out, env.bodies, w.hops, w.hops.len());
        with_terminal(out, env.bodies[w.func.0 as int], w.terminal) + "\n"@
    }
}

/// How many of a list of functions have a given path.
pub open spec fn named_so(bodies: Seq<BodyView>, list: Seq<FuncId>, display: Seq<char>, n: nat) -> nat
    decreases n,
{
    if n == 0 {
        0
    } else {
        named_so(bodies, list, display, (n - 1) as nat) + (if bodies[list[n - 1].0 as int].display
            == display {
            1nat
        } else {
            0
        })
    }
}

/// The explanation of a function as prose, after what is already written.
pub open spec fn with_why(
    out: Seq<char>,
    env: Env,
    sel: Selection,
    name: Seq<char>,
    matches: Seq<FuncId>,
    paths: Seq<witness::WitnessView>,
) -> Seq<char> {
    if matches.len() == 0 {
        out + "No function matching `"@ + name + "` was analysed.\n"@
    } else {
        let id = matches[0];
        let display = env.bodies[id.0 as int].display;
        let ids = select::with_first(sel.known_as(env.bodies, id), id);
        let out = if named_so(env.bodies, matches, display, matches.len()) < matches.len() {
            out + "`"@ + name + "` matched "@ + text::decimal(matches.len())
                + " functions; explaining `"@ + display + "`.\n\n"@
        } else {
            out
        };
        let out = if ids.len() > 1 {
            out + "`"@ + display + "` has "@ + text::decimal(ids.len())
                + " bodies; each panic is explained from one that reaches it.\n\n"@
        } else {
            out
        };
        let set = raised_together(env, ids);
        if set == Set::<Category>::empty() {
            out + display + " cannot panic under this policy.\n"@
        } else {
            let list = category::in_order(set);
            with_paths(out, env, display, ids, list, paths, list.len())
        }
    }
}

/// The hops of a path as documents.
pub open spec fn hop_docs(bodies: Seq<BodyView>, hops: Seq<witness::HopView>) -> Seq<Json> {
    hops.map_values(
        |h: witness::HopView|
            json::empty_object().with(
                "function"@,
                Json::Str(bodies[h.callee.0 as int].display),
            ).with("kind"@, Json::Str(h.kind.spec_name())).with(
                "location"@,
                json::optional(place_text(h.loc)),
            ),
    )
}

/// What the end of a path raises, as a document.
pub open spec fn ending_doc(body: BodyView, terminal: Terminal) -> Json {
    match terminal {
        Terminal::Site(i) => json::empty_object().with("kind"@, Json::Str("site"@)).with(
            "reason"@,
            Json::Str(body.sites[i as int].reason),
        ).with("location"@, json::optional(place_text(body.sites[i as int].loc))),
        Terminal::Opaque => json::empty_object().with(
            "kind"@,
            Json::Str(
                if body.foreign {
                    "foreign"@
                } else {
                    "opaque"@
                },
            ),
        ),
        Terminal::Unresolved(i) => json::empty_object().with(
            "kind"@,
            Json::Str("unresolved"@),
        ).with("callee"@, Json::Str(body.calls[i as int].callee_display)).with(
            "edge"@,
            Json::Str(body.calls[i as int].kind.spec_name()),
        ).with("location"@, json::optional(place_text(body.calls[i as int].loc))),
    }
}

/// What the end of a witness path raises, as a document.
fn ending(graph: &Graph, path: &Witness) -> (r: serde_json::Value)
    requires
        path.func.0 < graph@.bodies.len(),
        match path.terminal {
            Terminal::Site(i) => i < graph@.bodies[path.func.0 as int].sites.len(),
            Terminal::Opaque => true,
            Terminal::Unresolved(i) => i < graph@.bodies[path.func.0 as int].calls.len(),
        },
    ensures
        json::meaning(r) == ending_doc(graph@.bodies[path.func.0 as int], path.terminal),
{
    let body = graph.body(path.func);
    let mut doc = json::object();
    match path.terminal {
        Terminal::Site(i) => {
            let site = &body.sites[i];
            assert(body@.sites[i as int] == site@);
            json::put(&mut doc, "kind", json::words("site"));
            json::put(&mut doc, "reason", json::string(site.reason.clone()));
            json::put(&mut doc, "location", json::maybe(&place_of(&site.loc)));
        },
        Terminal::Opaque => {
            let kind = if body.foreign {
                "foreign"
            } else {
                "opaque"
            };
            json::put(&mut doc, "kind", json::words(kind));
        },
        Terminal::Unresolved(i) => {
            let call = &body.calls[i];
            assert(body@.calls[i as int] == call@);
            json::put(&mut doc, "kind", json::words("unresolved"));
            json::put(&mut doc, "callee", json::string(call.callee_display.clone()));
            json::put(&mut doc, "edge", json::words(call.kind.name()));
            json::put(&mut doc, "location", json::maybe(&place_of(&call.loc)));
        },
    }
    doc
}

/// One path as a document.
pub open spec fn path_doc(
    bodies: Seq<BodyView>,
    root: FuncId,
    c: Category,
    w: witness::WitnessView,
) -> Json {
    json::empty_object().with("category"@, Json::Str(c.spec_name())).with(
        "from"@,
        Json::Str(bodies[root.0 as int].display),
    ).with("hops"@, Json::Arr(hop_docs(bodies, w.hops))).with(
        "ending"@,
        ending_doc(bodies[w.func.0 as int], w.terminal),
    )
}

/// One path as a document.
fn path_value(graph: &Graph, root: FuncId, c: Category, path: &Witness, env: Ghost<Env>) -> (r: serde_json::Value)
    requires
        root.0 < graph@.bodies.len(),
        env@.bodies == graph@.bodies,
        witness::is_witness(env@, root, c, path@),
    ensures
        json::meaning(r) == path_doc(graph@.bodies, root, c, path@),
{
    proof {
        witness::path_stays(
            env@,
            witness::Spot { func: root, caught: false },
            path@.hops,
            path@.func,
            path@.terminal,
            c,
        );
    }
    let ghost bodies = graph@.bodies;
    let mut hops: Vec<serde_json::Value> = Vec::new();
    let mut i: usize = 0;
    while i < path.hops.len()
        invariant
            i <= path.hops@.len(),
            bodies == graph@.bodies,
            forall|k: int|
                0 <= k < path@.hops.len() ==> (#[trigger] path@.hops[k]).callee.0 < bodies.len(),
            hops@.len() == i,
            forall|k: int|
                0 <= k < i ==> json::meaning(#[trigger] hops@[k]) == hop_docs(bodies, path@.hops)[k],
        decreases path.hops.len() - i,
    {
        let hop = &path.hops[i];
        assert(path@.hops[i as int] == hop@);
        let mut item = json::object();
        json::put(
            &mut item,
            "function",
            json::string(graph.body(hop.callee).display.clone()),
        );
        json::put(&mut item, "kind", json::words(hop.kind.name()));
        json::put(&mut item, "location", json::maybe(&place_of(&hop.loc)));
        hops.push(item);
        i += 1;
    }
    assert(json::meanings(hops@) =~= hop_docs(bodies, path@.hops));
    let mut doc = json::object();
    json::put(&mut doc, "category", json::words(c.name()));
    json::put(&mut doc, "from", json::string(graph.body(root).display.clone()));
    json::put(&mut doc, "hops", json::array(hops));
    json::put(&mut doc, "ending", ending(graph, path));
    doc
}

/// The explanation of a function as a document.
pub open spec fn why_doc(
    env: Env,
    sel: Selection,
    name: Seq<char>,
    matches: Seq<FuncId>,
    paths: Seq<witness::WitnessView>,
) -> Json {
    if matches.len() == 0 {
        json::empty_object().with("query"@, Json::Str(name)).with("matched"@, json::counted(0))
    } else {
        let id = matches[0];
        let body = env.bodies[id.0 as int];
        let ids = select::with_first(sel.known_as(env.bodies, id), id);
        let list = category::in_order(raised_together(env, ids));
        json::empty_object().with("query"@, Json::Str(name)).with(
            "matched"@,
            json::counted(matches.len()),
        ).with("bodies"@, json::counted(ids.len())).with("function"@, Json::Str(body.display)).with(
            "crate"@,
            Json::Str(body.krate),
        ).with("location"@, json::optional(place_text(body.loc))).with(
            "categories"@,
            json::listed(category::names_of(raised_together(env, ids))),
        ).with(
            "paths"@,
            Json::Arr(
                Seq::new(
                    list.len(),
                    |k: int|
                        path_doc(env.bodies, raiser(env, ids, list[k], 0), list[k], paths[k]),
                ),
            ),
        )
    }
}

/// Whether a text is what an explanation leaves after what was written before.
pub open spec fn tells_why(
    env: Env,
    args: Args,
    name: Seq<char>,
    before: Seq<char>,
    after: Seq<char>,
    matches: Seq<FuncId>,
    paths: Seq<witness::WitnessView>,
) -> bool {
    let sel = Selection::spec_of(args);
    &&& matches.len() > 0 ==> {
        let ids = select::with_first(sel.known_as(env.bodies, matches[0]), matches[0]);
        are_paths(env, ids, category::in_order(raised_together(env, ids)), paths)
    }
    &&& after == (if args.format is Json {
        before + json::pretty(why_doc(env, sel, name, matches, paths)) + "\n"@
    } else {
        with_why(before, env, sel, name, matches, paths)
    })
}

/// Writes the hops of a path.
fn hops_prose(graph: &Graph, path: &Witness, out: &mut String)
    requires
        forall|k: int|
            0 <= k < path@.hops.len() ==> (#[trigger] path@.hops[k]).callee.0 < graph@.bodies.len(),
    ensures
        final(out)@ == with_hops(old(out)@, graph@.bodies, path@.hops, path@.hops.len()),
{
    let ghost start = out@;
    let mut i: usize = 0;
    while i < path.hops.len()
        invariant
            i <= path.hops@.len(),
            forall|k: int|
                0 <= k < path@.hops.len() ==> (#[trigger] path@.hops[k]).callee.0
                    < graph@.bodies.len(),
            out@ == with_hops(start, graph@.bodies, path@.hops, i as nat),
        decreases path.hops.len() - i,
    {
        let hop = &path.hops[i];
        assert(path@.hops[i as int] == hop@);
        if let Some(loc) = &hop.loc {
            out.append("      at ");
            out.append(loc.text().as_str());
            out.append("  [");
            out.append(hop.kind.name());
            out.append("]\n");
        }
        out.append("  -> ");
        out.append(graph.body(hop.callee).display.as_str());
        out.append("\n");
        i += 1;
    }
}

/// The paths of a list of witnesses.
pub open spec fn path_views(found: Seq<(FuncId, Witness)>) -> Seq<witness::WitnessView> {
    found.map_values(|p: (FuncId, Witness)| p.1@)
}

/// Whether what was found answers for each category of a list.
pub open spec fn answers(
    env: Env,
    ids: Seq<FuncId>,
    list: Seq<Category>,
    found: Seq<(FuncId, Witness)>,
) -> bool {
    found.len() == list.len() && forall|k: int|
        0 <= k < list.len() ==> {
            &&& (#[trigger] found[k]).0 == raiser(env, ids, list[k], 0)
            &&& found[k].0.0 < env.bodies.len()
            &&& witness::is_witness(env, found[k].0, list[k], found[k].1@)
        }
}

/// The documents of the paths of a function.
fn path_values(
    graph: &Graph,
    ids: &Vec<FuncId>,
    list: &Vec<Category>,
    found: &Vec<(FuncId, Witness)>,
    env: Ghost<Env>,
) -> (r: serde_json::Value)
    requires
        env@.bodies == graph@.bodies,
        answers(env@, ids@, list@, found@),
    ensures
        json::meaning(r) == Json::Arr(
            Seq::new(
                list@.len(),
                |k: int|
                    path_doc(
                        env@.bodies,
                        raiser(env@, ids@, list@[k], 0),
                        list@[k],
                        path_views(found@)[k],
                    ),
            ),
        ),
{
    let ghost bodies = graph@.bodies;
    let mut items: Vec<serde_json::Value> = Vec::new();
    let mut k: usize = 0;
    while k < found.len()
        invariant
            k <= found@.len() == list@.len(),
            env@.bodies == graph@.bodies,
            bodies == graph@.bodies,
            answers(env@, ids@, list@, found@),
            items@.len() == k,
            forall|m: int|
                0 <= m < k ==> json::meaning(#[trigger] items@[m]) == path_doc(
                    bodies,
                    raiser(env@, ids@, list@[m], 0),
                    list@[m],
                    path_views(found@)[m],
                ),
        decreases found.len() - k,
    {
        assert(found@[k as int].0.0 < bodies.len());
        items.push(path_value(graph, found[k].0, list[k], &found[k].1, env));
        k += 1;
    }
    assert(json::meanings(items@) =~= Seq::new(
        list@.len(),
        |k: int|
            path_doc(bodies, raiser(env@, ids@, list@[k], 0), list@[k], path_views(found@)[k]),
    ));
    json::array(items)
}

/// Counts how many of a list of functions have a given path.
fn count_named(graph: &Graph, list: &Vec<FuncId>, display: &str) -> (r: usize)
    requires
        forall|k: int| 0 <= k < list@.len() ==> (#[trigger] list@[k]).0 < graph@.bodies.len(),
    ensures
        r == named_so(graph@.bodies, list@, display@, list@.len()),
{
    let mut same: usize = 0;
    let mut m: usize = 0;
    while m < list.len()
        invariant
            m <= list@.len(),
            forall|k: int| 0 <= k < list@.len() ==> (#[trigger] list@[k]).0 < graph@.bodies.len(),
            same <= m,
            same == named_so(graph@.bodies, list@, display@, m as nat),
        decreases list.len() - m,
    {
        assert(list@[m as int].0 < graph@.bodies.len());
        if text::same(graph.body(list[m]).display.as_str(), display) {
            same += 1;
        }
        m += 1;
    }
    same
}

/// Writes a paragraph per category that a function raises.
fn paths_prose(
    graph: &Graph,
    display: &str,
    ids: &Vec<FuncId>,
    list: &Vec<Category>,
    found: &Vec<(FuncId, Witness)>,
    env: Ghost<Env>,
    out: &mut String,
)
    requires
        env@.bodies == graph@.bodies,
        answers(env@, ids@, list@, found@),
    ensures
        final(out)@ == with_paths(
            old(out)@,
            env@,
            display@,
            ids@,
            list@,
            path_views(found@),
            list@.len(),
        ),
{
    let ghost start = out@;
    let mut k: usize = 0;
    while k < found.len()
        invariant
            k <= found@.len() == list@.len(),
            env@.bodies == graph@.bodies,
            answers(env@, ids@, list@, found@),
            out@ == with_paths(start, env@, display@, ids@, list@, path_views(found@), k as nat),
        decreases found.len() - k,
    {
        assert(found@[k as int].0.0 < graph@.bodies.len());
        let root = found[k].0;
        let path = &found[k].1;
        let c = list[k];
        assert(path_views(found@)[k as int] == path@);
        proof {
            witness::path_stays(
                env@,
                witness::Spot { func: root, caught: false },
                path@.hops,
                path@.func,
                path@.terminal,
                c,
            );
        }
        out.append(display);
        out.append(" can panic with `");
        out.append(c.name());
        out.append("`:\n\n");
        out.append("  ");
        out.append(graph.body(root).display.as_str());
        out.append("\n");
        hops_prose(graph, path, out);
        describe_terminal(graph, path, out);
        out.append("\n");
        k += 1;
    }
}

/// Writes that no function matched.
fn unmatched(args: &Args, name: &str, out: &mut String, env: Ghost<Env>) -> (r: Result<(), String>)
    ensures
        r is Ok,
        tells_why(
            env@,
            *args,
            name@,
            old(out)@,
            final(out)@,
            Seq::<FuncId>::empty(),
            Seq::<witness::WitnessView>::empty(),
        ),
{
    match args.format {
        Format::Json => {
            let mut doc = json::object();
            json::put(&mut doc, "query", json::words(name));
            json::put(&mut doc, "matched", json::number(0));
            emit(&doc, out)
        },
        _ => {
            out.append("No function matching `");
            out.append(name);
            out.append("` was analysed.\n");
            Ok(())
        },
    }
}

/// The explanation of a function that matched, as a document.
fn why_value(
    graph: &Graph,
    sel: &Selection,
    name: &str,
    matches: &Vec<FuncId>,
    ids: &Vec<FuncId>,
    categories: CategorySet,
    found: &Vec<(FuncId, Witness)>,
    env: Ghost<Env>,
) -> (r: serde_json::Value)
    requires
        env@.bodies == graph@.bodies,
        matches@.len() > 0,
        matches@[0].0 < graph@.bodies.len(),
        ids@ == select::with_first(sel.known_as(graph@.bodies, matches@[0]), matches@[0]),
        categories@ == raised_together(env@, ids@),
        answers(env@, ids@, category::in_order(categories@), found@),
    ensures
        json::meaning(r) == why_doc(env@, *sel, name@, matches@, path_views(found@)),
{
    let body = graph.body(matches[0]);
    let list = categories.iter();
    let paths = path_values(graph, ids, &list, found, env);
    let mut doc = json::object();
    json::put(&mut doc, "query", json::words(name));
    json::put(&mut doc, "matched", json::number(matches.len() as u64));
    json::put(&mut doc, "bodies", json::number(ids.len() as u64));
    json::put(&mut doc, "function", json::string(body.display.clone()));
    json::put(&mut doc, "crate", json::string(body.krate.clone()));
    json::put(&mut doc, "location", json::maybe(&place_of(&body.loc)));
    json::put(&mut doc, "categories", json::list(&categories.names()));
    json::put(&mut doc, "paths", paths);
    doc
}

/// Writes the explanation of a function that matched, as prose.
fn why_prose(
    graph: &Graph,
    sel: Ghost<Selection>,
    name: &str,
    matches: &Vec<FuncId>,
    ids: &Vec<FuncId>,
    categories: CategorySet,
    found: &Vec<(FuncId, Witness)>,
    env: Ghost<Env>,
    out: &mut String,
)
    requires
        env@.bodies == graph@.bodies,
        matches@.len() > 0,
        forall|k: int| 0 <= k < matches@.len() ==> (#[trigger] matches@[k]).0 < graph@.bodies.len(),
        ids@ == select::with_first(sel@.known_as(graph@.bodies, matches@[0]), matches@[0]),
        categories@ == raised_together(env@, ids@),
        answers(env@, ids@, category::in_order(categories@), found@),
    ensures
        final(out)@ == with_why(old(out)@, env@, sel@, name@, matches@, path_views(found@)),
{
    let list = categories.iter();
    assert(matches@[0].0 < graph@.bodies.len());
    let body = graph.body(matches[0]);
    let display = body.display.as_str();
    let same = count_named(graph, matches, display);
    if same < matches.len() {
        out.append("`");
        out.append(name);
        out.append("` matched ");
        out.append(text::number(matches.len() as u64).as_str());
        out.append(" functions; explaining `");
        out.append(display);
        out.append("`.\n\n");
    }
    if ids.len() > 1 {
        out.append("`");
        out.append(display);
        out.append("` has ");
        out.append(text::number(ids.len() as u64).as_str());
        out.append(" bodies; each panic is explained from one that reaches it.\n\n");
    }
    if categories.is_empty() {
        out.append(display);
        out.append(" cannot panic under this policy.\n");
    } else {
        paths_prose(graph, display, ids, &list, found, env, out);
    }
}

/// Explains how one function reaches its panics.
///
/// Every body that reports under the function's name answers for it, so each
/// panic that the report names is explained, from the first of them that
/// reaches it.
pub fn why(graph: &Graph, solution: &Solution, args: &Args, name: &str, out: &mut String) -> (r: Result<
    (),
    String,
>)
    requires
        solution.solves(*graph),
    ensures
        r is Ok,
        exists|matches: Seq<FuncId>, paths: Seq<witness::WitnessView>|
            graph::is_match(graph@.bodies, name@, matches) && #[trigger] tells_why(
                solution.env(*graph),
                *args,
                name@,
                old(out)@,
                final(out)@,
                matches,
                paths,
            ),
{
    let ghost env = solution.env(*graph);
    let ghost first = out@;
    let sel = Selection::of(args);
    let matches = graph.find_by_display(name);
    if matches.len() == 0 {
        assert(matches@ =~= Seq::<FuncId>::empty());
        return unmatched(args, name, out, Ghost(env));
    }
    let id = matches[0];
    assert forall|k: int| 0 <= k < matches@.len() implies (#[trigger] matches@[k]).0
        < graph@.bodies.len() by {
        assert(matches@.contains(matches@[k]));
    }
    assert(matches@[0].0 < graph@.bodies.len());
    let ids = sel.namesakes(graph, id);
    let categories = together(solution, &ids, Ghost(*graph));
    let list = categories.iter();
    assert forall|k: int| 0 <= k < list@.len() implies raised_together(env, ids@).contains(
        #[trigger] list@[k],
    ) by {
        assert(list@.contains(list@[k]));
    }
    let found = paths_of(graph, solution, &ids, &list);
    let ghost paths = path_views(found@);
    assert(are_paths(env, ids@, list@, paths)) by {
        assert forall|k: int| 0 <= k < list@.len() implies witness::is_witness(
            env,
            raiser(env, ids@, list@[k], 0),
            list@[k],
            #[trigger] paths[k],
        ) by {
            assert(paths[k] == found@[k].1@);
        }
    }
    match args.format {
        Format::Json => {
            let doc = why_value(graph, &sel, name, &matches, &ids, categories, &found, Ghost(env));
            let r = emit(&doc, out);
            assert(tells_why(env, *args, name@, first, out@, matches@, paths));
            r
        },
        _ => {
            why_prose(
                graph,
                Ghost(sel),
                name,
                &matches,
                &ids,
                categories,
                &found,
                Ghost(env),
                out,
            );
            assert(tells_why(env, *args, name@, first, out@, matches@, paths));
            Ok(())
        },
    }
}

} // verus!
