//! What a continuous integration run lets pass of the findings.
//!
//! A check answers one question: are the functions that must not panic still
//! unable to? Everything here exists to make the answer legible when it is
//! no, and quiet when it is yes.

use vstd::prelude::*;

use crate::args::{Args, Check, Format};
use crate::category::{Category, CategorySet};
use crate::graph::{FuncId, Graph};
use crate::json::Json;
use crate::lists::Order;
use crate::model::{BodyView, LocView};
use crate::select::Selection;
use crate::solve::Solution;
use crate::table::Table;
use crate::{category, json, lists, model, report, table, text};

verus! {

/// The format version written into a baseline.
pub const BASELINE_VERSION: u32 = 2;

#[verifier::external_type_specification]
#[verifier::external_body]
pub struct ExRegexSet(regex::RegexSet);

/// The patterns a `regex::RegexSet` was made of.
pub uninterp spec fn patterns_of(set: regex::RegexSet) -> Seq<Seq<char>>;

/// Whether one of a list of patterns matches somewhere in a text, as
/// `regex::RegexSet::is_match` tells.
pub uninterp spec fn hits(patterns: Seq<Seq<char>>, s: Seq<char>) -> bool;

/// Whether a pattern is written as `regex::RegexSet::new` reads one: its
/// parser takes it, and what it names exists. The text alone decides.
pub uninterp spec fn parses(pattern: Seq<char>) -> bool;

/// Whether each of a list of patterns is written as one is read.
pub open spec fn all_parse(patterns: Seq<Seq<char>>) -> bool {
    forall|i: int| 0 <= i < patterns.len() ==> parses(#[trigger] patterns[i])
}

/// `regex::RegexSet::new` makes a set of patterns, or says why it cannot,
/// which never happens where there is none. It reads every pattern before it
/// compiles any, so it makes none of a list that holds one it cannot read.
/// Whether it can make one of patterns it reads is left open: that depends on
/// how much memory they take once compiled, which differs between machines.
#[verifier::external_body]
fn pattern_set(patterns: &Vec<String>) -> (r: Result<regex::RegexSet, String>)
    ensures
        match r {
            Ok(set) => patterns_of(set) == text::texts(patterns@) && forall|i: int|
                0 <= i < patterns@.len() ==> parses((#[trigger] patterns@[i])@),
            Err(_) => patterns@.len() > 0,
        },
{
    regex::RegexSet::new(patterns).map_err(|e| e.to_string())
}

/// `regex::RegexSet::is_match` tells whether one of the patterns matches
/// somewhere in a text. Without patterns nothing matches.
#[verifier::external_body]
fn matches_any(set: &regex::RegexSet, s: &str) -> (r: bool)
    ensures
        r == hits(patterns_of(*set), s@),
        patterns_of(*set).len() == 0 ==> !r,
{
    set.is_match(s)
}

/// One function that can panic.
#[derive(Debug)]
pub struct Finding {
    /// The function's readable path.
    pub function: String,
    /// The crate it is defined in.
    pub krate: String,
    /// Where it is defined.
    pub loc: Option<String>,
    /// The categories it can raise, in reporting order.
    pub categories: Vec<String>,
}

/// What a [`Finding`] says.
#[verifier::ext_equal]
pub struct FindingView {
    pub function: Seq<char>,
    pub krate: Seq<char>,
    pub loc: Option<Seq<char>>,
    pub categories: Seq<Seq<char>>,
}

impl View for Finding {
    type V = FindingView;

    open spec fn view(&self) -> FindingView {
        FindingView {
            function: self.function@,
            krate: self.krate@,
            loc: model::text_view(self.loc),
            categories: text::texts(self.categories@),
        }
    }
}

/// Copies a list of texts.
fn copy_texts(list: &Vec<String>) -> (r: Vec<String>)
    ensures
        text::texts(r@) == text::texts(list@),
{
    let mut out: Vec<String> = Vec::new();
    let mut i: usize = 0;
    while i < list.len()
        invariant
            i <= list@.len(),
            out@.len() == i,
            forall|k: int| 0 <= k < i ==> (#[trigger] out@[k])@ == list@[k]@,
        decreases list.len() - i,
    {
        out.push(list[i].clone());
        i += 1;
    }
    assert(text::texts(out@) =~= text::texts(list@));
    out
}

impl Clone for Finding {
    fn clone(&self) -> (r: Finding)
        ensures
            r@ == self@,
    {
        Finding {
            function: self.function.clone(),
            krate: self.krate.clone(),
            loc: model::copy_text(&self.loc),
            categories: copy_texts(&self.categories),
        }
    }
}

/// What a list of findings says.
pub open spec fn finding_views(list: Seq<Finding>) -> Seq<FindingView> {
    list.map_values(|f: Finding| f@)
}

/// Why a finding does not pass.
#[derive(Debug, Clone, Copy, PartialEq, Eq, Structural)]
pub enum Reason {
    /// The function is covered by a pattern that forbids panicking.
    Forbidden,
    /// The function is absent from the baseline, or gained a category.
    New,
    /// The analysis could not classify what it reaches.
    Unclassified,
}

impl Reason {
    /// A short phrase naming the failure.
    pub open spec fn spec_describe(self) -> Seq<char> {
        match self {
            Reason::Forbidden => "must not panic"@,
            Reason::New => "not in the baseline"@,
            Reason::Unclassified => "reaches an unclassified panic"@,
        }
    }

    /// A short phrase naming the failure.
    pub fn describe(&self) -> (r: &'static str)
        ensures
            r@ == self.spec_describe(),
    {
        match self {
            Reason::Forbidden => "must not panic",
            Reason::New => "not in the baseline",
            Reason::Unclassified => "reaches an unclassified panic",
        }
    }
}

/// One finding that does not pass.
#[derive(Debug)]
pub struct Violation {
    /// The offending finding.
    pub finding: Finding,
    /// Why it failed.
    pub reason: Reason,
}

/// What a list of failures says.
pub open spec fn violation_views(list: Seq<Violation>) -> Seq<(FindingView, Reason)> {
    list.map_values(|v: Violation| (v.finding@, v.reason))
}

/// Everything a check concluded.
#[derive(Debug)]
pub struct Outcome {
    /// Every local function that can panic.
    pub findings: Vec<Finding>,
    /// The ones that failed a gate.
    pub violations: Vec<Violation>,
    /// Functions the baseline recorded that no longer panic.
    pub fixed: Vec<String>,
    /// Set when more functions panic than the ceiling allows.
    pub over_max: Option<(usize, usize)>,
}

/// What an [`Outcome`] says.
#[verifier::ext_equal]
pub struct OutcomeView {
    pub findings: Seq<FindingView>,
    pub violations: Seq<(FindingView, Reason)>,
    pub fixed: Seq<Seq<char>>,
    pub over_max: Option<(usize, usize)>,
}

impl View for Outcome {
    type V = OutcomeView;

    open spec fn view(&self) -> OutcomeView {
        OutcomeView {
            findings: finding_views(self.findings@),
            violations: violation_views(self.violations@),
            fixed: text::texts(self.fixed@),
            over_max: self.over_max,
        }
    }
}

impl OutcomeView {
    /// Whether anything failed.
    pub open spec fn fails(self) -> bool {
        self.violations.len() > 0 || self.over_max is Some
    }
}

impl Outcome {
    /// Whether anything failed.
    #[must_use]
    pub fn failed(&self) -> (r: bool)
        ensures
            r == self@.fails(),
    {
        self.violations.len() > 0 || self.over_max.is_some()
    }
}

/// Nothing to report.
pub const EXIT_CLEAN: u8 = 0;

/// At least one function can panic, or a check failed.
pub const EXIT_FINDINGS: u8 = 1;

/// The tool could not complete.
pub const EXIT_ERROR: u8 = 2;

/// The code a run ends with that could complete, by whether it found anything
/// or failed a check.
#[must_use]
pub fn exit_code(failed: bool) -> (r: u8)
    ensures
        r == (if failed {
            1u8
        } else {
            0u8
        }),
{
    if failed {
        EXIT_FINDINGS
    } else {
        EXIT_CLEAN
    }
}

/// What is said of a baseline that was written.
pub fn recorded_text(file: &str, count: usize) -> (r: String)
    ensures
        r@ == "recorded "@ + text::decimal(count as nat) + " findings in "@ + file@ + "\n"@,
{
    let mut out = "recorded ".to_owned();
    out.append(text::number(count as u64).as_str());
    out.append(" findings in ");
    out.append(file);
    out.append("\n");
    out
}

/// A baseline that was written, as a document.
pub open spec fn recorded_doc(file: Seq<char>, count: nat) -> Json {
    json::empty_object().with("recorded"@, json::counted(count)).with("baseline"@, Json::Str(file))
}

/// Says what a baseline recorded.
///
/// # Errors
///
/// Returns an error if the document cannot be serialized, which does not
/// happen.
pub fn say_recorded(args: &Args, file: &str, count: usize, out: &mut String) -> (r: Result<(), String>)
    ensures
        r is Ok,
        final(out)@ == old(out)@ + (if args.format is Json {
            json::pretty(recorded_doc(file@, count as nat)) + "\n"@
        } else {
            "recorded "@ + text::decimal(count as nat) + " findings in "@ + file@ + "\n"@
        }),
{
    let ghost before = out@;
    match args.format {
        Format::Json => {
            let mut doc = json::object();
            json::put(&mut doc, "recorded", json::number(count as u64));
            json::put(&mut doc, "baseline", json::words(file));
            let r = report::emit(&doc, out);
            assert(out@ =~= before + (json::pretty(recorded_doc(file@, count as nat)) + "\n"@));
            r
        },
        _ => {
            out.append(recorded_text(file, count).as_str());
            Ok(())
        },
    }
}

/// The categories a baseline records, per function.
pub type Record = Map<Seq<char>, Seq<Seq<char>>>;

/// One function of a baseline.
struct Entry {
    function: String,
    categories: Vec<String>,
}

/// The categories that were recorded per function.
pub struct Baseline {
    index: Table,
    list: Vec<Entry>,
}

impl View for Baseline {
    type V = Map<Seq<char>, Seq<Seq<char>>>;

    closed spec fn view(&self) -> Map<Seq<char>, Seq<Seq<char>>> {
        Map::new(
            |name: Seq<char>| table::entries(self.index).dom().contains(name),
            |name: Seq<char>|
                text::texts(self.list@[table::entries(self.index)[name] as int].categories@),
        )
    }
}

impl Baseline {
    #[verifier::type_invariant]
    spec fn wf(self) -> bool {
        &&& forall|name: Seq<char>| #[trigger]
            table::entries(self.index).dom().contains(name) ==> table::entries(self.index)[name]
                < self.list@.len()
        &&& forall|i: int|
            0 <= i < self.list@.len() ==> table::entries(self.index).dom().contains(
                (#[trigger] self.list@[i]).function@,
            ) && table::entries(self.index)[self.list@[i].function@] == i
        &&& forall|name: Seq<char>| #[trigger]
            table::entries(self.index).dom().contains(name)
                ==> self.list@[table::entries(self.index)[name] as int].function@ == name
    }

    /// A baseline that records nothing.
    pub fn new() -> (r: Baseline)
        ensures
            r@ == Map::<Seq<char>, Seq<Seq<char>>>::empty(),
    {
        let r = Baseline { index: Table::new(), list: Vec::new() };
        assert(r@ =~= Map::empty());
        r
    }

    /// The number of functions recorded.
    pub fn len(&self) -> (r: usize)
        ensures
            r == self@.dom().len(),
            self@.dom().finite(),
    {
        proof {
            use_type_invariant(self);
            let names = Seq::new(self.list@.len(), |i: int| self.list@[i].function@);
            assert(names.no_duplicates()) by {
                assert forall|i: int, j: int|
                    0 <= i < names.len() && 0 <= j < names.len() && i != j implies names[i]
                    != names[j] by {
                    assert(table::entries(self.index)[self.list@[i].function@] == i);
                    assert(table::entries(self.index)[self.list@[j].function@] == j);
                }
            }
            names.unique_seq_to_set();
            assert forall|n: Seq<char>| self@.dom().contains(n) <==> names.to_set().contains(n) by {
                if self@.dom().contains(n) {
                    let i = table::entries(self.index)[n] as int;
                    assert(names[i] == n);
                }
                if names.contains(n) {
                    let i = choose|i: int| 0 <= i < names.len() && names[i] == n;
                    assert(table::entries(self.index).dom().contains(self.list@[i].function@));
                }
            }
            assert(self@.dom() =~= names.to_set());
        }
        self.list.len()
    }

    /// Whether nothing is recorded.
    pub fn is_empty(&self) -> (r: bool)
        ensures
            r == (self@.dom().len() == 0),
    {
        self.len() == 0
    }

    /// The categories recorded of a function, if it is.
    pub fn get(&self, name: &str) -> (r: Option<&Vec<String>>)
        ensures
            match r {
                Some(list) => self@.dom().contains(name@) && self@[name@] == text::texts(list@),
                None => !self@.dom().contains(name@),
            },
    {
        proof {
            use_type_invariant(self);
        }
        match self.index.get(name) {
            Some(i) => Some(&self.list[i].categories),
            None => None,
        }
    }

    /// Records a function, in place of what was recorded of it.
    pub fn record(self, name: &str, categories: Vec<String>) -> (r: Baseline)
        ensures
            r@ == self@.insert(name@, text::texts(categories@)),
    {
        proof {
            use_type_invariant(&self);
        }
        let ghost was = self@;
        let Baseline { index, list } = self;
        let mut index = index;
        let mut list = list;
        let ghost before = table::entries(index);
        let ghost old_list = list@;
        match index.get(name) {
            Some(i) => {
                list.set(i, Entry { function: name.to_owned(), categories });
                let r = Baseline { index, list };
                assert(r@ =~= was.insert(name@, text::texts(categories@)));
                r
            },
            None => {
                let n: usize = list.len();
                index.insert(name.to_owned(), n);
                list.push(Entry { function: name.to_owned(), categories });
                proof {
                    assert forall|i: int| 0 <= i < old_list.len() implies (
                    #[trigger] old_list[i]).function@ != name@ by {
                        assert(before.dom().contains(old_list[i].function@));
                    }
                    assert forall|i: int| 0 <= i < list@.len() implies table::entries(
                        index,
                    ).dom().contains((#[trigger] list@[i]).function@) && table::entries(
                        index,
                    )[list@[i].function@] == i by {
                        if i < n {
                            assert(list@[i] == old_list[i]);
                            assert(before.dom().contains(old_list[i].function@));
                        }
                    }
                    assert forall|k: Seq<char>| #[trigger]
                        table::entries(index).dom().contains(k) implies list@[table::entries(
                        index,
                    )[k] as int].function@ == k by {
                        if k != name@ {
                            assert(before.dom().contains(k));
                            assert(list@[before[k] as int] == old_list[before[k] as int]);
                        }
                    }
                }
                let r = Baseline { index, list };
                assert forall|k: Seq<char>| was.dom().contains(k) implies r@[k] == was[k] by {
                    assert(before.dom().contains(k));
                    assert(list@[before[k] as int] == old_list[before[k] as int]);
                }
                assert(r@ =~= was.insert(name@, text::texts(categories@)));
                r
            },
        }
    }
}

/// Whether a text is the name of a category.
pub open spec fn named(s: Seq<char>, c: Category) -> bool {
    s == c.spec_name()
}

/// Whether a list names a category of a set.
pub open spec fn names_any(names: Seq<Seq<char>>, set: Set<Category>) -> bool {
    exists|k: int, c: Category|
        0 <= k < names.len() && set.contains(c) && #[trigger] named(names[k], c)
}

/// Whether a list names a category of a set.
fn any_named(names: &Vec<String>, set: CategorySet) -> (r: bool)
    ensures
        r == names_any(text::texts(names@), set@),
{
    let ghost list = text::texts(names@);
    let mut i: usize = 0;
    while i < names.len()
        invariant
            i <= names@.len(),
            list == text::texts(names@),
            forall|k: int, c: Category|
                0 <= k < i && set@.contains(c) ==> !#[trigger] named(list[k], c),
        decreases names.len() - i,
    {
        assert(list[i as int] == names@[i as int]@);
        match Category::from_name(names[i].as_str()) {
            Some(c) => {
                assert(named(list[i as int], c));
                if set.contains(c) {
                    return true;
                }
                assert forall|d: Category| set@.contains(d) implies !#[trigger] named(
                    list[i as int],
                    d,
                ) by {
                    if named(list[i as int], d) {
                        category::names_are_distinct(c, d);
                    }
                }
            },
            None => {},
        }
        i += 1;
    }
    false
}

/// Whether a list has a text.
fn among(list: &Vec<String>, s: &str) -> (r: bool)
    ensures
        r == text::texts(list@).contains(s@),
{
    let ghost all = text::texts(list@);
    let mut i: usize = 0;
    while i < list.len()
        invariant
            i <= list@.len(),
            all == text::texts(list@),
            forall|k: int| 0 <= k < i ==> #[trigger] all[k] != s@,
        decreases list.len() - i,
    {
        assert(all[i as int] == list@[i as int]@);
        if text::same(list[i].as_str(), s) {
            return true;
        }
        i += 1;
    }
    false
}

/// Whether the reported categories could have shown a baseline entry.
pub open spec fn visible(only: Option<CategorySet>, recorded: Seq<Seq<char>>) -> bool {
    match only {
        None => true,
        Some(set) => names_any(recorded, set@),
    }
}

/// Whether the reported categories could have shown a baseline entry.
///
/// Absence from the findings means a function no longer panics only when the
/// analysis was looking for what the baseline recorded. Under `--only`, an
/// entry outside the selection is not gone, it is out of view, and calling it
/// fixed would send the reader off to refresh a baseline that is current.
fn in_view(only: Option<CategorySet>, recorded: &Vec<String>) -> (r: bool)
    ensures
        r == visible(only, text::texts(recorded@)),
{
    match only {
        None => true,
        Some(set) => any_named(recorded, set),
    }
}

/// Whether a finding is absent from the baseline, or has grown a category.
pub open spec fn grown(known: Record, finding: FindingView) -> bool {
    ||| !known.dom().contains(finding.function)
    ||| exists|k: int|
        0 <= k < finding.categories.len() && !known[finding.function].contains(
            #[trigger] finding.categories[k],
        )
}

/// Whether a finding is absent from the baseline, or has grown a category.
fn is_new(known: &Baseline, finding: &Finding) -> (r: bool)
    ensures
        r == grown(known@, finding@),
{
    match known.get(finding.function.as_str()) {
        None => true,
        Some(recorded) => {
            let mut i: usize = 0;
            while i < finding.categories.len()
                invariant
                    i <= finding.categories@.len(),
                    known@.dom().contains(finding@.function),
                    known@[finding@.function] == text::texts(recorded@),
                    forall|k: int|
                        0 <= k < i ==> known@[finding@.function].contains(
                            #[trigger] finding@.categories[k],
                        ),
                decreases finding.categories.len() - i,
            {
                assert(finding@.categories[i as int] == finding.categories@[i as int]@);
                if !among(recorded, finding.categories[i].as_str()) {
                    return true;
                }
                i += 1;
            }
            false
        },
    }
}

/// The first source position that a list of bodies records.
pub open spec fn first_loc(bodies: Seq<BodyView>, ids: Seq<FuncId>, from: int) -> Option<LocView>
    decreases ids.len() - from,
{
    if from >= ids.len() {
        None
    } else if bodies[ids[from].0 as int].loc is Some {
        bodies[ids[from].0 as int].loc
    } else {
        first_loc(bodies, ids, from + 1)
    }
}

/// A finding of the report as a check sees it.
///
/// Instantiations of one generic function share a definition, so the first
/// that records one names them all.
pub open spec fn gated(bodies: Seq<BodyView>, f: report::FindingView) -> FindingView {
    FindingView {
        function: f.name,
        krate: f.krate,
        loc: report::place_text(first_loc(bodies, f.ids, 0)),
        categories: category::names_of(f.categories),
    }
}

/// The findings of the report as a check sees them.
pub open spec fn all_gated(bodies: Seq<BodyView>, found: Seq<report::FindingView>) -> Seq<FindingView> {
    Seq::new(found.len(), |k: int| gated(bodies, found[k]))
}

/// Every local function that can panic under the solved policy.
///
/// A generic function has one node per instantiation and they all report
/// under the same name, so they are merged: a check asks whether a function
/// can panic, and it can if any of its instantiations can.
fn collect(graph: &Graph, solution: &Solution, args: &Args) -> (r: (
    Vec<Finding>,
    Ghost<Seq<report::FindingView>>,
))
    requires
        solution.states().len() == graph@.bodies.len(),
    ensures
        report::is_report(
            r.1@,
            Selection::spec_of(*args),
            graph@.bodies,
            Selection::enabled_of(*solution),
        ),
        finding_views(r.0@) == all_gated(graph@.bodies, r.1@),
{
    let found = report::collect(graph, solution, args);
    let ghost views = report::finding_views(found@);
    let mut out: Vec<Finding> = Vec::new();
    let mut i: usize = 0;
    while i < found.len()
        invariant
            i <= found@.len(),
            views == report::finding_views(found@),
            forall|k: int|
                0 <= k < found@.len() ==> (#[trigger] found@[k]).ids@.len() > 0 && forall|m: int|
                    0 <= m < found@[k].ids@.len() ==> (#[trigger] found@[k].ids@[m]).0
                        < graph@.bodies.len(),
            out@.len() == i,
            forall|k: int| 0 <= k < i ==> (#[trigger] out@[k])@ == gated(graph@.bodies, views[k]),
        decreases found.len() - i,
    {
        let f = &found[i];
        assert(views[i as int] == f@);
        assert(found@[i as int].ids@.len() > 0);
        let mut loc: Option<String> = None;
        let mut m: usize = 0;
        while m < f.ids.len() && loc.is_none()
            invariant
                m <= f.ids@.len(),
                forall|m: int|
                    0 <= m < f.ids@.len() ==> (#[trigger] f.ids@[m]).0 < graph@.bodies.len(),
                match loc {
                    None => first_loc(graph@.bodies, f.ids@, 0) == first_loc(
                        graph@.bodies,
                        f.ids@,
                        m as int,
                    ),
                    Some(s) => report::place_text(first_loc(graph@.bodies, f.ids@, 0)) == Some(s@),
                },
            decreases f.ids.len() - m,
        {
            assert(f.ids@[m as int].0 < graph@.bodies.len());
            loc = report::place_of(&graph.body(f.ids[m]).loc);
            m += 1;
        }
        out.push(
            Finding {
                function: f.name.clone(),
                krate: f.krate.clone(),
                loc,
                categories: f.categories.names(),
            },
        );
        i += 1;
    }
    assert(finding_views(out@) =~= all_gated(graph@.bodies, views));
    (out, Ghost(views))
}

/// Whether a check without a gate covers the whole crate.
///
/// With no gate at all the whole crate is covered, which is the check a crate
/// that must not panic asks for. Naming any gate replaces that default rather
/// than stacking with it, so a ceiling means a ceiling.
pub open spec fn gates_everything(check: Check) -> bool {
    check.forbid@.len() == 0 && check.max is None && check.baseline is None
}

/// Why a finding does not pass, if it does not.
pub open spec fn reason_of(f: FindingView, check: Check, known: Option<Record>) -> Option<Reason> {
    let forbidden = check.forbid@.len() > 0 && hits(text::texts(check.forbid@), f.function);
    let allowed = check.allow@.len() > 0 && hits(text::texts(check.allow@), f.function);
    if allowed {
        None
    } else if known is None && (gates_everything(check) || forbidden) {
        Some(Reason::Forbidden)
    } else if known is Some && grown(known->Some_0, f) {
        Some(Reason::New)
    } else if check.fail_on_unknown && (check.forbid@.len() == 0 || forbidden) && names_any(
        f.categories,
        category::unread(),
    ) {
        Some(Reason::Unclassified)
    } else {
        None
    }
}

/// The failures among the first `n` findings.
pub open spec fn failing(
    findings: Seq<FindingView>,
    check: Check,
    known: Option<Record>,
    n: nat,
) -> Seq<(FindingView, Reason)>
    decreases n,
{
    if n == 0 {
        Seq::empty()
    } else {
        let before = failing(findings, check, known, (n - 1) as nat);
        match reason_of(findings[n - 1], check, known) {
            Some(reason) => before.push((findings[n - 1], reason)),
            None => before,
        }
    }
}

/// Whether a list of findings has one of a function.
pub open spec fn still_found(findings: Seq<FindingView>, function: Seq<char>) -> bool {
    exists|k: int| 0 <= k < findings.len() && (#[trigger] findings[k]).function == function
}

/// Whether a list is the functions, by name, that a baseline records, that no
/// finding is of, and that the reported categories could have shown.
pub open spec fn is_fixed(
    fixed: Seq<Seq<char>>,
    known: Record,
    findings: Seq<FindingView>,
    only: Option<CategorySet>,
) -> bool {
    &&& forall|name: Seq<char>| #[trigger]
        fixed.contains(name) <==> known.dom().contains(name) && !still_found(findings, name)
            && visible(only, known[name])
    &&& forall|i: int, j: int|
        0 <= i < j < fixed.len() ==> text::comes_before(#[trigger] fixed[i], #[trigger] fixed[j])
}

/// Whether an outcome is what a check concludes of a list of findings.
pub open spec fn is_outcome(
    outcome: OutcomeView,
    findings: Seq<FindingView>,
    only: Option<CategorySet>,
    check: Check,
    known: Option<Record>,
) -> bool {
    &&& outcome.findings == findings
    &&& outcome.violations == failing(findings, check, known, findings.len())
    &&& match known {
        Some(record) => is_fixed(outcome.fixed, record, findings, only),
        None => outcome.fixed.len() == 0,
    }
    &&& outcome.over_max == (match check.max {
        Some(max) => if findings.len() > max {
            Some((findings.len() as usize, max))
        } else {
            None
        },
        None => None,
    })
}

/// The order of the entries of a baseline by their functions.
struct ByName<'a> {
    list: &'a Vec<Entry>,
}

impl<'a> Order for ByName<'a> {
    closed spec fn covers(&self, a: usize) -> bool {
        &&& a < self.list@.len()
        &&& forall|b: int|
            0 <= b < self.list@.len() && b != a ==> (#[trigger] self.list@[b]).function@
                != self.list@[a as int].function@
    }

    closed spec fn precedes(&self, a: usize, b: usize) -> bool {
        text::comes_before(self.list@[a as int].function@, self.list@[b as int].function@)
    }

    proof fn total(&self, a: usize, b: usize) {
        assert(self.list@[b as int].function@ != self.list@[a as int].function@);
        text::texts_are_ordered(self.list@[a as int].function@, self.list@[b as int].function@);
    }

    proof fn transitive(&self, a: usize, b: usize, c: usize) {
        text::text_order_is_transitive(
            self.list@[a as int].function@,
            self.list@[b as int].function@,
            self.list@[c as int].function@,
        );
    }

    fn less(&self, a: usize, b: usize) -> (r: bool) {
        text::before(self.list[a].function.as_str(), self.list[b].function.as_str())
    }
}

/// The functions a baseline records that no longer panic.
fn fixed_by(known: &Baseline, findings: &Vec<Finding>, only: Option<CategorySet>) -> (r: Vec<String>)
    ensures
        is_fixed(text::texts(r@), known@, finding_views(findings@), only),
{
    proof {
        use_type_invariant(known);
    }
    let ghost views = finding_views(findings@);
    let ghost index = table::entries(known.index);
    let ghost list = known.list@;
    let mut live = Table::new();
    let mut i: usize = 0;
    while i < findings.len()
        invariant
            i <= findings@.len(),
            views == finding_views(findings@),
            forall|name: Seq<char>| #[trigger]
                table::entries(live).dom().contains(name) <==> exists|k: int|
                    0 <= k < i && (#[trigger] views[k]).function == name,
        decreases findings.len() - i,
    {
        let ghost had = table::entries(live);
        assert(views[i as int] == findings@[i as int]@);
        live.insert(findings[i].function.clone(), i);
        proof {
            assert forall|name: Seq<char>| #[trigger]
                table::entries(live).dom().contains(name) <==> exists|k: int|
                    0 <= k < i + 1 && (#[trigger] views[k]).function == name by {
                assert(had.dom().contains(name) <==> exists|k: int|
                    0 <= k < i && (#[trigger] views[k]).function == name);
                if name == views[i as int].function {
                } else if exists|k: int|
                    0 <= k < i + 1 && (#[trigger] views[k]).function == name {
                    let k = choose|k: int|
                        0 <= k < i + 1 && (#[trigger] views[k]).function == name;
                    assert(k < i);
                }
            }
        }
        i += 1;
    }
    let mut gone: Vec<usize> = Vec::new();
    let mut j: usize = 0;
    while j < known.list.len()
        invariant
            j <= known.list@.len(),
            list == known.list@,
            views == finding_views(findings@),
            forall|name: Seq<char>| #[trigger]
                table::entries(live).dom().contains(name) <==> still_found(views, name),
            gone@.no_duplicates(),
            forall|k: int| 0 <= k < gone@.len() ==> #[trigger] gone@[k] < j,
            forall|x: usize| #[trigger]
                gone@.contains(x) <==> x < j && !still_found(views, list[x as int].function@)
                    && visible(only, text::texts(list[x as int].categories@)),
        decreases known.list.len() - j,
    {
        let entry = &known.list[j];
        let ghost had = gone@;
        if live.get(entry.function.as_str()).is_none() && in_view(only, &entry.categories) {
            gone.push(j);
        }
        proof {
            assert(table::entries(live).dom().contains(list[j as int].function@) <==> still_found(
                views,
                list[j as int].function@,
            ));
            assert(!had.contains(j));
            assert forall|x: usize| #[trigger]
                gone@.contains(x) <==> x < j + 1 && !still_found(views, list[x as int].function@)
                    && visible(only, text::texts(list[x as int].categories@)) by {
                assert(had.contains(x) <==> x < j && !still_found(views, list[x as int].function@)
                    && visible(only, text::texts(list[x as int].categories@)));
                if gone@ != had {
                    assert(gone@ == had.push(j));
                    if gone@.contains(x) && x != j {
                        let k = choose|k: int| 0 <= k < gone@.len() && gone@[k] == x;
                        assert(had[k] == x);
                    }
                    if had.contains(x) {
                        let k = choose|k: int| 0 <= k < had.len() && had[k] == x;
                        assert(gone@[k] == x);
                    }
                    assert(gone@[had.len() as int] == j);
                }
            }
        }
        j += 1;
    }
    let order = ByName { list: &known.list };
    assert forall|k: int| 0 <= k < gone@.len() implies order.covers(#[trigger] gone@[k]) by {
        let a = gone@[k];
        assert forall|b: int| 0 <= b < list.len() && b != a implies (#[trigger] list[b]).function@
            != list[a as int].function@ by {
            assert(index[list[b].function@] == b);
            assert(index[list[a as int].function@] == a);
        }
    }
    let sorted = lists::sort(&order, &gone);
    let mut out: Vec<String> = Vec::new();
    let mut m: usize = 0;
    assert forall|k: int| 0 <= k < sorted@.len() implies (#[trigger] sorted@[k]) < list.len() by {
        assert(sorted@.contains(sorted@[k]));
    }
    while m < sorted.len()
        invariant
            m <= sorted@.len(),
            list == known.list@,
            forall|k: int| 0 <= k < sorted@.len() ==> (#[trigger] sorted@[k]) < list.len(),
            out@.len() == m,
            forall|k: int| 0 <= k < m ==> (#[trigger] out@[k])@ == list[sorted@[k] as int].function@,
        decreases sorted.len() - m,
    {
        let at: usize = sorted[m];
        out.push(known.list[at].function.clone());
        m += 1;
    }
    proof {
        let fixed = text::texts(out@);
        assert forall|name: Seq<char>| #[trigger]
            fixed.contains(name) <==> known@.dom().contains(name) && !still_found(views, name)
                && visible(only, known@[name]) by {
            if fixed.contains(name) {
                let k = choose|k: int| 0 <= k < fixed.len() && fixed[k] == name;
                let x = sorted@[k];
                assert(sorted@.contains(x));
                assert(list[x as int].function@ == name);
                assert(index[list[x as int].function@] == x);
            }
            if known@.dom().contains(name) && !still_found(views, name) && visible(
                only,
                known@[name],
            ) {
                let x = index[name];
                assert(list[x as int].function@ == name);
                assert(gone@.contains(x));
                assert(sorted@.contains(x));
                let k = choose|k: int| 0 <= k < sorted@.len() && sorted@[k] == x;
                assert(fixed[k] == name);
            }
        }
        assert forall|a: int, b: int| 0 <= a < b < fixed.len() implies text::comes_before(
            #[trigger] fixed[a],
            #[trigger] fixed[b],
        ) by {
            assert(order.precedes(sorted@[a], sorted@[b]));
        }
    }
    out
}

/// Applies a check to a list of findings, with the patterns compiled and the
/// baseline read.
pub fn gate(
    findings: Vec<Finding>,
    only: Option<CategorySet>,
    check: &Check,
    forbid: &regex::RegexSet,
    allow: &regex::RegexSet,
    known: &Option<Baseline>,
) -> (r: Outcome)
    requires
        patterns_of(*forbid) == text::texts(check.forbid@),
        patterns_of(*allow) == text::texts(check.allow@),
    ensures
        is_outcome(r@, finding_views(findings@), only, *check, record_of(*known)),
{
    let ghost views = finding_views(findings@);
    let everything = check.forbid.len() == 0 && check.max.is_none() && check.baseline.is_none();
    let mut violations: Vec<Violation> = Vec::new();
    let mut i: usize = 0;
    assert(violation_views(violations@) =~= failing(views, *check, record_of(*known), 0));
    while i < findings.len()
        invariant
            i <= findings@.len(),
            views == finding_views(findings@),
            everything == gates_everything(*check),
            patterns_of(*forbid) == text::texts(check.forbid@),
            patterns_of(*allow) == text::texts(check.allow@),
            violation_views(violations@) == failing(views, *check, record_of(*known), i as nat),
        decreases findings.len() - i,
    {
        let finding = &findings[i];
        assert(views[i as int] == finding@);
        let name = finding.function.as_str();
        let ghost was = violations@;
        let mut reason: Option<Reason> = None;
        if !matches_any(allow, name) {
            let forbidden = matches_any(forbid, name);
            match known {
                None => {
                    if everything || forbidden {
                        reason = Some(Reason::Forbidden);
                    }
                },
                Some(record) => {
                    if is_new(record, finding) {
                        reason = Some(Reason::New);
                    }
                },
            }
            // A pattern scopes which functions are asked about. A ceiling
            // or a baseline narrows how many findings may fail, not what
            // counts as unreadable, so neither takes this question away.
            let asked = check.forbid.len() == 0 || forbidden;
            if reason.is_none() && check.fail_on_unknown && asked && any_named(
                &finding.categories,
                CategorySet::assumed(),
            ) {
                reason = Some(Reason::Unclassified);
            }
        }
        assert(reason == reason_of(views[i as int], *check, record_of(*known)));
        if let Some(reason) = reason {
            violations.push(Violation { finding: finding.clone(), reason });
        }
        assert(violation_views(violations@) =~= failing(
            views,
            *check,
            record_of(*known),
            (i + 1) as nat,
        ));
        i += 1;
    }
    let fixed = match known {
        Some(record) => fixed_by(record, &findings, only),
        None => Vec::new(),
    };
    let over_max = match check.max {
        Some(max) => if findings.len() > max {
            Some((findings.len(), max))
        } else {
            None
        },
        None => None,
    };
    Outcome { findings, violations, fixed, over_max }
}

/// What a baseline records, if there is one.
pub open spec fn record_of(known: Option<Baseline>) -> Option<Record> {
    match known {
        Some(b) => Some(b@),
        None => None,
    }
}

/// The document of one finding of a baseline.
pub open spec fn entry_doc(f: FindingView) -> Json {
    json::empty_object().with("function"@, Json::Str(f.function)).with(
        "categories"@,
        json::listed(f.categories),
    )
}

/// The documents of the findings of a baseline.
pub open spec fn entry_docs(findings: Seq<FindingView>) -> Seq<Json> {
    findings.map_values(|f: FindingView| entry_doc(f))
}

/// A baseline as a document.
pub open spec fn baseline_doc(args: Args, findings: Seq<FindingView>) -> Json {
    json::empty_object().with("version"@, json::counted(BASELINE_VERSION as nat)).with(
        "profile"@,
        Json::Str(args.profile@),
    ).with("std_mode"@, Json::Str(args.std_mode.spec_name())).with(
        "suppressed"@,
        json::listed(category::names_of(args.suppress@)),
    ).with("closures"@, Json::Str(args.closures.spec_name())).with(
        "all_crates"@,
        Json::Bool(args.all_crates),
    ).with("static_only"@, Json::Bool(args.static_only)).with(
        "candidates"@,
        Json::Bool(args.candidates),
    ).with("findings"@, Json::Arr(entry_docs(findings)))
}

/// A list of texts is nested one level deep.
proof fn listed_is_shallow(items: Seq<Seq<char>>, n: nat)
    requires
        n > 0,
    ensures
        json::listed(items).shallow(n),
{
    let docs = items.map_values(|s: Seq<char>| Json::Str(s));
    assert forall|i: int| 0 <= i < docs.len() implies (#[trigger] docs[i]).shallow(
        (n - 1) as nat,
    ) by {
        assert(docs[i] == Json::Str(items[i]));
    }
}

/// A baseline is nested little enough to be read back.
proof fn baseline_is_shallow(args: Args, findings: Seq<FindingView>)
    ensures
        baseline_doc(args, findings).shallow(100),
{
    let docs = entry_docs(findings);
    assert forall|i: int| 0 <= i < docs.len() implies (#[trigger] docs[i]).shallow(98) by {
        listed_is_shallow(findings[i].categories, 97);
        assert(docs[i] == entry_doc(findings[i]));
        assert(Json::Str(findings[i].function).shallow(97));
    }
    assert(Json::Arr(docs).shallow(99));
    listed_is_shallow(category::names_of(args.suppress@), 99);
    assert(json::counted(BASELINE_VERSION as nat).shallow(99)) by {
        assert(text::decimal(2u64 as nat) == text::decimal(BASELINE_VERSION as nat));
    }
    assert(Json::Str(args.profile@).shallow(99));
    assert(Json::Str(args.std_mode.spec_name()).shallow(99));
    assert(Json::Str(args.closures.spec_name()).shallow(99));
    assert(Json::Bool(args.all_crates).shallow(99));
    assert(Json::Bool(args.static_only).shallow(99));
    assert(Json::Bool(args.candidates).shallow(99));
}

/// Writes the findings so a later run can gate on what changed: the text of
/// the file to keep.
///
/// # Errors
///
/// Returns an error if the document cannot be written, which does not happen.
pub fn write_baseline(args: &Args, findings: &Vec<Finding>) -> (r: Result<String, String>)
    ensures
        r is Ok,
        r->Ok_0@ == json::pretty(baseline_doc(*args, finding_views(findings@))) + "\n"@,
        json::parsed(r->Ok_0@) == Some(baseline_doc(*args, finding_views(findings@))),
{
    let ghost views = finding_views(findings@);
    let mut items: Vec<serde_json::Value> = Vec::new();
    let mut i: usize = 0;
    while i < findings.len()
        invariant
            i <= findings@.len(),
            views == finding_views(findings@),
            items@.len() == i,
            forall|k: int|
                0 <= k < i ==> json::meaning(#[trigger] items@[k]) == entry_doc(views[k]),
        decreases findings.len() - i,
    {
        let f = &findings[i];
        assert(views[i as int] == f@);
        let mut item = json::object();
        json::put(&mut item, "function", json::string(f.function.clone()));
        json::put(&mut item, "categories", json::list(&f.categories));
        items.push(item);
        i += 1;
    }
    assert(json::meanings(items@) =~= entry_docs(views));
    let mut doc = json::object();
    json::put(&mut doc, "version", json::number(BASELINE_VERSION as u64));
    json::put(&mut doc, "profile", json::string(args.profile.clone()));
    json::put(&mut doc, "std_mode", json::words(args.std_mode.name()));
    json::put(&mut doc, "suppressed", json::list(&args.suppress.names()));
    json::put(&mut doc, "closures", json::words(args.closures.name()));
    json::put(&mut doc, "all_crates", json::flag(args.all_crates));
    json::put(&mut doc, "static_only", json::flag(args.static_only));
    json::put(&mut doc, "candidates", json::flag(args.candidates));
    json::put(&mut doc, "findings", json::array(items));
    proof {
        baseline_is_shallow(*args, views);
    }
    match json::write(&doc) {
        Ok(written) => {
            let mut written = written;
            written.append("\n");
            Ok(written)
        },
        Err(_) => Err("the document could not be written".to_owned()),
    }
}

/// The texts among the first `n` documents of a list.
pub open spec fn texts_among(items: Seq<Json>, n: nat) -> Seq<Seq<char>>
    decreases n,
{
    if n == 0 {
        Seq::empty()
    } else {
        let before = texts_among(items, (n - 1) as nat);
        match items[n - 1] {
            Json::Str(s) => before.push(s),
            _ => before,
        }
    }
}

/// What the first `n` documents of a list record, or nothing if one of them
/// lacks its function or its categories. Of two that record one function the
/// later counts.
pub open spec fn recorded(items: Seq<Json>, n: nat) -> Option<Record>
    decreases n,
{
    if n == 0 {
        Some(Map::empty())
    } else {
        let item = items[n - 1];
        match (
            recorded(items, (n - 1) as nat),
            item.member("function"@),
            item.member("categories"@),
        ) {
            (Some(before), Some(Json::Str(name)), Some(Json::Arr(list))) => Some(
                before.insert(name, texts_among(list, list.len())),
            ),
            _ => None,
        }
    }
}

/// What a baseline records, or nothing if it is malformed.
pub open spec fn recorded_in(doc: Json) -> Option<Record> {
    match doc.member("findings"@) {
        Some(Json::Arr(items)) => recorded(items, items.len()),
        _ => None,
    }
}

/// A setting that a baseline was written under.
pub open spec fn setting(doc: Json, name: Seq<char>) -> Seq<char> {
    match doc.member(name) {
        Some(Json::Str(s)) => s,
        _ => "unrecorded"@,
    }
}

/// A switch that a baseline was written under.
pub open spec fn switched(doc: Json, name: Seq<char>) -> bool {
    match doc.member(name) {
        Some(Json::Bool(b)) => b,
        _ => false,
    }
}

/// The suppressed categories that a baseline was written under.
pub open spec fn assumed_away(doc: Json) -> Set<Category> {
    match doc.member("suppressed"@) {
        Some(Json::Arr(items)) => Set::new(
            |c: Category| texts_among(items, items.len()).contains(c.spec_name()),
        ),
        _ => Set::empty(),
    }
}

/// Why a baseline does not describe a run, if it does not.
pub open spec fn disagreement(doc: Json, args: Args) -> Option<Seq<char>> {
    if setting(doc, "profile"@) != args.profile@ {
        Some(
            "it was written for the "@ + setting(doc, "profile"@) + " profile, not "@
                + args.profile@,
        )
    } else if setting(doc, "std_mode"@) != args.std_mode.spec_name() {
        Some(
            "it was written against the "@ + setting(doc, "std_mode"@) + " standard library, not "@
                + args.std_mode.spec_name(),
        )
    } else if assumed_away(doc) != args.suppress@ {
        Some("it was written while suppressing a different set of categories"@)
    } else if setting(doc, "closures"@) != args.closures.spec_name() {
        Some(
            "it was written with closures reporting as "@ + setting(doc, "closures"@) + ", not "@
                + args.closures.spec_name(),
        )
    } else if switched(doc, "all_crates"@) != args.all_crates {
        Some("it was written over a different set of crates"@)
    } else if switched(doc, "static_only"@) != args.static_only {
        Some("it was written reading a different set of call edges"@)
    } else if switched(doc, "candidates"@) != args.candidates {
        Some("it was written reading a different set of call targets"@)
    } else {
        None
    }
}

/// Whether a baseline was written in the format that is read here.
pub open spec fn is_current(doc: Json) -> bool {
    doc.member("version"@) == Some(json::counted(BASELINE_VERSION as nat))
}

/// Why a baseline is refused, if it is.
pub open spec fn refusal(path: Seq<char>, doc: Json, args: Args) -> Option<Seq<char>> {
    if !is_current(doc) {
        Some(
            path
                + " was written by a different version of this tool; write a fresh one with `panicgraph baseline "@
                + path + "`"@,
        )
    } else {
        match disagreement(doc, args) {
            Some(why) => Some(
                path
                    + " does not describe this run; write a fresh one with `panicgraph baseline "@
                    + path + "`: "@ + why,
            ),
            None => if recorded_in(doc) is None {
                Some(
                    path
                        + " is not a baseline; write a fresh one with `panicgraph baseline "@
                        + path + "`"@,
                )
            } else {
                None
            },
        }
    }
}

/// What a baseline records for a run, or nothing if it is refused.
pub open spec fn accepted(path: Seq<char>, contents: Result<String, String>, args: Args) -> Option<
    Record,
> {
    match contents {
        Ok(s) => match json::parsed(s@) {
            Some(doc) => if refusal(path, doc, args) is None {
                recorded_in(doc)
            } else {
                None
            },
            None => None,
        },
        Err(_) => None,
    }
}

/// Whether a message is what an invalid document is refused with.
pub open spec fn says_invalid(path: Seq<char>, why: Seq<char>, message: Seq<char>) -> bool {
    message == path + " is not valid json: "@ + why
}

/// Whether a message is what a baseline is refused with.
pub open spec fn says_refused(
    path: Seq<char>,
    contents: Result<String, String>,
    args: Args,
    message: Seq<char>,
) -> bool {
    match contents {
        Err(why) => message == "could not read "@ + path
            + "; write one with `panicgraph baseline "@ + path + "`: "@ + why@,
        Ok(s) => match json::parsed(s@) {
            None => exists|why: Seq<char>| #[trigger] says_invalid(path, why, message),
            Some(doc) => refusal(path, doc, args) == Some(message),
        },
    }
}

/// What is written under a name, as text.
fn setting_of(doc: &serde_json::Value, name: &str) -> (r: String)
    ensures
        r@ == setting(json::meaning(*doc), name@),
{
    match json::get(doc, name) {
        Some(value) => match value.as_str() {
            Some(s) => s.to_owned(),
            None => "unrecorded".to_owned(),
        },
        None => "unrecorded".to_owned(),
    }
}

/// What is written under a name, as a switch.
fn switch_of(doc: &serde_json::Value, name: &str) -> (r: bool)
    ensures
        r == switched(json::meaning(*doc), name@),
{
    match json::get(doc, name) {
        Some(value) => match value.as_bool() {
            Some(b) => b,
            None => false,
        },
        None => false,
    }
}

/// The texts among a list of documents.
fn strings_among(items: &Vec<serde_json::Value>) -> (r: Vec<String>)
    ensures
        text::texts(r@) == texts_among(json::meanings(items@), items@.len()),
{
    let ghost docs = json::meanings(items@);
    let mut out: Vec<String> = Vec::new();
    let mut i: usize = 0;
    assert(text::texts(out@) =~= texts_among(docs, 0));
    while i < items.len()
        invariant
            i <= items@.len(),
            docs == json::meanings(items@),
            text::texts(out@) == texts_among(docs, i as nat),
        decreases items.len() - i,
    {
        assert(docs[i as int] == json::meaning(items@[i as int]));
        let ghost was = out@;
        if let Some(s) = items[i].as_str() {
            out.push(s.to_owned());
            assert(text::texts(out@) =~= text::texts(was).push(s@));
        }
        i += 1;
    }
    out
}

/// The suppressed categories that a baseline was written under.
fn suppressed_in(doc: &serde_json::Value) -> (r: CategorySet)
    ensures
        r@ == assumed_away(json::meaning(*doc)),
{
    let mut set = CategorySet::empty();
    if let Some(value) = json::get(doc, "suppressed") {
        if let Some(items) = value.as_array() {
            let names = strings_among(items);
            let ghost list = text::texts(names@);
            let mut i: usize = 0;
            assert(set@ =~= Set::new(|c: Category| list.take(0).contains(c.spec_name())));
            while i < names.len()
                invariant
                    i <= names@.len(),
                    list == text::texts(names@),
                    set@ == Set::new(|c: Category| list.take(i as int).contains(c.spec_name())),
                decreases names.len() - i,
            {
                let ghost was = set@;
                assert(list[i as int] == names@[i as int]@);
                assert(list.take(i + 1) =~= list.take(i as int).push(list[i as int]));
                let found = Category::from_name(names[i].as_str());
                if let Some(c) = found {
                    set.insert(c);
                }
                proof {
                    let front = list.take(i as int);
                    let now = list.take(i + 1);
                    assert forall|d: Category| set@.contains(d) <==> now.contains(d.spec_name()) by {
                        if front.contains(d.spec_name()) {
                            let k = choose|k: int| 0 <= k < front.len() && front[k] == d.spec_name();
                            assert(now[k] == front[k]);
                        }
                        if now.contains(d.spec_name()) {
                            let k = choose|k: int| 0 <= k < now.len() && now[k] == d.spec_name();
                            if k < i {
                                assert(front[k] == d.spec_name());
                            }
                        }
                        assert(now[i as int] == list[i as int]);
                        if let Some(c) = found {
                            if d.spec_name() == c.spec_name() {
                                category::names_are_distinct(c, d);
                            }
                        }
                    }
                    assert(set@ =~= Set::new(|c: Category| now.contains(c.spec_name())));
                }
                i += 1;
            }
            assert(list.take(i as int) =~= list);
            return set;
        }
    }
    set
}

/// Rejects a baseline recorded under settings this run does not share.
///
/// The library decides which categories are visible at all, the profile
/// decides which checks exist, and the suppression policy decides which are
/// reported. A baseline written under any other answer describes a
/// different question, so comparing against it means nothing.
fn settings_agree(doc: &serde_json::Value, args: &Args) -> (r: Result<(), String>)
    ensures
        match r {
            Ok(_) => disagreement(json::meaning(*doc), *args) is None,
            Err(why) => disagreement(json::meaning(*doc), *args) == Some(why@),
        },
{
    let profile = setting_of(doc, "profile");
    if !text::same(profile.as_str(), args.profile.as_str()) {
        let mut why = "it was written for the ".to_owned();
        why.append(profile.as_str());
        why.append(" profile, not ");
        why.append(args.profile.as_str());
        return Err(why);
    }
    let std_mode = setting_of(doc, "std_mode");
    if !text::same(std_mode.as_str(), args.std_mode.name()) {
        let mut why = "it was written against the ".to_owned();
        why.append(std_mode.as_str());
        why.append(" standard library, not ");
        why.append(args.std_mode.name());
        return Err(why);
    }
    if !suppressed_in(doc).same(args.suppress) {
        return Err("it was written while suppressing a different set of categories".to_owned());
    }
    // These decide which functions the report names and which edges it
    // follows, so a baseline written under any of them describes a
    // different set of functions. Unlike `--only`, nothing about a recorded
    // entry says whether the change could have hidden it, so there is no
    // per entry filter to fall back on.
    let closures = setting_of(doc, "closures");
    if !text::same(closures.as_str(), args.closures.name()) {
        let mut why = "it was written with closures reporting as ".to_owned();
        why.append(closures.as_str());
        why.append(", not ");
        why.append(args.closures.name());
        return Err(why);
    }
    if switch_of(doc, "all_crates") != args.all_crates {
        return Err("it was written over a different set of crates".to_owned());
    }
    if switch_of(doc, "static_only") != args.static_only {
        return Err("it was written reading a different set of call edges".to_owned());
    }
    if switch_of(doc, "candidates") != args.candidates {
        return Err("it was written reading a different set of call targets".to_owned());
    }
    Ok(())
}

/// Whether a baseline was written in the format that is read here.
fn current(doc: &serde_json::Value) -> (r: bool)
    ensures
        r == is_current(json::meaning(*doc)),
{
    match json::get(doc, "version") {
        Some(value) => match value.as_u64() {
            Some(version) => {
                proof {
                    if version != 2 {
                        text::decimals_differ(version as nat, 2);
                    }
                }
                version == BASELINE_VERSION as u64
            },
            None => {
                assert(json::meaning(*value) != json::counted(2u64 as nat));
                false
            },
        },
        None => false,
    }
}

/// Reads what a baseline records, unless it is malformed.
fn entries_of(doc: &serde_json::Value) -> (r: Option<Baseline>)
    ensures
        record_of(r) == recorded_in(json::meaning(*doc)),
{
    let items = match json::get(doc, "findings") {
        Some(value) => match value.as_array() {
            Some(items) => items,
            None => {
                return None;
            },
        },
        None => {
            return None;
        },
    };
    let ghost docs = json::meanings(items@);
    let mut out = Baseline::new();
    let mut i: usize = 0;
    while i < items.len()
        invariant
            i <= items@.len(),
            docs == json::meanings(items@),
            json::meaning(*doc).member("findings"@) == Some(Json::Arr(docs)),
            recorded(docs, i as nat) == Some(out@),
        decreases items.len() - i,
    {
        assert(docs[i as int] == json::meaning(items@[i as int]));
        let name = match json::get(&items[i], "function") {
            Some(value) => value.as_str(),
            None => None,
        };
        let categories = match json::get(&items[i], "categories") {
            Some(value) => value.as_array(),
            None => None,
        };
        match (name, categories) {
            (Some(name), Some(list)) => {
                let kept = strings_among(list);
                out = out.record(name, kept);
            },
            _ => {
                proof {
                    assert(recorded(docs, (i + 1) as nat) is None);
                    stays_malformed(docs, (i + 1) as nat, docs.len());
                }
                return None;
            },
        }
        i += 1;
    }
    Some(out)
}

/// A list with an entry that lacks a field records nothing.
proof fn stays_malformed(items: Seq<Json>, i: nat, n: nat)
    requires
        i <= n,
        recorded(items, i) is None,
    ensures
        recorded(items, n) is None,
    decreases n,
{
    if i < n {
        stays_malformed(items, i, (n - 1) as nat);
    }
}

/// Reads a baseline into the categories recorded per function.
///
/// Takes what reading the file gave: its text, or why there is none.
///
/// # Errors
///
/// Returns an error if the file is missing, unreadable, or not a baseline.
pub fn read_baseline(path: &str, contents: &Result<String, String>, args: &Args) -> (r: Result<
    Baseline,
    String,
>)
    ensures
        match r {
            Ok(known) => accepted(path@, *contents, *args) == Some(known@),
            Err(message) => accepted(path@, *contents, *args) is None && says_refused(
                path@,
                *contents,
                *args,
                message@,
            ),
        },
{
    let written = match contents {
        Ok(written) => written,
        Err(why) => {
            let mut message = "could not read ".to_owned();
            message.append(path);
            message.append("; write one with `panicgraph baseline ");
            message.append(path);
            message.append("`: ");
            message.append(why.as_str());
            return Err(message);
        },
    };
    let doc = match json::read(written.as_str()) {
        Ok(doc) => doc,
        Err(why) => {
            let mut message = path.to_owned();
            message.append(" is not valid json: ");
            message.append(why.as_str());
            assert(says_invalid(path@, why@, message@));
            return Err(message);
        },
    };
    if !current(&doc) {
        let mut message = path.to_owned();
        message.append(
            " was written by a different version of this tool; write a fresh one with `panicgraph baseline ",
        );
        message.append(path);
        message.append("`");
        return Err(message);
    }
    if let Err(why) = settings_agree(&doc, args) {
        let mut message = path.to_owned();
        message.append(
            " does not describe this run; write a fresh one with `panicgraph baseline ",
        );
        message.append(path);
        message.append("`: ");
        message.append(why.as_str());
        return Err(message);
    }
    match entries_of(&doc) {
        Some(known) => Ok(known),
        None => {
            let mut message = path.to_owned();
            message.append(
                " is not a baseline; write a fresh one with `panicgraph baseline ",
            );
            message.append(path);
            message.append("`");
            Err(message)
        },
    }
}

/// What a baseline is read back as after its findings were written: each
/// function with the categories of its last finding.
pub open spec fn as_recorded(findings: Seq<FindingView>, n: nat) -> Record
    decreases n,
{
    if n == 0 {
        Map::empty()
    } else {
        as_recorded(findings, (n - 1) as nat).insert(
            findings[n - 1].function,
            findings[n - 1].categories,
        )
    }
}

/// A list of texts holds those texts.
proof fn listed_texts(items: Seq<Seq<char>>, n: nat)
    requires
        n <= items.len(),
    ensures
        texts_among(items.map_values(|s: Seq<char>| Json::Str(s)), n) == items.take(n as int),
    decreases n,
{
    if n > 0 {
        listed_texts(items, (n - 1) as nat);
        assert(items.take(n as int) =~= items.take(n - 1).push(items[n - 1]));
    } else {
        assert(items.take(0) =~= Seq::<Seq<char>>::empty());
    }
}

proof fn entries_are_recorded(findings: Seq<FindingView>, n: nat)
    requires
        n <= findings.len(),
    ensures
        recorded(entry_docs(findings), n) == Some(as_recorded(findings, n)),
    decreases n,
{
    member_names();
    if n > 0 {
        entries_are_recorded(findings, (n - 1) as nat);
        let f = findings[n - 1];
        let item = entry_doc(f);
        assert(entry_docs(findings)[n - 1] == item);
        assert(item.member("function"@) == Some(Json::Str(f.function)));
        assert(item.member("categories"@) == Some(json::listed(f.categories)));
        let list = f.categories.map_values(|s: Seq<char>| Json::Str(s));
        listed_texts(f.categories, f.categories.len());
        assert(f.categories.take(f.categories.len() as int) =~= f.categories);
        assert(texts_among(list, list.len()) == f.categories);
    }
}

/// The names of the members of a baseline differ.
proof fn member_names()
    ensures
        "function"@ != "categories"@,
        "version"@ != "profile"@,
        "version"@ != "std_mode"@,
        "version"@ != "suppressed"@,
        "version"@ != "closures"@,
        "version"@ != "all_crates"@,
        "version"@ != "static_only"@,
        "version"@ != "candidates"@,
        "version"@ != "findings"@,
        "profile"@ != "std_mode"@,
        "profile"@ != "suppressed"@,
        "profile"@ != "closures"@,
        "profile"@ != "all_crates"@,
        "profile"@ != "static_only"@,
        "profile"@ != "candidates"@,
        "profile"@ != "findings"@,
        "std_mode"@ != "suppressed"@,
        "std_mode"@ != "closures"@,
        "std_mode"@ != "all_crates"@,
        "std_mode"@ != "static_only"@,
        "std_mode"@ != "candidates"@,
        "std_mode"@ != "findings"@,
        "suppressed"@ != "closures"@,
        "suppressed"@ != "all_crates"@,
        "suppressed"@ != "static_only"@,
        "suppressed"@ != "candidates"@,
        "suppressed"@ != "findings"@,
        "closures"@ != "all_crates"@,
        "closures"@ != "static_only"@,
        "closures"@ != "candidates"@,
        "closures"@ != "findings"@,
        "all_crates"@ != "static_only"@,
        "all_crates"@ != "candidates"@,
        "all_crates"@ != "findings"@,
        "static_only"@ != "candidates"@,
        "static_only"@ != "findings"@,
        "candidates"@ != "findings"@,
{
    reveal_strlit("function");
    reveal_strlit("categories");
    reveal_strlit("version");
    reveal_strlit("profile");
    reveal_strlit("std_mode");
    reveal_strlit("suppressed");
    reveal_strlit("closures");
    reveal_strlit("all_crates");
    reveal_strlit("static_only");
    reveal_strlit("candidates");
    reveal_strlit("findings");
    assert("version"@[0] == 'v' && "profile"@[0] == 'p' && "findings"@[0] == 'f');
    assert("std_mode"@[0] == 's' && "std_mode"@[2] == 'd');
    assert("suppressed"@[0] == 's' && "suppressed"@[2] == 'p');
    assert("static_only"@[0] == 's' && "static_only"@[2] == 'a');
    assert("closures"@[0] == 'c' && "closures"@[1] == 'l');
    assert("candidates"@[0] == 'c' && "candidates"@[1] == 'a');
    assert("categories"@[0] == 'c' && "function"@[0] == 'f');
    assert("all_crates"@[0] == 'a');
}

/// What a run records, the same run reads back: the settings agree, the
/// format is current, and each function has the categories of its finding.
pub proof fn baselines_round_trip(path: Seq<char>, written: String, args: Args, findings: Seq<FindingView>)
    requires
        json::parsed(written@) == Some(baseline_doc(args, findings)),
    ensures
        accepted(path, Ok(written), args) == Some(as_recorded(findings, findings.len())),
{
    let doc = baseline_doc(args, findings);
    member_names();
    entries_are_recorded(findings, findings.len());
    let names = category::names_of(args.suppress@);
    let items = names.map_values(|s: Seq<char>| Json::Str(s));
    assert(doc.member("suppressed"@) == Some(json::listed(names)));
    listed_texts(names, names.len());
    assert(names.take(names.len() as int) =~= names);
    assert(texts_among(items, items.len()) == names);
    category::in_order_holds(args.suppress@);
    assert forall|c: Category| names.contains(c.spec_name()) <==> args.suppress@.contains(c) by {
        let list = category::in_order(args.suppress@);
        if names.contains(c.spec_name()) {
            let k = choose|k: int| 0 <= k < names.len() && names[k] == c.spec_name();
            category::names_are_distinct(list[k], c);
            assert(list.contains(list[k]));
        }
        if args.suppress@.contains(c) {
            assert(list.contains(c));
            let k = choose|k: int| 0 <= k < list.len() && list[k] == c;
            assert(names[k] == c.spec_name());
        }
    }
    assert(assumed_away(doc) =~= args.suppress@);
    assert(doc.member("version"@) == Some(json::counted(BASELINE_VERSION as nat)));
    assert(doc.member("profile"@) == Some(Json::Str(args.profile@)));
    assert(doc.member("std_mode"@) == Some(Json::Str(args.std_mode.spec_name())));
    assert(doc.member("closures"@) == Some(Json::Str(args.closures.spec_name())));
    assert(doc.member("all_crates"@) == Some(Json::Bool(args.all_crates)));
    assert(doc.member("static_only"@) == Some(Json::Bool(args.static_only)));
    assert(doc.member("candidates"@) == Some(Json::Bool(args.candidates)));
    assert(doc.member("findings"@) == Some(Json::Arr(entry_docs(findings))));
}

/// A baseline that one run writes is accepted by another exactly where the two
/// are run under the same settings, each of them: the profile, the library,
/// what is assumed impossible, how closures report, and which crates, calls
/// and targets are read.
pub proof fn a_baseline_serves_runs_under_its_settings(
    path: Seq<char>,
    written: String,
    one: Args,
    other: Args,
    findings: Seq<FindingView>,
)
    requires
        json::parsed(written@) == Some(baseline_doc(one, findings)),
    ensures
        accepted(path, Ok(written), other) is Some <==> {
            &&& one.profile@ == other.profile@
            &&& one.std_mode == other.std_mode
            &&& one.suppress@ == other.suppress@
            &&& one.closures == other.closures
            &&& one.all_crates == other.all_crates
            &&& one.static_only == other.static_only
            &&& one.candidates == other.candidates
        },
{
    baselines_round_trip(path, written, one, findings);
    let doc = baseline_doc(one, findings);
    member_names();
    assert(doc.member("profile"@) == Some(Json::Str(one.profile@)));
    assert(doc.member("std_mode"@) == Some(Json::Str(one.std_mode.spec_name())));
    assert(doc.member("closures"@) == Some(Json::Str(one.closures.spec_name())));
    assert(doc.member("all_crates"@) == Some(Json::Bool(one.all_crates)));
    assert(doc.member("static_only"@) == Some(Json::Bool(one.static_only)));
    assert(doc.member("candidates"@) == Some(Json::Bool(one.candidates)));
    reveal_strlit("shipped");
    reveal_strlit("full");
    reveal_strlit("separate");
    reveal_strlit("parent");
    assert("shipped"@.len() == 7 && "full"@.len() == 4);
    assert("separate"@.len() == 8 && "parent"@.len() == 6);
}

/// The findings of a list are of different functions.
pub open spec fn told_apart(findings: Seq<FindingView>) -> bool {
    forall|i: int, j: int|
        0 <= i < j < findings.len() ==> (#[trigger] findings[i]).function != (
        #[trigger] findings[j]).function
}

proof fn recorded_each(findings: Seq<FindingView>, n: nat, k: int)
    requires
        told_apart(findings),
        0 <= k < n <= findings.len(),
    ensures
        as_recorded(findings, n).dom().contains(findings[k].function),
        as_recorded(findings, n)[findings[k].function] == findings[k].categories,
    decreases n,
{
    if k < n - 1 {
        recorded_each(findings, (n - 1) as nat, k);
        assert(findings[k].function != findings[n - 1].function);
    }
}

/// A baseline admits what it records: no finding that it was written from is
/// new.
pub proof fn recorded_findings_are_not_new(findings: Seq<FindingView>, k: int)
    requires
        told_apart(findings),
        0 <= k < findings.len(),
    ensures
        !grown(as_recorded(findings, findings.len()), findings[k]),
{
    recorded_each(findings, findings.len(), k);
    assert forall|m: int| 0 <= m < findings[k].categories.len() implies as_recorded(
        findings,
        findings.len(),
    )[findings[k].function].contains(#[trigger] findings[k].categories[m]) by {}
}

/// A run that finds what its baseline was written from passes, unless a
/// ceiling or unread code is asked about: nothing is new and nothing is fixed.
pub proof fn an_unchanged_run_passes(
    outcome: OutcomeView,
    findings: Seq<FindingView>,
    only: Option<CategorySet>,
    check: Check,
)
    requires
        told_apart(findings),
        check.max is None,
        !check.fail_on_unknown,
        is_outcome(outcome, findings, only, check, Some(as_recorded(findings, findings.len()))),
    ensures
        !outcome.fails(),
        outcome.fixed.len() == 0,
{
    nothing_fails(findings, check, findings.len());
    if outcome.fixed.len() > 0 {
        let name = outcome.fixed[0];
        assert(outcome.fixed.contains(name));
        recorded_was_found(findings, findings.len(), name);
    }
}

proof fn recorded_was_found(findings: Seq<FindingView>, n: nat, name: Seq<char>)
    requires
        n <= findings.len(),
        as_recorded(findings, n).dom().contains(name),
    ensures
        still_found(findings, name),
    decreases n,
{
    if n > 0 && name != findings[n - 1].function {
        recorded_was_found(findings, (n - 1) as nat, name);
    }
}

proof fn nothing_fails(findings: Seq<FindingView>, check: Check, n: nat)
    requires
        told_apart(findings),
        !check.fail_on_unknown,
        n <= findings.len(),
    ensures
        failing(findings, check, Some(as_recorded(findings, findings.len())), n).len() == 0,
    decreases n,
{
    if n > 0 {
        nothing_fails(findings, check, (n - 1) as nat);
        recorded_findings_are_not_new(findings, n - 1);
    }
}

/// A gate fails exactly the findings that some rule of it covers: a finding is
/// among the failures if and only if there is a reason.
pub proof fn failures_have_reasons(
    findings: Seq<FindingView>,
    check: Check,
    known: Option<Record>,
    f: FindingView,
    reason: Reason,
)
    ensures
        failing(findings, check, known, findings.len()).contains((f, reason)) <==> findings.contains(
            f,
        ) && reason_of(f, check, known) == Some(reason),
{
    failures_so_far(findings, check, known, findings.len(), f, reason);
    assert(findings.take(findings.len() as int) =~= findings);
}

proof fn failures_so_far(
    findings: Seq<FindingView>,
    check: Check,
    known: Option<Record>,
    n: nat,
    f: FindingView,
    reason: Reason,
)
    requires
        n <= findings.len(),
    ensures
        failing(findings, check, known, n).contains((f, reason)) <==> findings.take(
            n as int,
        ).contains(f) && reason_of(f, check, known) == Some(reason),
    decreases n,
{
    if n > 0 {
        failures_so_far(findings, check, known, (n - 1) as nat, f, reason);
        let before = failing(findings, check, known, (n - 1) as nat);
        let now = failing(findings, check, known, n);
        let front = findings.take(n - 1);
        let all = findings.take(n as int);
        let last = findings[n - 1];
        assert(all =~= front.push(last));
        if front.contains(f) {
            let k = choose|k: int| 0 <= k < front.len() && front[k] == f;
            assert(all[k] == f);
        }
        if all.contains(f) {
            let k = choose|k: int| 0 <= k < all.len() && all[k] == f;
            if k < n - 1 {
                assert(front[k] == f);
            }
        }
        assert(all[n - 1] == last);
        match reason_of(last, check, known) {
            Some(why) => {
                assert(now == before.push((last, why)));
                if before.contains((f, reason)) {
                    let k = choose|k: int| 0 <= k < before.len() && before[k] == (f, reason);
                    assert(now[k] == (f, reason));
                }
                if now.contains((f, reason)) {
                    let k = choose|k: int| 0 <= k < now.len() && now[k] == (f, reason);
                    if k < before.len() {
                        assert(before[k] == (f, reason));
                    }
                }
                assert(now[before.len() as int] == (last, why));
            },
            None => {},
        }
    } else {
        assert(findings.take(0) =~= Seq::<FindingView>::empty());
    }
}

/// Whether a check lets a function pass by name.
pub open spec fn lets_pass(check: Check, function: Seq<char>) -> bool {
    check.allow@.len() > 0 && hits(text::texts(check.allow@), function)
}

/// Whether a check forbids a function to panic by name.
pub open spec fn forbids(check: Check, function: Seq<char>) -> bool {
    check.forbid@.len() > 0 && hits(text::texts(check.forbid@), function)
}

proof fn failures_are_these(
    findings: Seq<FindingView>,
    check: Check,
    known: Option<Record>,
    f: FindingView,
    reason: Reason,
)
    ensures
        failing(findings, check, known, findings.len()).contains((f, reason)) <==> (
        findings.contains(f) && reason_of(f, check, known) == Some(reason)),
{
    failures_so_far(findings, check, known, findings.len(), f, reason);
    assert(findings.take(findings.len() as int) =~= findings);
}

/// Under a baseline, a function that gained a category fails the check, and so
/// does one the baseline does not have: each category of a finding that the
/// baseline does not record for its function makes the finding new.
pub proof fn what_a_baseline_lacks_is_new(
    outcome: OutcomeView,
    findings: Seq<FindingView>,
    only: Option<CategorySet>,
    check: Check,
    known: Record,
    i: int,
)
    requires
        is_outcome(outcome, findings, only, check, Some(known)),
        0 <= i < findings.len(),
        !lets_pass(check, findings[i].function),
    ensures
        !known.dom().contains(findings[i].function) ==> outcome.violations.contains(
            (findings[i], Reason::New),
        ),
        forall|k: int|
            0 <= k < findings[i].categories.len() && !known[findings[i].function].contains(
                #[trigger] findings[i].categories[k],
            ) ==> outcome.violations.contains((findings[i], Reason::New)) && reason_of(
                findings[i],
                check,
                Some(known),
            ) == Some(Reason::New) && outcome.fails(),
{
    let f = findings[i];
    failures_are_these(findings, check, Some(known), f, Reason::New);
    assert(findings.contains(f));
}

/// Under a baseline, a function fails only for what the baseline does not
/// record of it, or for what could not be read where that is asked about: with
/// neither, nothing is said of it, whatever is forbidden.
pub proof fn what_a_baseline_has_is_not_new(
    outcome: OutcomeView,
    findings: Seq<FindingView>,
    only: Option<CategorySet>,
    check: Check,
    known: Record,
    i: int,
    reason: Reason,
)
    requires
        is_outcome(outcome, findings, only, check, Some(known)),
        0 <= i < findings.len(),
        known.dom().contains(findings[i].function),
        forall|k: int|
            0 <= k < findings[i].categories.len() ==> known[findings[i].function].contains(
                #[trigger] findings[i].categories[k],
            ),
    ensures
        outcome.violations.contains((findings[i], reason)) ==> reason is Unclassified
            && check.fail_on_unknown,
{
    failures_are_these(findings, check, Some(known), findings[i], reason);
}

/// Without a baseline, a function that is forbidden to panic and is found to
/// fails the check, and with no gate at all every function is.
pub proof fn what_is_forbidden_fails(
    outcome: OutcomeView,
    findings: Seq<FindingView>,
    only: Option<CategorySet>,
    check: Check,
    i: int,
)
    requires
        is_outcome(outcome, findings, only, check, None),
        0 <= i < findings.len(),
        !lets_pass(check, findings[i].function),
    ensures
        forbids(check, findings[i].function) ==> outcome.violations.contains(
            (findings[i], Reason::Forbidden),
        ) && outcome.fails(),
        check.forbid@.len() == 0 && check.max is None && check.baseline is None
            ==> outcome.violations.contains((findings[i], Reason::Forbidden)) && outcome.fails(),
{
    let f = findings[i];
    failures_are_these(findings, check, None, f, Reason::Forbidden);
    assert(findings.contains(f));
}

/// A function that is let pass does not fail: one that is forbidden under no
/// pattern and over no ceiling is not said to be.
pub proof fn what_is_let_pass_does_not_fail(
    outcome: OutcomeView,
    findings: Seq<FindingView>,
    only: Option<CategorySet>,
    check: Check,
    known: Option<Record>,
    i: int,
    reason: Reason,
)
    requires
        is_outcome(outcome, findings, only, check, known),
        0 <= i < findings.len(),
        outcome.violations.contains((findings[i], reason)),
    ensures
        !lets_pass(check, findings[i].function),
        reason is Forbidden ==> known is None && (forbids(check, findings[i].function) || (
        check.forbid@.len() == 0 && check.max is None && check.baseline is None)),
        reason is New ==> known is Some && (!known->0.dom().contains(findings[i].function)
            || exists|k: int|
            0 <= k < findings[i].categories.len() && !known->0[findings[i].function].contains(
                #[trigger] findings[i].categories[k],
            )),
        reason is Unclassified ==> check.fail_on_unknown && (check.forbid@.len() == 0 || forbids(
            check,
            findings[i].function,
        )),
{
    failures_are_these(findings, check, known, findings[i], reason);
}

/// What could not be read fails a check that asks for it: a finding whose
/// categories name code nobody could read fails for some reason, wherever it
/// is asked about and not let pass.
pub proof fn what_cannot_be_read_fails(
    outcome: OutcomeView,
    findings: Seq<FindingView>,
    only: Option<CategorySet>,
    check: Check,
    known: Option<Record>,
    i: int,
    k: int,
    c: Category,
)
    requires
        is_outcome(outcome, findings, only, check, known),
        0 <= i < findings.len(),
        0 <= k < findings[i].categories.len(),
        findings[i].categories[k] == c.spec_name(),
        c is Unknown || c is Foreign || c is DynCall || c is FnPointer || c is GenericBound,
        check.fail_on_unknown,
        check.forbid@.len() == 0 || forbids(check, findings[i].function),
        !lets_pass(check, findings[i].function),
    ensures
        exists|reason: Reason| #[trigger] outcome.violations.contains((findings[i], reason)),
        outcome.fails(),
{
    let f = findings[i];
    assert(findings.contains(f));
    assert(named(f.categories[k], c));
    assert(category::unread().contains(c));
    assert(names_any(f.categories, category::unread()));
    let reason = reason_of(f, check, known)->0;
    failures_are_these(findings, check, known, f, reason);
    assert(outcome.violations.contains((f, reason)));
}

/// A check that passes found no more functions than its ceiling, and one that
/// finds more fails, whatever else it lets pass.
pub proof fn a_ceiling_is_kept(
    outcome: OutcomeView,
    findings: Seq<FindingView>,
    only: Option<CategorySet>,
    check: Check,
    known: Option<Record>,
)
    requires
        is_outcome(outcome, findings, only, check, known),
        check.max is Some,
    ensures
        findings.len() > check.max->0 ==> outcome.fails(),
        !outcome.fails() ==> findings.len() <= check.max->0,
        outcome.over_max is Some ==> findings.len() > check.max->0,
{
}

/// What a baseline records and a run no longer finds is told as fixed, where
/// the run was looking for one of the categories recorded; what the run still
/// finds is not.
pub proof fn what_is_gone_is_fixed(
    outcome: OutcomeView,
    findings: Seq<FindingView>,
    only: Option<CategorySet>,
    check: Check,
    known: Record,
    function: Seq<char>,
)
    requires
        is_outcome(outcome, findings, only, check, Some(known)),
    ensures
        outcome.fixed.contains(function) <==> known.dom().contains(function) && (forall|i: int|
            0 <= i < findings.len() ==> (#[trigger] findings[i]).function != function) && (only
            is None || exists|k: int, c: Category|
            0 <= k < known[function].len() && only->0@.contains(c) && #[trigger] named(
                known[function][k],
                c,
            )),
{
}

/// Whether a message is what an unusable pattern is refused with.
pub open spec fn says_unusable(flag: Seq<char>, why: Seq<char>, message: Seq<char>) -> bool {
    message == "a pattern given to "@ + flag + " is not valid: "@ + why
}

/// Whether a message names a flag whose patterns cannot be used.
pub open spec fn names_flag(flag: Seq<char>, message: Seq<char>) -> bool {
    exists|why: Seq<char>| #[trigger] says_unusable(flag, why, message)
}

/// Whether a check ended in an error that names a flag.
pub open spec fn refused_for(r: Result<Outcome, String>, flag: Seq<char>) -> bool {
    match r {
        Ok(_) => false,
        Err(message) => names_flag(flag, message@),
    }
}

/// Compiles a set of patterns, naming the flag when one is unusable.
fn compile(patterns: &Vec<String>, flag: &str) -> (r: Result<regex::RegexSet, String>)
    ensures
        match r {
            Ok(set) => patterns_of(set) == text::texts(patterns@) && all_parse(
                text::texts(patterns@),
            ),
            Err(message) => patterns@.len() > 0 && names_flag(flag@, message@),
        },
{
    match pattern_set(patterns) {
        Ok(set) => Ok(set),
        Err(why) => {
            let mut message = "a pattern given to ".to_owned();
            message.append(flag);
            message.append(" is not valid: ");
            message.append(why.as_str());
            assert(says_unusable(flag@, why@, message@));
            Err(message)
        },
    }
}

/// What the baseline of a check records, if the check names one and it is not
/// refused.
pub open spec fn known_to(check: Check, contents: Result<String, String>, args: Args) -> Option<
    Record,
> {
    match check.baseline {
        Some(path) => accepted(path@, contents, args),
        None => None,
    }
}

/// Whether an outcome is what a check concludes of a solved graph.
pub open spec fn concludes(
    outcome: OutcomeView,
    graph: Graph,
    solution: Solution,
    args: Args,
    check: Check,
    known: Option<Record>,
    found: Seq<report::FindingView>,
) -> bool {
    &&& report::is_report(
        found,
        Selection::spec_of(args),
        graph@.bodies,
        Selection::enabled_of(solution),
    )
    &&& is_outcome(outcome, all_gated(graph@.bodies, found), args.only, check, known)
}

/// Applies a check to a solved graph.
///
/// Takes what reading the baseline gave: its text, or why there is none. It is
/// looked at only if the check names a baseline.
///
/// # Errors
///
/// Returns an error for an unusable pattern or an unreadable baseline. The
/// patterns that forbid are looked at before those that allow, and both before
/// the baseline.
pub fn run(
    graph: &Graph,
    solution: &Solution,
    args: &Args,
    check: &Check,
    contents: &Result<String, String>,
) -> (r: Result<Outcome, String>)
    requires
        solution.states().len() == graph@.bodies.len(),
    ensures
        match r {
            Ok(outcome) => {
                &&& check.baseline is Some ==> known_to(*check, *contents, *args) is Some
                &&& exists|found: Seq<report::FindingView>| #[trigger]
                    concludes(
                        outcome@,
                        *graph,
                        *solution,
                        *args,
                        *check,
                        known_to(*check, *contents, *args),
                        found,
                    )
            },
            Err(message) => {
                ||| check.forbid@.len() > 0 && names_flag("--forbid"@, message@)
                ||| check.allow@.len() > 0 && names_flag("--allow"@, message@)
                ||| match check.baseline {
                    Some(path) => known_to(*check, *contents, *args) is None && says_refused(
                        path@,
                        *contents,
                        *args,
                        message@,
                    ),
                    None => false,
                }
            },
        },
        !all_parse(text::texts(check.forbid@)) ==> refused_for(r, "--forbid"@),
        !all_parse(text::texts(check.allow@)) ==> refused_for(r, "--forbid"@) || refused_for(
            r,
            "--allow"@,
        ),
{
    let (findings, Ghost(found)) = collect(graph, solution, args);
    let forbid = match compile(&check.forbid, "--forbid") {
        Ok(set) => set,
        Err(message) => {
            return Err(message);
        },
    };
    let allow = match compile(&check.allow, "--allow") {
        Ok(set) => set,
        Err(message) => {
            return Err(message);
        },
    };
    let known = match &check.baseline {
        Some(path) => match read_baseline(path.as_str(), contents, args) {
            Ok(known) => Some(known),
            Err(message) => {
                return Err(message);
            },
        },
        None => None,
    };
    let outcome = gate(findings, args.only, check, &forbid, &allow, &known);
    assert(concludes(
        outcome@,
        *graph,
        *solution,
        *args,
        *check,
        known_to(*check, *contents, *args),
        found,
    ));
    Ok(outcome)
}

/// The suffix that makes a count read as English.
pub open spec fn ending(count: nat) -> Seq<char> {
    if count == 1 {
        ""@
    } else {
        "s"@
    }
}

/// The suffix that makes a count read as English.
fn plural(count: usize) -> (r: &'static str)
    ensures
        r@ == ending(count as nat),
{
    if count == 1 {
        ""
    } else {
        "s"
    }
}

/// A text followed by the first `n` failures, as prose.
pub open spec fn with_violations(
    out: Seq<char>,
    violations: Seq<(FindingView, Reason)>,
    n: nat,
) -> Seq<char>
    decreases n,
{
    if n == 0 {
        out
    } else {
        let out = with_violations(out, violations, (n - 1) as nat);
        let (f, reason) = violations[n - 1];
        let out = out + f.function + "\n"@;
        let out = match f.loc {
            Some(loc) => out + "    at "@ + loc + "\n"@,
            None => out,
        };
        out + "    "@ + text::joined(f.categories, ", "@) + " ("@ + reason.spec_describe() + ")\n"@
    }
}

/// A text followed by the first `n` of a list of names, each on its line.
pub open spec fn with_names(out: Seq<char>, names: Seq<Seq<char>>, n: nat) -> Seq<char>
    decreases n,
{
    if n == 0 {
        out
    } else {
        with_names(out, names, (n - 1) as nat) + "    "@ + names[n - 1] + "\n"@
    }
}

/// The last line of a check: which gate passed, or what to do.
///
/// A check that reports something other than what was asked for reads as
/// though it checked the wrong thing.
pub open spec fn with_verdict(out: Seq<char>, outcome: OutcomeView, check: Check) -> Seq<char> {
    let total = outcome.findings.len();
    if outcome.fails() {
        out + "Run `panicgraph why <function>` to see how one of them gets there.\n"@
    } else if check.baseline is Some {
        out + "No panic that the baseline does not already record. "@ + text::decimal(total)
            + " function"@ + ending(total) + " can panic.\n"@
    } else if check.max is Some {
        out + text::decimal(total) + " function"@ + ending(total) + " can panic, within the "@
            + text::decimal(check.max->Some_0 as nat) + " allowed.\n"@
    } else if check.forbid@.len() == 0 {
        out + "No function can panic under this policy.\n"@
    } else {
        out + "No function matching "@ + text::joined(text::texts(check.forbid@), " or "@)
            + " can panic. "@ + text::decimal(total) + " can in total.\n"@
    }
}

/// The human readable verdict after what is already written.
pub open spec fn with_prose(out: Seq<char>, outcome: OutcomeView, check: Check) -> Seq<char> {
    let count = outcome.violations.len();
    let out = if count > 0 {
        with_violations(
            out + text::decimal(count) + " function"@ + ending(count)
                + " must not panic and can:\n\n"@,
            outcome.violations,
            count,
        ) + "\n"@
    } else {
        out
    };
    let out = match outcome.over_max {
        Some((actual, max)) => out + text::decimal(actual as nat)
            + " functions can panic, which is more than the "@ + text::decimal(max as nat)
            + " allowed.\n\n"@,
        None => out,
    };
    let gone = outcome.fixed.len();
    let out = if gone > 0 {
        with_names(
            out + text::decimal(gone) + " function"@ + ending(gone)
                + " in the baseline no longer panics. Refresh it with `panicgraph baseline`.\n"@,
            outcome.fixed,
            if gone < 10 {
                gone
            } else {
                10
            },
        ) + "\n"@
    } else {
        out
    };
    with_verdict(out, outcome, check)
}

/// Writes the failures of a check.
fn violations_prose(outcome: &Outcome, out: &mut String)
    ensures
        final(out)@ == with_violations(
            old(out)@,
            outcome@.violations,
            outcome@.violations.len(),
        ),
{
    let ghost start = out@;
    let mut i: usize = 0;
    while i < outcome.violations.len()
        invariant
            i <= outcome.violations@.len(),
            out@ == with_violations(start, outcome@.violations, i as nat),
        decreases outcome.violations.len() - i,
    {
        let violation = &outcome.violations[i];
        assert(outcome@.violations[i as int] == (violation.finding@, violation.reason));
        out.append(violation.finding.function.as_str());
        out.append("\n");
        if let Some(loc) = &violation.finding.loc {
            out.append("    at ");
            out.append(loc.as_str());
            out.append("\n");
        }
        out.append("    ");
        out.append(text::join(&violation.finding.categories, ", ").as_str());
        out.append(" (");
        out.append(violation.reason.describe());
        out.append(")\n");
        i += 1;
    }
}

/// Writes the human readable verdict.
fn human(outcome: &Outcome, check: &Check, out: &mut String)
    ensures
        final(out)@ == with_prose(old(out)@, outcome@, *check),
{
    let count: usize = outcome.violations.len();
    if count > 0 {
        out.append(text::number(count as u64).as_str());
        out.append(" function");
        out.append(plural(count));
        out.append(" must not panic and can:\n\n");
        violations_prose(outcome, out);
        out.append("\n");
    }
    if let Some((actual, max)) = outcome.over_max {
        out.append(text::number(actual as u64).as_str());
        out.append(" functions can panic, which is more than the ");
        out.append(text::number(max as u64).as_str());
        out.append(" allowed.\n\n");
    }
    let gone: usize = outcome.fixed.len();
    if gone > 0 {
        out.append(text::number(gone as u64).as_str());
        out.append(" function");
        out.append(plural(gone));
        out.append(
            " in the baseline no longer panics. Refresh it with `panicgraph baseline`.\n",
        );
        let ghost start = out@;
        let mut i: usize = 0;
        while i < gone && i < 10
            invariant
                i <= gone == outcome.fixed@.len(),
                i <= 10,
                out@ == with_names(start, outcome@.fixed, i as nat),
            decreases gone - i,
        {
            assert(outcome@.fixed[i as int] == outcome.fixed@[i as int]@);
            out.append("    ");
            out.append(outcome.fixed[i].as_str());
            out.append("\n");
            i += 1;
        }
        out.append("\n");
    }
    let total: usize = outcome.findings.len();
    if outcome.failed() {
        out.append("Run `panicgraph why <function>` to see how one of them gets there.\n");
    } else if check.baseline.is_some() {
        out.append("No panic that the baseline does not already record. ");
        out.append(text::number(total as u64).as_str());
        out.append(" function");
        out.append(plural(total));
        out.append(" can panic.\n");
    } else if let Some(max) = check.max {
        out.append(text::number(total as u64).as_str());
        out.append(" function");
        out.append(plural(total));
        out.append(" can panic, within the ");
        out.append(text::number(max as u64).as_str());
        out.append(" allowed.\n");
    } else if check.forbid.len() == 0 {
        out.append("No function can panic under this policy.\n");
    } else {
        out.append("No function matching ");
        out.append(text::join(&check.forbid, " or ").as_str());
        out.append(" can panic. ");
        out.append(text::number(total as u64).as_str());
        out.append(" can in total.\n");
    }
}

/// A text followed by a workflow command for each of the first `n` failures.
pub open spec fn with_errors(
    out: Seq<char>,
    violations: Seq<(FindingView, Reason)>,
    n: nat,
) -> Seq<char>
    decreases n,
{
    if n == 0 {
        out
    } else {
        let (f, reason) = violations[n - 1];
        with_errors(out, violations, (n - 1) as nat) + "::error "@ + report::location_fields(f.loc)
            + "title=Function can panic::"@ + f.function + " can panic with "@ + text::joined(
            f.categories,
            ", "@,
        ) + " ("@ + reason.spec_describe() + ")\n"@
    }
}

/// A text followed by a workflow command for each of the first `n` functions
/// that no longer panic.
pub open spec fn with_notices(out: Seq<char>, fixed: Seq<Seq<char>>, n: nat) -> Seq<char>
    decreases n,
{
    if n == 0 {
        out
    } else {
        with_notices(out, fixed, (n - 1) as nat) + "::notice title=Baseline is stale::"@ + fixed[n
            - 1] + " no longer panics\n"@
    }
}

/// The workflow commands of an outcome after what is already written.
pub open spec fn with_commands(out: Seq<char>, outcome: OutcomeView) -> Seq<char> {
    let out = with_errors(out, outcome.violations, outcome.violations.len());
    let out = match outcome.over_max {
        Some((actual, max)) => out + "::error title=Too many panicking functions::"@
            + text::decimal(actual as nat) + " functions can panic, more than the "@
            + text::decimal(max as nat) + " allowed\n"@,
        None => out,
    };
    with_notices(out, outcome.fixed, outcome.fixed.len())
}

/// Writes workflow commands a continuous integration log will annotate.
fn github(outcome: &Outcome, out: &mut String)
    ensures
        final(out)@ == with_commands(old(out)@, outcome@),
{
    let ghost start = out@;
    let mut i: usize = 0;
    while i < outcome.violations.len()
        invariant
            i <= outcome.violations@.len(),
            out@ == with_errors(start, outcome@.violations, i as nat),
        decreases outcome.violations.len() - i,
    {
        let violation = &outcome.violations[i];
        assert(outcome@.violations[i as int] == (violation.finding@, violation.reason));
        out.append("::error ");
        out.append(report::workflow_location(&violation.finding.loc).as_str());
        out.append("title=Function can panic::");
        out.append(violation.finding.function.as_str());
        out.append(" can panic with ");
        out.append(text::join(&violation.finding.categories, ", ").as_str());
        out.append(" (");
        out.append(violation.reason.describe());
        out.append(")\n");
        i += 1;
    }
    if let Some((actual, max)) = outcome.over_max {
        out.append("::error title=Too many panicking functions::");
        out.append(text::number(actual as u64).as_str());
        out.append(" functions can panic, more than the ");
        out.append(text::number(max as u64).as_str());
        out.append(" allowed\n");
    }
    let ghost middle = out@;
    let mut k: usize = 0;
    while k < outcome.fixed.len()
        invariant
            k <= outcome.fixed@.len(),
            out@ == with_notices(middle, outcome@.fixed, k as nat),
        decreases outcome.fixed.len() - k,
    {
        assert(outcome@.fixed[k as int] == outcome.fixed@[k as int]@);
        out.append("::notice title=Baseline is stale::");
        out.append(outcome.fixed[k].as_str());
        out.append(" no longer panics\n");
        k += 1;
    }
}

/// The documents of the failures of a check.
pub open spec fn violation_docs(violations: Seq<(FindingView, Reason)>) -> Seq<Json> {
    violations.map_values(
        |v: (FindingView, Reason)|
            json::empty_object().with("function"@, Json::Str(v.0.function)).with(
                "reason"@,
                Json::Str(v.1.spec_describe()),
            ).with("categories"@, json::listed(v.0.categories)).with(
                "location"@,
                json::optional(v.0.loc),
            ),
    )
}

/// An outcome as a document.
pub open spec fn outcome_doc(outcome: OutcomeView) -> Json {
    json::empty_object().with("passed"@, Json::Bool(!outcome.fails())).with(
        "analysed"@,
        json::counted(outcome.findings.len()),
    ).with("violations"@, Json::Arr(violation_docs(outcome.violations))).with(
        "fixed"@,
        json::listed(outcome.fixed),
    )
}

/// An outcome as a document.
fn outcome_value(outcome: &Outcome) -> (r: serde_json::Value)
    ensures
        json::meaning(r) == outcome_doc(outcome@),
{
    let mut items: Vec<serde_json::Value> = Vec::new();
    let mut i: usize = 0;
    while i < outcome.violations.len()
        invariant
            i <= outcome.violations@.len(),
            items@.len() == i,
            forall|k: int|
                0 <= k < i ==> json::meaning(#[trigger] items@[k]) == violation_docs(
                    outcome@.violations,
                )[k],
        decreases outcome.violations.len() - i,
    {
        let violation = &outcome.violations[i];
        assert(outcome@.violations[i as int] == (violation.finding@, violation.reason));
        let mut item = json::object();
        json::put(&mut item, "function", json::string(violation.finding.function.clone()));
        json::put(&mut item, "reason", json::words(violation.reason.describe()));
        json::put(&mut item, "categories", json::list(&violation.finding.categories));
        json::put(&mut item, "location", json::maybe(&violation.finding.loc));
        items.push(item);
        i += 1;
    }
    assert(json::meanings(items@) =~= violation_docs(outcome@.violations));
    let mut doc = json::object();
    json::put(&mut doc, "passed", json::flag(!outcome.failed()));
    json::put(&mut doc, "analysed", json::number(outcome.findings.len() as u64));
    json::put(&mut doc, "violations", json::array(items));
    json::put(&mut doc, "fixed", json::list(&outcome.fixed));
    doc
}

/// Renders the outcome.
///
/// # Errors
///
/// Returns an error if the document cannot be written, which does not happen.
pub fn render(outcome: &Outcome, args: &Args, check: &Check, out: &mut String) -> (r: Result<
    (),
    String,
>)
    ensures
        r is Ok,
        final(out)@ == (match args.format {
            Format::Json => old(out)@ + json::pretty(outcome_doc(outcome@)) + "\n"@,
            Format::Github => with_commands(old(out)@, outcome@),
            _ => with_prose(old(out)@, outcome@, *check),
        }),
{
    match args.format {
        Format::Json => report::emit(&outcome_value(outcome), out),
        Format::Github => {
            github(outcome, out);
            Ok(())
        },
        _ => {
            human(outcome, check, out);
            Ok(())
        },
    }
}

} // verus!
