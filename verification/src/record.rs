//! Makes the record of a function out of what was read of its body, and walks
//! from the functions of a crate to everything they reach.

use vstd::prelude::*;

use crate::extract;
use crate::extract::{scan, Build, Outline, Raw, RawView, Seen, SeenView, UnwindEdge};
use crate::flow;
use crate::flow::reached_from;
use crate::fold;
use crate::fold::reachable;
use crate::mir::{Function, Program};
use crate::model;
use crate::model::{
    copy_loc, Body, BodyView, CallSite, CallView, FuncKey, Guard, GuardView, Loc, LocView,
    PanicSite, SiteView, UnwindOrigin, OPEN_PREFIX,
};
use crate::table;
use crate::table::Table;
use crate::text;

verus! {

/// The origins of the first `n` unwind edges that lead to a block, each once.
pub open spec fn origins_at(function: Function, edges: Seq<UnwindEdge>, bb: usize, n: nat) -> Seq<
    UnwindOrigin,
>
    decreases n,
{
    if n == 0 {
        Seq::empty()
    } else {
        let earlier = origins_at(function, edges, bb, (n - 1) as nat);
        let edge = edges[n - 1];
        if edge.target < function.blocks@.len() && bb < function.blocks@.len() && flow::reaches(
            function,
            edge.target as int,
            bb as int,
        ) && !earlier.contains(edge.origin) {
            earlier.push(edge.origin)
        } else {
            earlier
        }
    }
}

/// What must happen for a block to be reached.
pub open spec fn guard_at(function: Function, edges: Seq<UnwindEdge>, bb: usize) -> GuardView {
    GuardView {
        normal: bb < function.blocks@.len() && !function.blocks@[bb as int].cleanup,
        origins: origins_at(function, edges, bb, edges.len()),
    }
}

/// Which blocks each unwind edge leads to.
struct Spread {
    from: Vec<Vec<bool>>,
}

impl Spread {
    spec fn of(self, function: Function, edges: Seq<UnwindEdge>) -> bool {
        &&& self.from@.len() == edges.len()
        &&& forall|e: int|
            0 <= e < edges.len() ==> (#[trigger] self.from@[e])@.len() == function.blocks@.len()
        &&& forall|e: int, b: int|
            0 <= e < edges.len() && 0 <= b < function.blocks@.len()
                ==> #[trigger] self.from@[e]@[b] == (edges[e].target < function.blocks@.len()
                && flow::reaches(function, edges[e].target as int, b))
    }

    /// Marks every block reachable from each unwind edge.
    fn new(function: &Function, edges: &Vec<UnwindEdge>) -> (r: Spread)
        ensures
            r.of(*function, edges@),
    {
        let mut from: Vec<Vec<bool>> = Vec::new();
        let mut i: usize = 0;
        while i < edges.len()
            invariant
                i <= edges@.len(),
                from@.len() == i,
                forall|e: int|
                    0 <= e < i ==> (#[trigger] from@[e])@.len() == function.blocks@.len(),
                forall|e: int, b: int|
                    0 <= e < i && 0 <= b < function.blocks@.len() ==> #[trigger] from@[e]@[b] == (
                    edges@[e].target < function.blocks@.len() && flow::reaches(
                        *function,
                        edges@[e].target as int,
                        b,
                    )),
            decreases edges@.len() - i,
        {
            from.push(reached_from(function, edges[i].target));
            i += 1;
        }
        Spread { from }
    }

    /// The reachability guard of one basic block.
    fn guard(&self, function: &Function, edges: &Vec<UnwindEdge>, bb: usize) -> (r: Guard)
        requires
            self.of(*function, edges@),
        ensures
            r@ == guard_at(*function, edges@, bb),
    {
        let mut origins: Vec<UnwindOrigin> = Vec::new();
        let inside = bb < function.blocks.len();
        let mut i: usize = 0;
        while i < edges.len()
            invariant
                i <= edges@.len(),
                self.of(*function, edges@),
                inside == (bb < function.blocks@.len()),
                origins@ == origins_at(*function, edges@, bb, i as nat),
            decreases edges@.len() - i,
        {
            if inside && self.from[i][bb] && !listed(&origins, edges[i].origin) {
                origins.push(edges[i].origin);
            }
            i += 1;
        }
        let normal = inside && !function.blocks[bb].cleanup;
        let r = Guard { normal, origins };
        assert(r@ =~= guard_at(*function, edges@, bb));
        r
    }
}

fn listed(origins: &Vec<UnwindOrigin>, origin: UnwindOrigin) -> (r: bool)
    ensures
        r == origins@.contains(origin),
{
    let mut i: usize = 0;
    while i < origins.len()
        invariant
            i <= origins@.len(),
            forall|k: int| 0 <= k < i ==> origins@[k] != origin,
        decreases origins@.len() - i,
    {
        if origins[i] == origin {
            return true;
        }
        i += 1;
    }
    false
}

/// An origin guards a block exactly when some unwind edge of it leads there.
pub proof fn origins_are_what_leads_there(
    function: Function,
    edges: Seq<UnwindEdge>,
    bb: usize,
    n: nat,
    origin: UnwindOrigin,
)
    requires
        n <= edges.len(),
        bb < function.blocks@.len(),
    ensures
        origins_at(function, edges, bb, n).contains(origin) <==> exists|e: int|
            0 <= e < n && (#[trigger] edges[e]).origin == origin && edges[e].target
                < function.blocks@.len() && flow::reaches(
                function,
                edges[e].target as int,
                bb as int,
            ),
    decreases n,
{
    if n > 0 {
        origins_are_what_leads_there(function, edges, bb, (n - 1) as nat, origin);
        let earlier = origins_at(function, edges, bb, (n - 1) as nat);
        let all = origins_at(function, edges, bb, n);
        if earlier.contains(origin) {
            let k = choose|k: int| 0 <= k < earlier.len() && earlier[k] == origin;
            assert(all[k] == origin);
        }
        if all.contains(origin) && !earlier.contains(origin) {
            let k = choose|k: int| 0 <= k < all.len() && all[k] == origin;
            assert(k == all.len() - 1) by {
                if k < earlier.len() {
                    assert(earlier[k] == origin);
                }
            }
            assert(edges[n - 1].origin == origin);
        }
        if edges[n - 1].origin == origin && all.len() > earlier.len() {
            assert(all[all.len() - 1] == origin);
        }
    }
}

/// What a body raises directly, with what must happen for each to be reached.
pub open spec fn guarded_sites(function: Function, raw: RawView) -> Seq<SiteView> {
    Seq::new(
        raw.sites.len(),
        |i: int|
            SiteView {
                guard: guard_at(function, raw.unwind_edges, raw.site_blocks[i]),
                ..raw.sites[i]
            },
    )
}

/// The calls a body makes, with what must happen for each to be reached.
pub open spec fn guarded_calls(function: Function, raw: RawView) -> Seq<CallView> {
    Seq::new(
        raw.calls.len(),
        |i: int|
            CallView {
                guard: guard_at(function, raw.unwind_edges, raw.call_blocks[i]),
                ..raw.calls[i]
            },
    )
}

fn guard_sites(function: &Function, raw: &Raw, spread: &Spread) -> (r: Vec<PanicSite>)
    requires
        raw@.wf(),
        spread.of(*function, raw.unwind_edges@),
    ensures
        model::site_views(r@) == guarded_sites(*function, raw@),
{
    let mut r: Vec<PanicSite> = Vec::new();
    let mut i: usize = 0;
    while i < raw.sites.len()
        invariant
            raw@.wf(),
            spread.of(*function, raw.unwind_edges@),
            i <= raw.sites@.len(),
            r@.len() == i,
            forall|k: int| 0 <= k < i ==> (#[trigger] r@[k])@ == guarded_sites(*function, raw@)[k],
        decreases raw.sites@.len() - i,
    {
        let mut site = raw.sites[i].clone();
        let ghost said = site@;
        assert(said == raw@.sites[i as int]);
        site.guard = spread.guard(function, &raw.unwind_edges, raw.site_blocks[i]);
        assert(site@ =~= guarded_sites(*function, raw@)[i as int]);
        r.push(site);
        i += 1;
    }
    assert(model::site_views(r@) =~= guarded_sites(*function, raw@));
    r
}

fn guard_calls(function: &Function, raw: &Raw, spread: &Spread) -> (r: Vec<CallSite>)
    requires
        raw@.wf(),
        spread.of(*function, raw.unwind_edges@),
    ensures
        model::call_views(r@) == guarded_calls(*function, raw@),
{
    let mut r: Vec<CallSite> = Vec::new();
    let mut i: usize = 0;
    while i < raw.calls.len()
        invariant
            raw@.wf(),
            spread.of(*function, raw.unwind_edges@),
            i <= raw.calls@.len(),
            r@.len() == i,
            forall|k: int| 0 <= k < i ==> (#[trigger] r@[k])@ == guarded_calls(*function, raw@)[k],
        decreases raw.calls@.len() - i,
    {
        let mut call = raw.calls[i].clone();
        let ghost said = call@;
        assert(said == raw@.calls[i as int]);
        call.guard = spread.guard(function, &raw.unwind_edges, raw.call_blocks[i]);
        assert(call@ =~= guarded_calls(*function, raw@)[i as int]);
        r.push(call);
        i += 1;
    }
    assert(model::call_views(r@) =~= guarded_calls(*function, raw@));
    r
}

/// What decides which functions are the crate's own.
#[derive(Debug, Clone, Copy, PartialEq, Eq, Structural)]
pub struct Standing {
    /// Whether the crate is compiled as a test.
    pub testing: bool,
    /// Whether it is an integration test or a bench, which links the library
    /// rather than being it.
    pub integration: bool,
    /// Whether the function is defined in the crate.
    pub defined_here: bool,
    /// Whether the instance still has parameters.
    pub open: bool,
    /// Whether the function belongs to the library the package builds.
    pub of_package: bool,
    /// Whether the function it is written in has to be instantiated.
    pub instantiated: bool,
}

impl Standing {
    /// Whether the function is reported as the crate's own.
    pub open spec fn spec_reported(self) -> bool {
        if !self.testing {
            self.defined_here
        } else {
            !(self.integration && self.defined_here) && !self.open && self.of_package
                && self.instantiated
        }
    }

    /// Whether a function is reported as the crate under analysis's own.
    ///
    /// In a test crate the functions defined locally are the tests and the
    /// crate's own code compiled again for them, and neither is what was
    /// asked about: the second is already reported from the build that is.
    /// What such a crate adds is the instantiations it makes of the
    /// library's generic functions, which the library's own build could
    /// only read as written. Those belong to the library, whether it is
    /// compiled again for its unit tests or linked by an integration test,
    /// and are reported as its own. A closure is judged by the function it
    /// is written in, so one inside a test stays out. An integration test
    /// may be named after the package it tests, so there the library is
    /// only ever the crate linked in, never the test crate itself. A generic
    /// body as written is the library build's to report.
    pub fn reported(self) -> (r: bool)
        ensures
            r == self.spec_reported(),
    {
        if !self.testing {
            return self.defined_here;
        }
        if (self.integration && self.defined_here) || self.open {
            return false;
        }
        self.of_package && self.instantiated
    }
}

/// Whether a crate is the library a package builds.
pub fn of_package(library: &Option<String>, krate: &str) -> (r: bool)
    ensures
        r == (model::text_view(*library) == Some(krate@)),
{
    match library {
        Some(name) => text::same(name.as_str(), krate),
        None => false,
    }
}

/// The path a function reports under.
pub open spec fn shown(
    library: Option<Seq<char>>,
    krate: Seq<char>,
    defined_here: bool,
    path: Seq<char>,
) -> Seq<char> {
    if defined_here || library != Some(krate) {
        path
    } else {
        text::replaced(path, krate + "::"@, Seq::empty())
    }
}

/// The path a function reports under.
///
/// A function of the library reached from one of its test crates is
/// named the way the library's own build names it, without the crate
/// in front of its paths, so the two reports of one function fall
/// under one name.
pub fn display_of(library: &Option<String>, krate: &str, defined_here: bool, path: &str) -> (r:
    String)
    ensures
        r@ == shown(model::text_view(*library), krate@, defined_here, path@),
{
    if defined_here || !of_package(library, krate) {
        return path.to_owned();
    }
    let mut prefix = krate.to_owned();
    prefix.append("::");
    text::without(path, prefix.as_str())
}

/// The key of a generic body.
pub open spec fn open_key_of(
    krate: Seq<char>,
    stamp: u64,
    path: Seq<char>,
    rendered: Seq<char>,
) -> Seq<char> {
    OPEN_PREFIX@ + krate + "["@ + text::hexadecimal(stamp as nat, 16) + "]"@ + path + " "@
        + rendered
}

/// The key of a generic body.
///
/// A symbol name only exists once the generic arguments are
/// concrete, so a generic body is keyed by its crate, its
/// disambiguated path, and its arguments instead. Two crates may
/// each define `parse<T>`, and `f::<U>` and `f::<Wrapper<T>>`
/// resolve their calls differently.
pub fn open_symbol(krate: &str, stamp: u64, path: &str, rendered: &str) -> (r: FuncKey)
    ensures
        r@ == open_key_of(krate@, stamp, path@, rendered@),
        model::open_key(r@),
{
    let mut out = OPEN_PREFIX.to_owned();
    out.append(krate);
    out.append("[");
    out.append(text::hex(stamp).as_str());
    out.append("]");
    out.append(path);
    out.append(" ");
    out.append(rendered);
    proof {
        let prefix = OPEN_PREFIX@;
        assert(out@.subrange(0, prefix.len() as int) =~= prefix);
    }
    FuncKey(out)
}

/// A position in a source file.
pub open spec fn placed(file: Seq<char>, line: usize, col: usize) -> LocView {
    LocView {
        file,
        line: if line <= u32::MAX {
            line as u32
        } else {
            0
        },
        col: if col < u32::MAX {
            (col + 1) as u32
        } else {
            0
        },
    }
}

/// Converts a position, with its columns counted from zero, into a source
/// location.
pub fn loc_of(file: String, line: usize, col: usize) -> (r: Loc)
    ensures
        r@ == placed(file@, line, col),
{
    let line: u32 = if line <= u32::MAX as usize {
        line as u32
    } else {
        0
    };
    let col: u32 = if col < u32::MAX as usize {
        (col + 1) as u32
    } else {
        0
    };
    Loc { file, line, col }
}

/// What the compiler says of a function.
#[derive(Debug)]
pub struct Subject {
    pub key: FuncKey,
    pub display: String,
    pub krate: String,
    pub loc: Option<Loc>,
    /// Whether it is foreign.
    pub foreign: bool,
    /// Whether the compiler guarantees it cannot unwind.
    pub never_unwinds: bool,
    pub standing: Standing,
    /// Its body among those read and what is said of each block, where the
    /// compiler can produce one.
    pub body: Option<(usize, Vec<Outline>)>,
}

impl Subject {
    /// Whether the body is one of a program's.
    pub open spec fn fits(self, program: Program) -> bool {
        match self.body {
            Some((at, outlines)) => at < program.functions@.len() && outlines@.len()
                == program.functions@[at as int].blocks@.len(),
            None => true,
        }
    }
}

/// The record of a function, what was seen from then on, and the functions to
/// expand.
pub open spec fn recorded(build: Build, program: Program, subject: Subject, seen: SeenView) -> (
    BodyView,
    SeenView,
    Seq<usize>,
) {
    match subject.body {
        None => (
            BodyView {
                foreign: subject.foreign,
                local: subject.standing.spec_reported(),
                from_tests: subject.standing.testing,
                opaque: !subject.never_unwinds,
                ..model::opaque_body(subject.key@, subject.display@, subject.krate@)
            },
            seen,
            Seq::empty(),
        ),
        Some((at, outlines)) => {
            let function = program.functions@[at as int];
            let (s, raw) = extract::spec_scan(
                build,
                function,
                fold::spec_reachable(program, at),
                outlines@,
                seen,
            );
            (
                BodyView {
                    key: subject.key@,
                    display: subject.display@,
                    krate: subject.krate@,
                    loc: model::loc_view(subject.loc),
                    sites: guarded_sites(function, raw),
                    calls: guarded_calls(function, raw),
                    opaque: false,
                    foreign: false,
                    local: subject.standing.spec_reported(),
                    from_tests: subject.standing.testing,
                },
                s,
                raw.successors,
            )
        },
    }
}

/// Records one function and returns the callees worth expanding.
///
/// Foreign code has no Rust body to read and never will, so it is
/// reported apart from a Rust function a fuller standard library
/// would have shown. A body the compiler could not produce is still recorded
/// against the crate that declares it, so the two facts have to
/// agree. A function the compiler guarantees does not unwind raises no
/// panic even though its body is unavailable. Allocator shims are
/// the common case.
fn build_body(build: Build, program: &Program, subject: &Subject, seen: &mut Seen) -> (r: (
    Body,
    Vec<usize>,
))
    requires
        subject.fits(*program),
    ensures
        (r.0@, final(seen)@, r.1@) == recorded(build, *program, *subject, old(seen)@),
{
    let ghost was = seen@;
    match &subject.body {
        None => {
            let mut body = Body::opaque(
                subject.key.clone(),
                subject.display.clone(),
                subject.krate.clone(),
            );
            let ghost plain = body@;
            body.foreign = subject.foreign;
            body.local = subject.standing.reported();
            body.from_tests = subject.standing.testing;
            body.opaque = !subject.never_unwinds;
            assert(body@ =~= recorded(build, *program, *subject, was).0);
            (body, Vec::new())
        },
        Some((at, outlines)) => {
            let function = &program.functions[*at];
            let reach = reachable(program, *at);
            let raw = scan(build, function, &reach, outlines, seen);
            let spread = Spread::new(function, &raw.unwind_edges);
            let sites = guard_sites(function, &raw, &spread);
            let calls = guard_calls(function, &raw, &spread);
            let body = Body {
                key: subject.key.clone(),
                display: subject.display.clone(),
                krate: subject.krate.clone(),
                loc: copy_loc(&subject.loc),
                sites,
                calls,
                opaque: false,
                foreign: false,
                local: subject.standing.reported(),
                from_tests: subject.standing.testing,
            };
            assert(body@ =~= recorded(build, *program, *subject, was).0);
            (body, raw.successors)
        },
    }
}

/// What was found in one crate so far, and what is left to look at.
pub struct Extractor {
    /// Every function body observed.
    bodies: Vec<Body>,
    /// What was seen of pointers and trait objects.
    seen: Seen,
    known: Table,
    queue: Vec<usize>,
}

/// What an [`Extractor`] says.
#[verifier::ext_equal]
pub struct ExtractorView {
    pub bodies: Seq<BodyView>,
    pub seen: SeenView,
    pub queue: Seq<usize>,
}

impl View for Extractor {
    type V = ExtractorView;

    closed spec fn view(&self) -> ExtractorView {
        ExtractorView {
            bodies: model::body_views(self.bodies@),
            seen: self.seen@,
            queue: self.queue@,
        }
    }
}

impl ExtractorView {
    /// Whether a function is recorded already.
    pub open spec fn knows(self, key: Seq<char>) -> bool {
        exists|i: int| 0 <= i < self.bodies.len() && (#[trigger] self.bodies[i]).key == key
    }

    /// What was found once a function is recorded.
    pub open spec fn with(self, build: Build, program: Program, subject: Subject) -> ExtractorView {
        if self.knows(subject.key@) {
            self
        } else {
            let (body, seen, successors) = recorded(build, program, subject, self.seen);
            ExtractorView {
                bodies: self.bodies.push(body),
                seen,
                queue: self.queue + successors,
            }
        }
    }

    /// Whether no function is recorded twice.
    pub open spec fn once_each(self) -> bool {
        forall|i: int, j: int|
            0 <= i < j < self.bodies.len() ==> (#[trigger] self.bodies[i]).key != (
            #[trigger] self.bodies[j]).key
    }
}

/// Recording a function leaves every function recorded once.
pub proof fn each_function_is_recorded_once(
    was: ExtractorView,
    build: Build,
    program: Program,
    subject: Subject,
)
    requires
        was.once_each(),
    ensures
        was.with(build, program, subject).once_each(),
        was.with(build, program, subject).knows(subject.key@),
{
    let now = was.with(build, program, subject);
    if !was.knows(subject.key@) {
        assert(now.bodies[was.bodies.len() as int].key == subject.key@);
        assert forall|i: int, j: int| 0 <= i < j < now.bodies.len() implies (
        #[trigger] now.bodies[i]).key != (#[trigger] now.bodies[j]).key by {
            assert(now.bodies[i] == was.bodies[i]);
            if j < was.bodies.len() {
                assert(now.bodies[j] == was.bodies[j]);
            }
        }
    }
}

impl Extractor {
    #[verifier::type_invariant]
    spec fn wf(self) -> bool {
        &&& self@.once_each()
        &&& forall|k: Seq<char>| #[trigger]
            table::entries(self.known).dom().contains(k) <==> self@.knows(k)
    }

    /// Prepares a walk from some functions.
    pub fn new(roots: Vec<usize>) -> (r: Extractor)
        ensures
            r@ == (ExtractorView {
                bodies: Seq::empty(),
                seen: SeenView { reified: Seq::empty(), coerced: Seq::empty() },
                queue: roots@,
            }),
    {
        let bodies: Vec<Body> = Vec::new();
        let seen = Seen::nothing();
        let known = Table::new();
        assert(model::body_views(bodies@) =~= Seq::empty());
        let r = Extractor { bodies, seen, known, queue: roots };
        r
    }

    /// The next function to look at.
    pub fn next(self) -> (r: (Extractor, Option<usize>))
        ensures
            match r.1 {
                Some(work) => self@.queue.len() > 0 && work == self@.queue.last() && r.0@ == (
                ExtractorView { queue: self@.queue.drop_last(), ..self@ }),
                None => self@.queue.len() == 0 && r.0@ == self@,
            },
    {
        proof {
            use_type_invariant(&self);
        }
        let ghost was = self@;
        let Extractor { bodies, seen, known, queue } = self;
        let mut queue = queue;
        let work = queue.pop();
        proof {
            assert(forall|k: Seq<char>| was.knows(k) == (ExtractorView { queue: queue@, ..was }).knows(k));
        }
        (Extractor { bodies, seen, known, queue }, work)
    }

    /// Whether a function is recorded already.
    pub fn is_known(&self, key: &str) -> (r: bool)
        ensures
            r == self@.knows(key@),
    {
        proof {
            use_type_invariant(self);
        }
        self.known.get(key).is_some()
    }

    /// Records a function, unless it is recorded already, and queues what it
    /// calls.
    ///
    /// Every function is marked before its callees are queued, so each
    /// function is expanded at most once and the walk terminates once the
    /// reachable set is exhausted.
    pub fn expand(self, build: Build, program: &Program, subject: &Subject) -> (r: Extractor)
        requires
            subject.fits(*program),
        ensures
            r@ == self@.with(build, *program, *subject),
            r@.once_each(),
    {
        proof {
            use_type_invariant(&self);
        }
        if self.is_known(subject.key.0.as_str()) {
            return self;
        }
        let ghost was = self@;
        let ghost held = self.known;
        let Extractor { bodies, seen, known, queue } = self;
        let mut bodies = bodies;
        let mut seen = seen;
        let mut known = known;
        let mut queue = queue;
        known.insert(subject.key.0.clone(), bodies.len());
        let (body, successors) = build_body(build, program, subject, &mut seen);
        let ghost said = body@;
        bodies.push(body);
        assert(model::body_views(bodies@) =~= was.bodies.push(said));
        let ghost queued = queue@;
        let mut i: usize = 0;
        while i < successors.len()
            invariant
                i <= successors@.len(),
                queue@ == queued + successors@.take(i as int),
            decreases successors@.len() - i,
        {
            queue.push(successors[i]);
            i += 1;
            assert(queue@ =~= queued + successors@.take(i as int));
        }
        assert(successors@.take(i as int) =~= successors@);
        proof {
            let now = was.with(build, *program, *subject);
            assert(now.bodies =~= model::body_views(bodies@));
            each_function_is_recorded_once(was, build, *program, *subject);
            assert forall|k: Seq<char>| #[trigger]
                table::entries(known).dom().contains(k) <==> now.knows(k) by {
                if was.knows(k) {
                    let j = choose|j: int| 0 <= j < was.bodies.len() && (#[trigger] was.bodies[j]).key == k;
                    assert(now.bodies[j] == was.bodies[j]);
                }
                if now.knows(k) && k != subject.key@ {
                    let j = choose|j: int| 0 <= j < now.bodies.len() && (#[trigger] now.bodies[j]).key == k;
                    assert(j < was.bodies.len());
                    assert(was.bodies[j].key == k);
                }
                assert(table::entries(held).dom().contains(k) <==> was.knows(k));
            }
        }
        Extractor { bodies, seen, known, queue }
    }

    /// What was found: the bodies, and what was seen of pointers and trait
    /// objects.
    pub fn finish(self) -> (r: (Vec<Body>, Seen))
        ensures
            model::body_views(r.0@) == self@.bodies,
            r.1@ == self@.seen,
    {
        let Extractor { bodies, seen, known: _, queue: _ } = self;
        (bodies, seen)
    }
}

} // verus!
