//! The layout and the wording of the standalone flame graph.

use panicgraph::api::FlameRow;
use panicgraph::category::ALL;
use panicgraph::model::{
    Artifact, Body, BuildConfig, CallSite, EdgeKind, FuncKey, Guard, PanicSite, StdMode, UnwindOrigin,
};
use panicgraph::palette::{CallColours, Colours, Families, Family, FamilyColours, Palette, Theme};
use panicgraph::solve::Edges;
use panicgraph::svg::{escape, layout, policy, rows_of, tail, Frame, Picture};
use panicgraph::{Category, CategorySet, Graph, Termination};

/// Builds a function body one piece at a time.
struct BodyBuilder {
    body: Body,
}

#[allow(dead_code)]
impl BodyBuilder {
    /// Starts a local, non-opaque body.
    fn new(name: &str) -> Self {
        Self {
            body: Body {
                key: FuncKey(name.to_owned()),
                display: name.to_owned(),
                krate: "test".to_owned(),
                loc: None,
                sites: Vec::new(),
                calls: Vec::new(),
                opaque: false,
                foreign: false,
                local: true,
                from_tests: false,
            },
        }
    }

    /// Adds a panic raised on the ordinary control flow path.
    fn panics(mut self, category: Category) -> Self {
        self.body.sites.push(PanicSite {
            category,
            termination: Termination::Unwind,
            reason: format!("{} panic", category.name()),
            sink: None,
            loc: None,
            guard: Guard::always(),
            certain: false,
            terminates: false,
        });
        self
    }

    /// Adds a panic only when one is named, which is how a test asks for a
    /// function that cannot panic.
    fn maybe_panics(self, category: Option<Category>) -> Self {
        match category {
            Some(category) => self.panics(category),
            None => self,
        }
    }

    /// Adds a call on the ordinary control flow path.
    fn calls(mut self, callee: &str) -> Self {
        self.body.calls.push(call(callee, Guard::always()));
        self
    }

    /// Adds a call whose target is not known.
    fn calls_unresolved(mut self, kind: EdgeKind) -> Self {
        let mut edge = call("<unknown>", Guard::always());
        edge.callee = None;
        edge.kind = kind;
        self.body.calls.push(edge);
        self
    }

    /// Adds a call reachable only while the given earlier call unwinds.
    fn calls_on_unwind_of(mut self, callee: &str, call_index: u32) -> Self {
        self.body.calls.push(call(
            callee,
            Guard {
                normal: false,
                origins: vec![UnwindOrigin::Call(call_index)],
            },
        ));
        self
    }

    /// Finishes the body.
    fn build(self) -> Body {
        self.body
    }
}

/// A statically resolved call with the given reachability.
fn call(callee: &str, guard: Guard) -> CallSite {
    CallSite {
        callee: Some(FuncKey(callee.to_owned())),
        callee_display: callee.to_owned(),
        kind: EdgeKind::Static,
        loc: None,
        guard,
        barrier: false,
        terminates: false,
        candidate: false,
        sig: None,
        self_ty: None,
    }
}

/// One crate's artifact.
fn artifact(bodies: Vec<Body>) -> Artifact {
    Artifact {
        reified: Vec::new(),
        krate: "test".to_owned(),
        config: BuildConfig {
            rustc: "test".to_owned(),
            profile: "release".to_owned(),
            debug_assertions: false,
            overflow_checks: false,
            std_mode: StdMode::Shipped,
            mir_opt_level: None,
        },
        bodies,
    }
}

/// Builds the graph a set of bodies makes, as one crate's artifact.
#[allow(dead_code)]
fn graph(bodies: Vec<Body>) -> Graph {
    let made = vec![artifact(bodies)];
    Graph::from_artifacts(made)
}

/// The palette these tests colour with.
fn palette() -> Palette {
    let names = |pick: &dyn Fn(Category) -> bool| {
        ALL.iter()
            .filter(|c| pick(**c))
            .map(|c| c.name().to_owned())
            .collect::<Vec<String>>()
    };
    let alloc = |c: Category| {
        matches!(c, Category::CapacityOverflow | Category::AllocFailure | Category::RefCountOverflow)
    };
    let unsure = |c: Category| {
        matches!(
            c,
            Category::Unknown
                | Category::UbCheck
                | Category::Fmt
                | Category::Foreign
                | Category::DynCall
                | Category::FnPointer
                | Category::GenericBound
        )
    };
    let families = Families {
        logic: names(&|c| !alloc(c) && !unsure(c)),
        alloc: names(&alloc),
        unsure: names(&unsure),
    };
    let colour = || "#0a1B2c".to_owned();
    let colours = Colours {
        page: colour(),
        ink: colour(),
        label: colour(),
        muted: colour(),
        gate: colour(),
        matched: colour(),
        brand: colour(),
        family: FamilyColours { logic: colour(), alloc: colour(), unsure: colour() },
        call: CallColours { none: colour(), logic: colour(), alloc: colour(), unsure: colour() },
        panic: ALL.iter().map(|c| (c.name().to_owned(), colour())).collect(),
    };
    Palette::new(&families, colours, Theme::Light).expect("the palette is whole")
}

fn view() -> Picture {
    Picture {
        suppressed: CategorySet::empty(),
        only: None,
        edges: Edges::default(),
        fold: false,
        theme: Theme::Light,
    }
}

fn drawn(bodies: Vec<Body>, view: Picture) -> (Vec<FlameRow>, Vec<Frame>) {
    let rows = rows_of(&graph(bodies), &view).expect("the graph should be drawn");
    let frames = layout(&rows, &palette());
    (rows, frames)
}

fn named<'a>(rows: &[FlameRow], frames: &'a [Frame], name: &str) -> &'a Frame {
    frames
        .iter()
        .find(|f| rows[f.row].name == name)
        .unwrap_or_else(|| panic!("no frame is named {name}"))
}

fn body(name: &str, category: Category) -> Body {
    BodyBuilder::new(name).panics(category).build()
}

#[test]
fn siblings_band_by_family_and_a_call_takes_the_family_under_it() {
    // Named so that the alphabet would order them differently from the
    // families, which is what decides.
    let (rows, frames) = drawn(
        vec![
            body("a_alloc", Category::CapacityOverflow),
            body("b_logic", Category::Unwrap),
            body("c_unsure", Category::Unknown),
        ],
        view(),
    );
    let logic = named(&rows, &frames, "b_logic");
    let alloc = named(&rows, &frames, "a_alloc");
    let unsure = named(&rows, &frames, "c_unsure");
    assert!(logic.at < alloc.at, "logic leads");
    assert!(alloc.at < unsure.at, "allocation comes before what is unverified");
    assert_eq!(logic.family, Some(Family::Logic));
    assert_eq!(alloc.family, Some(Family::Alloc));
    assert_eq!(unsure.family, Some(Family::Unsure));
    assert_eq!(
        frames[0].family,
        Some(Family::Logic),
        "a tie between families goes to the one listed first"
    );
}

#[test]
fn a_frame_is_as_wide_as_what_is_under_it() {
    let (rows, frames) = drawn(
        vec![
            BodyBuilder::new("a").panics(Category::Index).build(),
            BodyBuilder::new("b").panics(Category::Index).panics(Category::Unwrap).build(),
        ],
        view(),
    );
    assert_eq!(frames[0].weight, 3);
    assert_eq!((frames[0].at, frames[0].depth), (0, 0));
    let (a, b) = (named(&rows, &frames, "a"), named(&rows, &frames, "b"));
    assert_eq!((b.at, b.weight), (0, 2), "the heavier leads");
    assert_eq!((a.at, a.weight), (2, 1));
    for frame in &frames {
        assert!(frame.at + frame.weight <= 3);
    }
}

#[test]
fn a_sliver_goes_with_all_that_is_under_it() {
    let row = |id: usize, parent: Option<usize>, value: u64| FlameRow {
        id,
        parent,
        name: format!("f{id}"),
        category: None,
        kind: "static",
        cleanup: false,
        elided: Vec::new(),
        value,
        verdict: None,
    };
    let rows = vec![row(0, None, 0), row(1, Some(0), 11799), row(2, Some(0), 1), row(3, Some(2), 1)];
    let kept: Vec<usize> = layout(&rows, &palette()).iter().map(|f| f.row).collect();
    assert_eq!(kept, vec![0, 2, 3, 1], "one part in eleven thousand eight hundred is still drawn");
    let rows = vec![row(0, None, 0), row(1, Some(0), 11800), row(2, Some(0), 1), row(3, Some(2), 1)];
    let kept: Vec<usize> = layout(&rows, &palette()).iter().map(|f| f.row).collect();
    assert_eq!(kept, vec![0, 1]);
}

#[test]
fn a_selection_narrows_what_is_drawn() {
    let bodies = || vec![body("parse", Category::Unwrap), body("read", Category::Index)];
    let (rows, _) = drawn(bodies(), view());
    assert!(rows.iter().any(|r| r.category == Some("index")));
    let only = Picture { only: Some(CategorySet::single(Category::Unwrap)), ..view() };
    let (rows, _) = drawn(bodies(), only);
    assert!(rows.iter().any(|r| r.category == Some("unwrap")));
    assert!(rows.iter().all(|r| r.category != Some("index")));
}

#[test]
fn an_empty_graph_is_one_frame() {
    let rows = rows_of(&Graph::from_artifacts(Vec::new()), &view()).expect("it should be drawn");
    let frames = layout(&rows, &palette());
    assert_eq!(frames.len(), 1);
    assert_eq!((frames[0].weight, frames[0].family), (1, None));
}

#[test]
fn the_policy_is_written_out() {
    assert_eq!(policy(CategorySet::empty(), None), "assuming nothing impossible");
    assert_eq!(
        policy(CategorySet::oom(), None),
        "assuming impossible: capacity-overflow, alloc-failure"
    );
    assert_eq!(
        policy(CategorySet::empty(), Some(CategorySet::single(Category::Unwrap))),
        "assuming nothing impossible; showing only: unwrap"
    );
}

#[test]
fn markup_is_escaped() {
    assert_eq!(escape("<T as A>::f & \"x\" 'y'"), "&lt;T as A&gt;::f &amp; &quot;x&quot; &apos;y&apos;");
    assert_eq!(escape("plain"), "plain");
}

#[test]
fn the_end_of_a_path_is_what_is_kept() {
    assert_eq!(tail("a::b", 10, 0), "a::b");
    assert_eq!(tail("alpha::beta::gamma", 9, 0), "..gamma");
    assert_eq!(tail("alpha::betagamma", 8, 0), "..agamma");
    assert_eq!(tail("alpha::beta", 11, 12), "..beta +12");
    assert_eq!(tail("alpha", 4, 0), "");
    assert_eq!(tail("alpha", 6, 3), "+3");
}
