//! The standalone flame graph.

use panicgraph::category::ALL;
use panicgraph::model::{
    Artifact, Body, BuildConfig, CallSite, EdgeKind, FuncKey, Guard, PanicSite, StdMode, UnwindOrigin,
};
use panicgraph::palette::{CallColours, Colours, Families, FamilyColours, Palette, Theme};
use panicgraph::picture::{self, Mark, Placed};
use panicgraph::solve::Edges;
use panicgraph::svg::{layout, rows_of, Frame, Picture};
use panicgraph::{Category, CategorySet, Graph, Termination};

/// Builds a function body one piece at a time.
struct BodyBuilder {
    body: Body,
}

#[allow(dead_code)]
impl BodyBuilder {
    /// Starts a local, non-opaque body.
    fn new(name: &str) -> Self {
        Self {
            body: Body {
                key: FuncKey(name.to_owned()),
                display: name.to_owned(),
                krate: "test".to_owned(),
                loc: None,
                sites: Vec::new(),
                calls: Vec::new(),
                opaque: false,
                foreign: false,
                local: true,
                from_tests: false,
            },
        }
    }

    /// Adds a panic raised on the ordinary control flow path.
    fn panics(mut self, category: Category) -> Self {
        self.body.sites.push(PanicSite {
            category,
            termination: Termination::Unwind,
            reason: format!("{} panic", category.name()),
            sink: None,
            loc: None,
            guard: Guard::always(),
            certain: false,
            terminates: false,
        });
        self
    }

    /// Adds a panic only when one is named, which is how a test asks for a
    /// function that cannot panic.
    fn maybe_panics(self, category: Option<Category>) -> Self {
        match category {
            Some(category) => self.panics(category),
            None => self,
        }
    }

    /// Adds a call on the ordinary control flow path.
    fn calls(mut self, callee: &str) -> Self {
        self.body.calls.push(call(callee, Guard::always()));
        self
    }

    /// Adds a call whose target is not known.
    fn calls_unresolved(mut self, kind: EdgeKind) -> Self {
        let mut edge = call("<unknown>", Guard::always());
        edge.callee = None;
        edge.kind = kind;
        self.body.calls.push(edge);
        self
    }

    /// Adds a call reachable only while the given earlier call unwinds.
    fn calls_on_unwind_of(mut self, callee: &str, call_index: u32) -> Self {
        self.body.calls.push(call(
            callee,
            Guard {
                normal: false,
                origins: vec![UnwindOrigin::Call(call_index)],
            },
        ));
        self
    }

    /// Finishes the body.
    fn build(self) -> Body {
        self.body
    }
}

/// A statically resolved call with the given reachability.
fn call(callee: &str, guard: Guard) -> CallSite {
    CallSite {
        callee: Some(FuncKey(callee.to_owned())),
        callee_display: callee.to_owned(),
        kind: EdgeKind::Static,
        loc: None,
        guard,
        barrier: false,
        terminates: false,
        candidate: false,
        sig: None,
        self_ty: None,
    }
}

/// One crate's artifact.
fn artifact(bodies: Vec<Body>) -> Artifact {
    Artifact {
        reified: Vec::new(),
        krate: "test".to_owned(),
        config: BuildConfig {
            rustc: "test".to_owned(),
            profile: "release".to_owned(),
            debug_assertions: false,
            overflow_checks: false,
            std_mode: StdMode::Shipped,
            mir_opt_level: None,
        },
        bodies,
    }
}

/// Builds the graph a set of bodies makes, as one crate's artifact.
#[allow(dead_code)]
fn graph(bodies: Vec<Body>) -> Graph {
    let made = vec![artifact(bodies)];
    Graph::from_artifacts(made)
}

/// The palette these tests colour with: every colour of a theme is its own.
fn palette(theme: Theme) -> Palette {
    let names = |pick: &dyn Fn(Category) -> bool| {
        ALL.iter().filter(|c| pick(**c)).map(|c| c.name().to_owned()).collect::<Vec<String>>()
    };
    let alloc = |c: Category| {
        matches!(c, Category::CapacityOverflow | Category::AllocFailure | Category::RefCountOverflow)
    };
    let unsure = |c: Category| matches!(c, Category::Unknown | Category::UbCheck | Category::Fmt);
    let families = Families {
        logic: names(&|c| !alloc(c) && !unsure(c)),
        alloc: names(&alloc),
        unsure: names(&unsure),
    };
    let first = if theme == Theme::Dark { 0x10 } else { 0xa0 };
    let colour = |n: usize| format!("#{first:02x}00{n:02x}");
    let colours = Colours {
        page: colour(1),
        ink: colour(2),
        label: colour(3),
        muted: colour(4),
        gate: colour(5),
        matched: colour(6),
        brand: colour(7),
        family: FamilyColours { logic: colour(8), alloc: colour(9), unsure: colour(10) },
        call: CallColours { none: colour(11), logic: colour(12), alloc: colour(13), unsure: colour(14) },
        panic: ALL.iter().enumerate().map(|(i, c)| (c.name().to_owned(), colour(32 + i))).collect(),
    };
    Palette::new(&families, colours, theme).expect("the palette is whole")
}

/// A function that panics once, under the given name.
fn body(name: &str, category: Category) -> Body {
    BodyBuilder::new(name).panics(category).build()
}

/// A view of everything, folded, in the light theme.
fn view() -> Picture {
    Picture {
        suppressed: CategorySet::empty(),
        only: None,
        edges: Edges::default(),
        fold: true,
        theme: Theme::Light,
    }
}

/// Where a frame stands, in shares of the width.
fn placed(frame: &Frame, total: u128) -> Placed {
    let units = |weight: u128| weight as f64 * (1180.0 / total as f64);
    let (x, whole) = (units(frame.at), units(frame.weight));
    let width = (whole - 1.0).max(0.6);
    Placed {
        x: format!("{x:.2}"),
        width: format!("{whole:.2}"),
        left: format!("{:.4}", 100.0 * x / 1180.0),
        across: format!("{:.4}", 100.0 * width / 1180.0),
        share: format!("{:.1}", 100.0 * frame.weight as f64 / total as f64),
        room: if width > 28.0 { Some(((width - 8.0) / 5.9) as usize) } else { None },
        ink: "#ffffff".to_owned(),
    }
}

/// Renders a graph of the given functions.
fn render(bodies: Vec<Body>) -> String {
    render_view(bodies, view())
}

/// Renders a graph of the given functions, seen the given way.
fn render_view(bodies: Vec<Body>, view: Picture) -> String {
    let palette = palette(view.theme);
    let rows = rows_of(&graph(bodies), &view).expect("the graph should render");
    let frames = layout(&rows, &palette);
    let total = picture::total(&frames);
    let places = frames.iter().map(|frame| placed(frame, total)).collect();
    let mark = Mark { home: "https://example.org/p".to_owned(), version: "1.2.3".to_owned() };
    let mut out = String::new();
    picture::render(&view, &palette, &rows, &frames, &places, &mark, &mut out);
    out
}

/// Removes the embedded styling and script, whose contents are not markup
/// and would otherwise be read as tags.
fn markup_only(text: &str) -> String {
    let mut out = String::with_capacity(text.len());
    let mut rest = text;
    while let Some(start) =
        rest.find("<style>").or_else(|| rest.find("<script"))
    {
        out.push_str(&rest[..start]);
        let after = &rest[start..];
        let end = after
            .find("</style>")
            .map(|i| i + "</style>".len())
            .or_else(|| after.find("</script>").map(|i| i + "</script>".len()));
        match end {
            Some(i) => rest = &after[i..],
            None => return out,
        }
    }
    out.push_str(rest);
    out
}

/// Rejects anything that is not well formed, so a broken document fails here
/// rather than in whatever opens it.
fn parse(text: &str) {
    let markup = markup_only(text);
    let mut depth = 0i32;
    let mut chars = markup.chars().peekable();
    let mut in_tag = false;
    while let Some(c) = chars.next() {
        match c {
            '<' => match chars.peek() {
                Some('/') => {
                    in_tag = true;
                    depth -= 1;
                }
                Some('?' | '!') => in_tag = false,
                _ => {
                    in_tag = true;
                    depth += 1;
                }
            },
            '/' if in_tag && chars.peek() == Some(&'>') => depth -= 1,
            '>' => in_tag = false,
            _ => {}
        }
    }
    assert_eq!(depth, 0, "every element should be closed");
}

/// Every value the named attribute takes anywhere in the text.
fn values_of<'a>(text: &'a str, name: &str) -> Vec<&'a str> {
    let key = format!(" {name}=\"");
    let mut values = Vec::new();
    let mut rest = text;
    while let Some(start) = rest.find(&key) {
        let value = &rest[start + key.len()..];
        let end = value.find('"').expect("an attribute value ends");
        values.push(&value[..end]);
        rest = &value[end..];
    }
    values
}

/// The lines of the frame with the given name: its group, its title, its
/// rect and its label.
fn frame<'a>(out: &'a str, name: &str) -> Vec<&'a str> {
    let lines: Vec<&str> = out.lines().collect();
    let key = format!("data-name=\"{name}\"");
    let at = lines
        .iter()
        .position(|line| {
            line.starts_with("<g class=\"f\"") && line.contains(&key)
        })
        .unwrap_or_else(|| panic!("no frame is named {name}"));
    lines[at..at + 4].to_vec()
}

/// Where the named frame starts, in the units the file is laid out in.
fn frame_x(out: &str, name: &str) -> f64 {
    values_of(frame(out, name)[0], "data-x")[0]
        .parse()
        .expect("data-x is a number")
}

/// The fill of the named frame.
fn frame_fill<'a>(out: &'a str, name: &str) -> &'a str {
    values_of(frame(out, name)[2], "fill")[0]
}

#[test]
fn the_document_stands_alone() {
    let out = render(vec![body("parse", Category::Unwrap)]);
    assert!(out.starts_with("<?xml"));
    assert!(out.trim_end().ends_with("</svg>"));
    assert!(out.contains("<style>"), "styling travels with the file");
    assert!(
        out.contains("<script"),
        "so does the script that explores it"
    );
    assert!(
        !out.contains("http://127.0.0.1"),
        "nothing may point at a server that will not be running"
    );
    parse(&out);
}

#[test]
fn a_rust_path_does_not_break_the_document() {
    // Generic arguments and trait qualification put angle brackets and
    // ampersands straight into a name.
    let name = "<Vec<T> as Index<&'a str>>::index & \"more\"";
    let out = render(vec![body(name, Category::Index)]);
    assert!(
        !out.contains("<Vec<T>"),
        "the raw brackets would have closed the tag"
    );
    assert!(out.contains("&lt;Vec&lt;T&gt;"));
    assert!(out.contains("&amp;"));
    assert!(out.contains("&quot;"));
    parse(&out);
}

#[test]
fn every_frame_carries_a_title_so_it_reads_without_script() {
    let out = render(vec![
        body("parse", Category::Unwrap),
        body("read", Category::Index),
    ]);
    let frames = out.matches("<g class=\"f\"").count();
    let titles = out.matches("<title>").count();
    assert!(frames > 0);
    // The mark carries the one title that is not a frame's.
    assert_eq!(
        frames + 1,
        titles,
        "a frame with no title is mute when hovered"
    );
}

#[test]
fn a_panic_is_named_not_only_coloured() {
    let out = render(vec![body("parse", Category::Unwrap)]);
    assert!(
        out.contains("unwrap panic"),
        "the category belongs in the text, not in the fill alone"
    );
}

#[test]
fn an_empty_graph_still_renders() {
    let out = render(Vec::new());
    assert!(out.contains("</svg>"));
    parse(&out);
}

#[test]
fn the_picture_carries_the_controls_it_describes() {
    let out = render(vec![body("parse", Category::Unwrap)]);
    for id in [
        "title", "subtitle", "unzoom", "search", "matched", "detail", "note",
    ] {
        assert!(
            out.contains(&format!("id=\"{id}\"")),
            "the {id} element is what the script reads and writes"
        );
    }
    assert!(
        out.contains("id=\"frames\""),
        "the frames travel in one group, which is what the script walks"
    );
    for rule in [".hide", ".parent rect", ".match rect", ".ctl"] {
        assert!(
            out.contains(rule),
            "the {rule} rule is what a zoom or a search turns on"
        );
    }
    parse(&out);
}

#[test]
fn the_assumptions_are_written_on_the_picture() {
    let bare = render(vec![body("parse", Category::Unwrap)]);
    assert!(
        bare.contains("assuming nothing impossible"),
        "a graph drawn under no assumption has to say so"
    );

    let assumed = render_view(
        vec![body("parse", Category::Unwrap)],
        Picture {
            suppressed: CategorySet::oom(),
            ..view()
        },
    );
    assert!(
        assumed.contains("assuming impossible:"),
        "a graph is only readable beside the policy it was drawn under"
    );
    assert!(assumed.contains("alloc-failure"));
    parse(&assumed);
}

#[test]
fn a_selection_narrows_what_is_drawn_and_is_written_on_the_picture() {
    let bodies = || {
        vec![
            body("parse", Category::Unwrap),
            body("read", Category::Index),
        ]
    };
    let all = render(bodies());
    assert!(all.contains("unwrap panic") && all.contains("index panic"));

    let some = render_view(
        bodies(),
        Picture {
            only: Some(CategorySet::single(Category::Unwrap)),
            ..view()
        },
    );
    assert!(some.contains("unwrap panic"), "the selection is drawn");
    assert!(!some.contains("index panic"), "the rest is not");
    assert!(
        some.contains("showing only: unwrap"),
        "the picture says what it was narrowed to"
    );
    parse(&some);
}

#[test]
fn a_frame_carries_what_the_script_zooms_and_searches_with() {
    let out = render(vec![
        body("parse", Category::Unwrap),
        body("read", Category::Index),
    ]);
    let frames = out.matches("<g class=\"f\"").count();
    assert!(frames > 0);
    for attribute in ["data-x=", "data-w=", "data-y=", "data-name="] {
        assert_eq!(
            out.matches(attribute).count(),
            frames,
            "every frame needs {attribute} for the script to place it again"
        );
    }
}

#[test]
fn the_picture_is_as_wide_as_the_window() {
    let out = render(vec![
        body("parse", Category::Unwrap),
        body("read", Category::Index),
    ]);
    assert!(
        out.contains("<svg version=\"1.1\" width=\"100%\""),
        "the drawing takes the width of whatever holds it"
    );
    assert!(
        out.contains("viewBox=\"0 0 1200 "),
        "and names the width it was fitted for, which a viewer without \
         scripting scales as a whole"
    );
    assert!(
        out.contains("<svg id=\"frames\" x=\"10\" width=\"1180\">"),
        "the frames keep the margin flame graphs keep at either side"
    );

    // Every frame is placed as a share of the width, never at a pixel, so
    // it stretches with the window, and every frame has a label element to
    // write its name into once it has the room.
    let frames = out.matches("<g class=\"f\"").count();
    assert!(frames > 0);
    let rects: Vec<&str> = out
        .lines()
        .filter(|line| line.starts_with("<rect x="))
        .collect();
    let labels: Vec<&str> = out
        .lines()
        .filter(|line| {
            line.starts_with("<text x=") && line.contains("class=\"l\"")
        })
        .collect();
    assert_eq!(rects.len(), frames, "one rect per frame");
    assert_eq!(labels.len(), frames, "one label per frame");
    for tag in rects.iter().chain(&labels) {
        for value in values_of(tag, "x") {
            assert!(value.ends_with('%'), "{tag} is placed at a pixel");
        }
    }
    for tag in &rects {
        for value in values_of(tag, "width") {
            assert!(value.ends_with('%'), "{tag} is sized in pixels");
        }
    }
}

#[test]
fn the_dark_theme_draws_on_a_dark_page_in_its_own_ink() {
    let out = render_view(
        vec![body("parse", Category::Unwrap)],
        Picture {
            theme: Theme::Dark,
            ..view()
        },
    );
    let colours = palette(Theme::Dark);
    let colours = colours.colours();
    assert!(
        out.contains(&format!(
            "<rect width=\"100%\" height=\"100%\" fill=\"{}\"/>",
            colours.page
        )),
        "the page takes the theme's colour"
    );
    assert!(
        out.contains(&format!("stroke=\"{}\"", colours.brand)),
        "the mark takes the theme's ink"
    );
    assert!(
        out.contains(&format!("fill: {};", colours.ink)),
        "so does the title"
    );
    parse(&out);
}

#[test]
fn each_category_takes_a_step_of_its_own() {
    let out = render_view(
        vec![
            body("parse", Category::Unwrap),
            body("read", Category::Index),
        ],
        Picture {
            fold: false,
            ..view()
        },
    );
    let palette = palette(Theme::Light);
    assert_eq!(frame_fill(&out, "unwrap"), palette.panic(Category::Unwrap));
    assert_eq!(frame_fill(&out, "index"), palette.panic(Category::Index));
    assert_ne!(
        frame_fill(&out, "unwrap"),
        frame_fill(&out, "index"),
        "two panics of one family are still told apart"
    );
}

#[test]
fn siblings_band_by_family_and_a_call_takes_the_tint_of_what_is_under_it() {
    // Named so that the alphabet would order them differently from the
    // families, which is what decides.
    let out = render_view(
        vec![
            body("a_alloc", Category::CapacityOverflow),
            body("b_logic", Category::Unwrap),
            body("c_unsure", Category::Unknown),
        ],
        Picture {
            fold: false,
            ..view()
        },
    );
    assert!(
        frame_x(&out, "b_logic") < frame_x(&out, "a_alloc"),
        "logic leads"
    );
    assert!(
        frame_x(&out, "a_alloc") < frame_x(&out, "c_unsure"),
        "allocation comes before what is unverified"
    );

    let palette = palette(Theme::Light);
    let calls = &palette.colours().call;
    assert_eq!(frame_fill(&out, "b_logic"), calls.logic);
    assert_eq!(frame_fill(&out, "a_alloc"), calls.alloc);
    assert_eq!(frame_fill(&out, "c_unsure"), calls.unsure);
    assert_eq!(
        frame_fill(&out, "crate"),
        calls.logic,
        "a tie between families goes to the one listed first"
    );
}

#[test]
fn the_picture_is_signed_and_links_to_the_project() {
    let out = render(vec![body("parse", Category::Unwrap)]);
    assert!(out.contains(">PanicGraph<"), "the name goes with the mark");
    assert!(out.contains("href=\"https://example.org/p\""), "the mark links to the project");
    assert!(out.contains("PanicGraph 1.2.3"), "the tooltip names the version that drew the file");
}

#[test]
fn a_frame_is_written_out() {
    let out = render_view(vec![body("parse", Category::Unwrap)], Picture { fold: false, ..view() });
    let lines = frame(&out, "parse");
    assert_eq!(
        lines,
        [
            "<g class=\"f\" data-name=\"parse\" data-info=\"parse (function call, 1 reachable, 100.0%)\" \
             data-more=\"0\" data-x=\"0.00\" data-w=\"1180.00\" data-y=\"79.0\">",
            "<title>parse (function call, 1 reachable, 100.0%)</title>",
            "<rect x=\"0.0000%\" y=\"79.0\" width=\"99.9153%\" height=\"16.0\" fill=\"#a0000c\" rx=\"2\"/>",
            "<text x=\"0.0000%\" dx=\"4\" y=\"90.5\" class=\"l\" fill=\"#a00003\">parse</text>",
        ]
    );
    let panic = frame(&out, "unwrap");
    assert!(panic[3].ends_with("fill=\"#ffffff\">unwrap</text>"), "a panic takes the ink that reads on it");
    assert!(out.contains("height=\"147\" viewBox=\"0 0 1200 147\""));
    assert!(out.contains("y=\"135.0\" class=\"note\">3 frames, 1 reachable panics."));
}

#[test]
fn a_frame_that_unwinds_is_outlined_and_what_is_folded_is_counted() {
    let bodies = vec![
        BodyBuilder::new("top").calls("mid").build(),
        BodyBuilder::new("mid").calls("low").build(),
        BodyBuilder::new("low").panics(Category::Unwrap).calls_on_unwind_of("late", 0).build(),
        body("late", Category::Index),
    ];
    let out = render(bodies);
    assert!(out.contains(", through "), "calls folded away are counted");
    assert!(!frame(&out, "crate")[2].contains("stroke-dasharray"));
}
