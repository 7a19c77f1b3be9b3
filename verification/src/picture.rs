//! The flame graph as a document.
//!
//! The file is self contained: one document carrying its own styling and the
//! small amount of script that makes it explorable, so it can be attached to
//! a report, committed beside a release, or opened straight from disk. It
//! degrades to a readable picture with scripting turned off, because every
//! frame carries a native title.
//!
//! The shape follows the flame graph convention, which readers already know:
//! width is how much reaches through a frame, depth is call depth, clicking
//! a frame zooms into it, and `ctrl-F` searches.
//!
//! The picture is as wide as the window it is opened in. Frames are placed
//! as shares of the width rather than at pixels, so they stretch with the
//! window while the text keeps its size. Those shares are fractions, and the
//! caller writes them; everything else of the document is written here.

use vstd::prelude::*;

use crate::api;
use crate::api::{FlameRow, RowView};
use crate::category;
use crate::category::{Category, CategorySet};
use crate::palette;
use crate::palette::{Colours, Palette, PaletteView};
use crate::svg;
use crate::svg::{escape, policy, tail, Frame, Picture};
use crate::text;

verus! {

/// Styling up to the colour of the title.
pub const STYLE_TITLE: &'static str = r#"<style>
  text { font-family: ui-monospace, SFMono-Regular, Menlo, monospace; }
  .title { font-family: ui-sans-serif, system-ui, sans-serif; font-size: 15px;
    font-weight: 600; fill: "#;

/// Styling from there to the colour of the notes.
pub const STYLE_NOTE: &'static str = r#"; cursor: pointer; }
  .note, .detail, .ctl { font-family: ui-sans-serif, system-ui, sans-serif;
    font-size: 11px; fill: "#;

/// Styling from there to the colour of the details.
pub const STYLE_DETAIL: &'static str = r#"; }
  .detail { fill: "#;

/// Styling from there to the colour of the controls.
pub const STYLE_CONTROL: &'static str = r#"; }
  .ctl { fill: "#;

/// Styling from there to the colour of a match.
pub const STYLE_FRAME: &'static str = r#"; cursor: pointer; display: none; }
  .ctl.on { display: inline; }
  .ctl:hover { text-decoration: underline; }
  .brand text { font-family: "Space Grotesk", "Helvetica Neue", Helvetica,
    Arial, sans-serif; font-size: 34px; font-weight: 600;
    letter-spacing: -0.8px; }
  .brand:hover { opacity: 0.7; }
  .l { font-size: 10px; pointer-events: none; }
  .f rect { stroke-width: 1; }
  .f:hover rect { opacity: 0.72; cursor: pointer; }
  .parent rect { opacity: 0.28; }
  .hide { display: none; }
  /* Magenta belongs to no category, so a match is never read as one. */
  .match rect { fill: "#;

/// The rest of the styling.
pub const STYLE_END: &'static str = r#"; }
</style>
"#;

/// The script that makes the picture explorable.
///
/// Zooming rescales the frames rather than redrawing them, so the file stays
/// one pass of output and works from the filesystem with no server. What a
/// search matched is written into the address, so a picture opened at a
/// finding can be handed to someone else as it stands.
pub const SCRIPT: &'static str = r#"<script type="text/ecmascript"><![CDATA[
var frames = [], base = [], detail = null, note = null;
var unzoombtn = null, searchbtn = null, matchedtxt = null;
var width = 0, pixel = 1, searching = "", holder = null;

function init() {
  var svg = document.documentElement;
  /* The frames are placed as shares of the width, so with the viewBox gone
     they spread to the window while the text keeps its size. The width the
     file was laid out at is read first: it is the unit every position below
     is written in. */
  holder = document.getElementById("frames");
  width = +holder.getAttribute("width");
  svg.removeAttribute("viewBox");
  detail = document.getElementById("detail");
  note = document.getElementById("note");
  unzoombtn = document.getElementById("unzoom");
  searchbtn = document.getElementById("search");
  matchedtxt = document.getElementById("matched");
  frames = Array.prototype.slice.call(holder.children);
  frames.forEach(function (g) {
    var x = +g.getAttribute("data-x"), w = +g.getAttribute("data-w");
    base.push({
      x: x, w: w, y: +g.getAttribute("data-y"),
      cx: x, cw: w, hidden: false, above: false, hit: false
    });
    g.addEventListener("mouseover", function () {
      detail.textContent = g.getAttribute("data-info");
      note.style.display = "none";
    });
    g.addEventListener("mouseout", function () {
      detail.textContent = " ";
      note.style.display = "";
    });
    g.addEventListener("click", function (e) { zoom(g); e.stopPropagation(); });
  });
  document.getElementById("title").addEventListener("click", unzoom);
  unzoombtn.addEventListener("click", unzoom);
  searchbtn.addEventListener("click", prompt_for_search);
  window.addEventListener("keydown", function (e) {
    if (e.keyCode === 114 || (e.ctrlKey && e.keyCode === 70)) {
      e.preventDefault();
      prompt_for_search();
    }
  });
  window.addEventListener("resize", refit);
  refit();
  var asked = /[?&]s=([^&]*)/.exec(window.location.search);
  if (asked) search(decodeURIComponent(asked[1].replace(/\+/g, " ")));
}

/* Rescales so the clicked frame fills the width. The frames it sits under
   stay as full width bars, because the path to a frame is part of reading
   it, and everything the frame does not contain is taken out of the way. */
function zoom(target) {
  var i = frames.indexOf(target);
  if (i < 0) return;
  var at = base[i], span = at.w || 1, scale = width / span;
  frames.forEach(function (g, j) {
    var b = base[j];
    b.hidden = !(inside(b, at) || inside(at, b));
    b.above = !b.hidden && b.y < at.y;
    if (b.above) {
      place(g, b, 0, width);
    } else if (!b.hidden) {
      place(g, b, (b.x - at.x) * scale, b.w * scale);
    }
    paint(g, b);
  });
  show(unzoombtn, true);
  if (searching) search(searching);
}

/* Whether one frame lies within another's span. Frames nest or stand
   apart and never overlap, so the centre of the inner one decides, and
   the rounding the positions are written with cannot carry a centre across
   an edge the way it can an end. */
function inside(inner, outer) {
  var centre = inner.x + inner.w / 2;
  return centre >= outer.x && centre <= outer.x + outer.w;
}

function unzoom() {
  frames.forEach(function (g, j) {
    var b = base[j];
    b.hidden = false;
    b.above = false;
    place(g, b, b.x, b.w);
    paint(g, b);
  });
  show(unzoombtn, false);
  if (searching) search(searching);
}

/* Writes what a frame is now: out of the way, on the path to the zoom, or
   matching the search. One place decides, so the three cannot disagree. */
function paint(g, b) {
  var cls = "f";
  if (b.hidden) cls += " hide";
  if (b.above) cls += " parent";
  if (b.hit) cls += " match";
  g.setAttribute("class", cls);
}

/* Moves one frame, and fits its label to the room it now has. Where the
   frame stands is kept, so the label can be fitted again on its own when
   the window changes width. */
function place(g, b, x, w) {
  b.cx = x;
  b.cw = w;
  var r = g.getElementsByTagName("rect")[0];
  r.setAttribute("x", percent(x));
  r.setAttribute("width", percent(Math.max(w - 1, 0.6)));
  g.getElementsByTagName("text")[0].setAttribute("x", percent(x));
  fit(g, w);
}

/* A distance across the drawing, as the share of the width it takes. */
function percent(units) {
  return (100 * units / width).toFixed(4) + "%";
}

/* Writes the label a frame has room for, in the pixels it has now. */
function fit(g, w) {
  var px = w * pixel;
  g.getElementsByTagName("text")[0].textContent = px <= 28 ? "" :
    tail(g.getAttribute("data-name"), Math.floor((px - 8) / 5.9),
      +g.getAttribute("data-more"));
}

/* Fits every label to the room its frame has in the window as it stands.
   Runs once the file is open and again whenever the window changes width,
   which the labels written into the file could not know about. */
function refit() {
  var room = document.documentElement.getBoundingClientRect().width - 20;
  holder.setAttribute("width", Math.max(room, 1));
  pixel = room / width;
  frames.forEach(function (g, j) {
    if (!base[j].hidden) fit(g, base[j].cw);
  });
}

/* Keeps the end of a path, which is the part that identifies it. */
function tail(text, room, more) {
  var badge = more > 0 ? " +" + more : "";
  room -= badge.length;
  if (room < 5) return badge.replace(" ", "");
  if (text.length <= room) return text + badge;
  var cut = text.lastIndexOf("::");
  if (cut >= 0 && text.length - cut - 2 <= room - 2) {
    return ".." + text.slice(cut + 2) + badge;
  }
  return ".." + text.slice(text.length - (room - 2)) + badge;
}

function prompt_for_search() {
  if (searching) {
    reset_search();
    return;
  }
  var term = window.prompt("Search frames, as a regular expression", "");
  if (term) search(term);
}

/* Colours what matched, and says how much of the whole it accounts for.
   A frame under another that also matched is not counted twice: only the
   widest claim at each position is kept, which is the one that contains
   the rest. */
function search(term) {
  var re;
  try { re = new RegExp(term, "i"); } catch (e) { return; }
  var widest = {};
  searching = term;
  frames.forEach(function (g, j) {
    var b = base[j];
    b.hit = !b.hidden && re.test(g.getAttribute("data-name"));
    if (b.hit && (widest[b.x] === undefined || widest[b.x] < b.w)) {
      widest[b.x] = b.w;
    }
    paint(g, b);
  });
  var matched = 0;
  for (var x in widest) matched += widest[x];
  var whole = base.length ? base[0].w || 1 : 1;
  matchedtxt.textContent =
    "Matched: " + (100 * matched / whole).toFixed(1) + "%";
  searchbtn.textContent = "Reset Search";
  remember(term);
}

function reset_search() {
  frames.forEach(function (g, j) {
    base[j].hit = false;
    paint(g, base[j]);
  });
  searching = "";
  matchedtxt.textContent = " ";
  searchbtn.textContent = "Search";
  remember("");
}

function show(el, on) {
  el.setAttribute("class", on ? "ctl on" : "ctl");
}

/* Writes the search into the address, where the file can be opened from
   again. A document opened straight off a filesystem may refuse this, and
   the picture is no worse for it. */
function remember(term) {
  try {
    var here = window.location.href.split("?")[0];
    window.history.replaceState(null, "",
      term ? here + "?s=" + encodeURIComponent(term) : here);
  } catch (e) {}
}
]]></script>
"#;

/// Height of one row of frames.
pub const ROW: u128 = 17;

/// Space above the frames for the mark, the title, the policy it was drawn
/// under, and the controls.
pub const HEAD: u128 = 62;

/// Space above and below the frames, where the hovered frame's details stand.
pub const MARGIN: u128 = 96;

/// Where a frame stands across the picture, as it is written.
#[derive(Debug)]
pub struct Placed {
    /// Where it starts, in the units the picture is laid out in.
    pub x: String,
    /// How wide it is, in those units.
    pub width: String,
    /// Where it starts, in percent of the width.
    pub left: String,
    /// How wide it is drawn, in percent of the width.
    pub across: String,
    /// How much of the whole reaches through it, in percent.
    pub share: String,
    /// How many characters of a label fit, where there is room for one.
    pub room: Option<usize>,
    /// The ink that reads on the colour of a panic.
    pub ink: String,
}

/// What the mark in the corner says: where the project is at home, and the
/// version that drew the picture.
#[derive(Debug)]
pub struct Mark {
    pub home: String,
    pub version: String,
}

/// The categories a picture is narrowed to.
pub open spec fn shown_only(only: Option<CategorySet>) -> Option<Set<Category>> {
    match only {
        Some(set) => Some(set@),
        None => None,
    }
}

/// A text with the head of a document after it.
pub open spec fn with_head(out: Seq<char>, colours: Colours, height: nat) -> Seq<char> {
    out
        + "<?xml version=\"1.0\" standalone=\"no\"?>\n<svg version=\"1.1\" width=\"100%\" height=\""@
        + text::decimal(height)
        + "\" viewBox=\"0 0 1200 "@
        + text::decimal(height)
        + "\" xmlns=\"http://www.w3.org/2000/svg\" onload=\"init()\">\n"@
        + STYLE_TITLE@
        + colours.ink@
        + STYLE_NOTE@
        + colours.muted@
        + STYLE_DETAIL@
        + colours.ink@
        + STYLE_CONTROL@
        + colours.ink@
        + STYLE_FRAME@
        + colours.matched@
        + STYLE_END@
        + SCRIPT@
        + "<rect width=\"100%\" height=\"100%\" fill=\""@
        + colours.page@
        + "\"/>\n"@
}

/// Writes the document head, its styling, and the script that explores it.
///
/// The document takes the whole width of whatever holds it, and its viewBox
/// names the width the labels were fitted for. The script drops the viewBox
/// once the file is open, which lets the frames spread to the window at
/// their own text size; without the script it stays, and the drawing is
/// scaled as a whole to fit.
fn header(colours: &Colours, height: u128, out: &mut String)
    ensures
        final(out)@ == with_head(old(out)@, *colours, height as nat),
{
    let tall = text::count(height);
    out.append("<?xml version=\"1.0\" standalone=\"no\"?>\n<svg version=\"1.1\" width=\"100%\" height=\"");
    out.append(tall.as_str());
    out.append("\" viewBox=\"0 0 1200 ");
    out.append(tall.as_str());
    out.append("\" xmlns=\"http://www.w3.org/2000/svg\" onload=\"init()\">\n");
    out.append(STYLE_TITLE);
    out.append(colours.ink.as_str());
    out.append(STYLE_NOTE);
    out.append(colours.muted.as_str());
    out.append(STYLE_DETAIL);
    out.append(colours.ink.as_str());
    out.append(STYLE_CONTROL);
    out.append(colours.ink.as_str());
    out.append(STYLE_FRAME);
    out.append(colours.matched.as_str());
    out.append(STYLE_END);
    out.append(SCRIPT);
    out.append("<rect width=\"100%\" height=\"100%\" fill=\"");
    out.append(colours.page.as_str());
    out.append("\"/>\n");
}

/// A text with the mark after it.
pub open spec fn with_mark(out: Seq<char>, mark: Mark, ink: Seq<char>) -> Seq<char> {
    out
        + "<a class=\"brand\" href=\""@
        + mark.home@
        + "\" target=\"_blank\">\n<title>Drawn by PanicGraph "@
        + mark.version@
        + "</title>\n<g fill=\"none\" transform=\"translate(10 6) scale(0.375)\">\n<path d=\"M6 14H58M6 32H58M6 50H58\" stroke=\""@
        + ink
        + "\" stroke-opacity=\"0.32\" stroke-width=\"2\"/>\n<path d=\"M13 14H26V32H44V50\" stroke=\""@
        + ink
        + "\" stroke-width=\"4.5\" stroke-linecap=\"square\"/>\n<circle cx=\"13\" cy=\"14\" r=\"3.5\" fill=\""@
        + ink
        + "\"/>\n<circle cx=\"44\" cy=\"50\" r=\"7\" fill=\"#E8A33D\"/>\n<circle cx=\"44\" cy=\"50\" r=\"7\" fill=\"none\" stroke=\""@
        + ink
        + "\" stroke-width=\"3\"/>\n<text x=\"76\" y=\"42\" fill=\""@
        + ink
        + "\">PanicGraph</text>\n</g>\n</a>\n"@
}

/// Writes the project's mark and name, for the corner of the picture.
///
/// This is the lockup the interactive view shows, drawn at the height of a
/// control so it reads as a signature rather than a heading, and linked to
/// the project. Its tooltip names the version, so a reader handed the file
/// alone can still find where it came from.
fn brand(mark: &Mark, ink: &str, out: &mut String)
    ensures
        final(out)@ == with_mark(old(out)@, *mark, ink@),
{
    out.append("<a class=\"brand\" href=\"");
    out.append(mark.home.as_str());
    out.append("\" target=\"_blank\">\n<title>Drawn by PanicGraph ");
    out.append(mark.version.as_str());
    out.append("</title>\n<g fill=\"none\" transform=\"translate(10 6) scale(0.375)\">\n<path d=\"M6 14H58M6 32H58M6 50H58\" stroke=\"");
    out.append(ink);
    out.append("\" stroke-opacity=\"0.32\" stroke-width=\"2\"/>\n<path d=\"M13 14H26V32H44V50\" stroke=\"");
    out.append(ink);
    out.append("\" stroke-width=\"4.5\" stroke-linecap=\"square\"/>\n<circle cx=\"13\" cy=\"14\" r=\"3.5\" fill=\"");
    out.append(ink);
    out.append("\"/>\n<circle cx=\"44\" cy=\"50\" r=\"7\" fill=\"#E8A33D\"/>\n<circle cx=\"44\" cy=\"50\" r=\"7\" fill=\"none\" stroke=\"");
    out.append(ink);
    out.append("\" stroke-width=\"3\"/>\n<text x=\"76\" y=\"42\" fill=\"");
    out.append(ink);
    out.append("\">PanicGraph</text>\n</g>\n</a>\n");
}

/// A text with the title, the policy, and the controls after it.
pub open spec fn with_controls(out: Seq<char>, view: Picture) -> Seq<char> {
    out
        + "<text id=\"title\" x=\"50%\" y=\"22\" text-anchor=\"middle\" class=\"title\">Reachable panics</text>\n<text id=\"subtitle\" x=\"50%\" y=\"38\" text-anchor=\"middle\" class=\"note\">"@
        + svg::escaped(svg::policy_text(view.suppressed@, shown_only(view.only)))
        + "</text>\n<text id=\"unzoom\" x=\"150\" y=\"22\" class=\"ctl\">Reset Zoom</text>\n<text id=\"search\" x=\"100%\" dx=\"-10\" y=\"22\" text-anchor=\"end\" class=\"ctl on\">Search</text>\n"@
}

/// Writes the title, the policy, and what the script acts on.
///
/// The policy belongs on the picture: a flame graph of what can panic says
/// nothing definite without the assumptions it was drawn under. Whatever
/// belongs to the middle or the right edge is placed as a share of the width,
/// or as an offset back from the edge, so it follows the window.
fn controls(view: &Picture, out: &mut String)
    ensures
        final(out)@ == with_controls(old(out)@, *view),
{
    let said = escape(policy(view.suppressed, view.only).as_str());
    out.append("<text id=\"title\" x=\"50%\" y=\"22\" text-anchor=\"middle\" class=\"title\">Reachable panics</text>\n<text id=\"subtitle\" x=\"50%\" y=\"38\" text-anchor=\"middle\" class=\"note\">");
    out.append(said.as_str());
    out.append("</text>\n<text id=\"unzoom\" x=\"150\" y=\"22\" class=\"ctl\">Reset Zoom</text>\n<text id=\"search\" x=\"100%\" dx=\"-10\" y=\"22\" text-anchor=\"end\" class=\"ctl on\">Search</text>\n");
}

/// A text with the notes under the frames after it.
pub open spec fn with_notes(out: Seq<char>, foot: nat, frames: nat, total: nat) -> Seq<char> {
    out
        + "<text id=\"note\" x=\"10\" y=\""@
        + text::decimal(foot)
        + ".0\" class=\"note\">"@
        + text::decimal(frames)
        + " frames, "@
        + text::decimal(total)
        + " reachable panics. Click a frame to zoom, ctrl-F to search.</text>\n<text id=\"detail\" x=\"10\" y=\""@
        + text::decimal(foot)
        + ".0\" class=\"detail\"> </text>\n<text id=\"matched\" x=\"100%\" dx=\"-10\" y=\""@
        + text::decimal(foot)
        + ".0\" text-anchor=\"end\" class=\"note\"> </text>\n"@
}

/// Writes what stands under the frames.
fn notes(foot: u128, frames: usize, total: u128, out: &mut String)
    ensures
        final(out)@ == with_notes(old(out)@, foot as nat, frames as nat, total as nat),
{
    let line = text::count(foot);
    let count = text::count(frames as u128);
    let whole = text::count(total);
    out.append("<text id=\"note\" x=\"10\" y=\"");
    out.append(line.as_str());
    out.append(".0\" class=\"note\">");
    out.append(count.as_str());
    out.append(" frames, ");
    out.append(whole.as_str());
    out.append(" reachable panics. Click a frame to zoom, ctrl-F to search.</text>\n<text id=\"detail\" x=\"10\" y=\"");
    out.append(line.as_str());
    out.append(".0\" class=\"detail\"> </text>\n<text id=\"matched\" x=\"100%\" dx=\"-10\" y=\"");
    out.append(line.as_str());
    out.append(".0\" text-anchor=\"end\" class=\"note\"> </text>\n");
}

/// What a frame is, in words.
pub open spec fn kind_text(row: RowView) -> Seq<char> {
    match row.category {
        Some(category) => category + " panic"@,
        None => row.kind + " call"@,
    }
}

fn kind_of(row: &FlameRow) -> (r: String)
    ensures
        r@ == kind_text(row@),
{
    match row.category {
        Some(category) => {
            let mut out = category.to_owned();
            out.append(" panic");
            out
        },
        None => {
            let mut out = row.kind.to_owned();
            out.append(" call");
            out
        },
    }
}

/// What is said of the calls folded into a frame.
pub open spec fn folded_text(row: RowView) -> Seq<char> {
    if row.elided.len() == 0 {
        Seq::empty()
    } else {
        ", through "@ + text::decimal(row.elided.len()) + " more calls"@
    }
}

fn folded_of(row: &FlameRow) -> (r: String)
    ensures
        r@ == folded_text(row@),
{
    let mut out = String::new();
    if row.elided.len() > 0 {
        out = ", through ".to_owned();
        out.append(text::count(row.elided.len() as u128).as_str());
        out.append(" more calls");
    } else {
        assert(out@ =~= folded_text(row@));
    }
    out
}

/// The sentence that labels a frame, for the script and for a reader hovering
/// it with scripting off. Only the name can carry markup; the rest is made
/// from counts and fixed words.
pub open spec fn info_text(row: RowView, weight: nat, share: Seq<char>) -> Seq<char> {
    svg::escaped(row.name)
        + " ("@
        + kind_text(row)
        + ", "@
        + text::decimal(weight)
        + " reachable, "@
        + share
        + "%"@
        + folded_text(row)
        + ")"@
}

fn info_of(row: &FlameRow, name: &str, weight: u128, share: &str) -> (r: String)
    requires
        name@ == svg::escaped(row@.name),
    ensures
        r@ == info_text(row@, weight as nat, share@),
{
    let kind = kind_of(row);
    let folded = folded_of(row);
    let count = text::count(weight);
    let mut out = name.to_owned();
    out.append(" (");
    out.append(kind.as_str());
    out.append(", ");
    out.append(count.as_str());
    out.append(" reachable, ");
    out.append(share);
    out.append("%");
    out.append(folded.as_str());
    out.append(")");
    out
}

/// The colour of a frame: a panic's own, or the tint of a call.
pub open spec fn fill_of(palette: PaletteView, frame: Frame, row: RowView) -> Seq<char> {
    match panic_of(row) {
        Some(category) => palette.panic(category),
        None => palette.call(frame.family),
    }
}

/// The ink of a frame's label.
pub open spec fn ink_of(palette: PaletteView, row: RowView, placed: Placed) -> Seq<char> {
    match panic_of(row) {
        Some(_) => placed.ink@,
        None => palette.colours.label@,
    }
}

/// The panic a frame is, if it is one.
pub open spec fn panic_of(row: RowView) -> Option<Category> {
    match row.category {
        Some(name) => palette::named(name),
        None => None,
    }
}

fn panicking(row: &FlameRow) -> (r: Option<Category>)
    ensures
        r == panic_of(row@),
{
    match row.category {
        Some(name) => match Category::from_name(name) {
            Some(c) => {
                proof {
                    category::names_are_distinct(c, palette::named(name@)->0);
                }
                Some(c)
            },
            None => None,
        },
        None => None,
    }
}

/// The colour of a frame: a panic's own, or the tint of a call.
pub fn fill<'a>(palette: &'a Palette, frame: &Frame, row: &FlameRow) -> (r: &'a str)
    ensures
        r@ == fill_of(palette@, *frame, row@),
{
    match panicking(row) {
        Some(category) => palette.panic(category),
        None => palette.call(frame.family),
    }
}

/// The outline of a frame that runs only while unwinding.
pub open spec fn outline_of(palette: PaletteView, row: RowView) -> Seq<char> {
    if row.cleanup {
        " stroke=\""@ + palette.colours.gate@ + "\" stroke-dasharray=\"3 2\""@
    } else {
        Seq::empty()
    }
}

fn outlined(palette: &Palette, row: &FlameRow) -> (r: String)
    ensures
        r@ == outline_of(palette@, row@),
{
    let mut out = String::new();
    if row.cleanup {
        out = " stroke=\"".to_owned();
        out.append(palette.colours().gate.as_str());
        out.append("\" stroke-dasharray=\"3 2\"");
    } else {
        assert(out@ =~= outline_of(palette@, row@));
    }
    out
}

/// The label of a frame, as far as it fits.
pub open spec fn label_of(row: RowView, placed: Placed) -> Seq<char> {
    match placed.room {
        Some(room) => svg::escaped(svg::spec_tail(row.name, room as nat, row.elided.len())),
        None => Seq::empty(),
    }
}

fn labelled(row: &FlameRow, placed: &Placed) -> (r: String)
    ensures
        r@ == label_of(row@, *placed),
{
    match placed.room {
        Some(room) => escape(tail(row.name.as_str(), room, row.elided.len()).as_str()),
        None => {
            let none = String::new();
            assert(none@ =~= label_of(row@, *placed));
            none
        },
    }
}

/// How far down the frames of a depth are drawn.
pub open spec fn top_of(depth: nat) -> nat {
    (depth * ROW + HEAD) as nat
}

/// A text with a frame after it.
pub open spec fn with_frame(
    out: Seq<char>,
    palette: PaletteView,
    frame: Frame,
    row: RowView,
    placed: Placed,
) -> Seq<char> {
    let name = svg::escaped(row.name);
    let info = info_text(row, frame.weight as nat, placed.share@);
    let y = top_of(frame.depth as nat);
    out
        + "<g class=\"f\" data-name=\""@
        + name
        + "\" data-info=\""@
        + info
        + "\" data-more=\""@
        + text::decimal(row.elided.len())
        + "\" data-x=\""@
        + placed.x@
        + "\" data-w=\""@
        + placed.width@
        + "\" data-y=\""@
        + text::decimal(y)
        + ".0\">\n<title>"@
        + info
        + "</title>\n<rect x=\""@
        + placed.left@
        + "%\" y=\""@
        + text::decimal(y)
        + ".0\" width=\""@
        + placed.across@
        + "%\" height=\"16.0\" fill=\""@
        + fill_of(palette, frame, row)
        + "\""@
        + outline_of(palette, row)
        + " rx=\"2\"/>\n<text x=\""@
        + placed.left@
        + "%\" dx=\"4\" y=\""@
        + text::decimal(y + 11)
        + ".5\" class=\"l\" fill=\""@
        + ink_of(palette, row, placed)
        + "\">"@
        + label_of(row, placed)
        + "</text>\n</g>\n"@
}

/// Writes one frame.
///
/// The label is fitted here for a reader with scripting off, and the whole
/// name is kept beside it so the script can fit it again whenever the window
/// or a zoom changes how much room the frame has. Every frame carries a label
/// element, empty when there is no room yet, so one that gains room later has
/// somewhere to write its name.
fn draw(palette: &Palette, frame: &Frame, row: &FlameRow, placed: &Placed, out: &mut String)
    ensures
        final(out)@ == with_frame(old(out)@, palette@, *frame, row@, *placed),
{
    let name = escape(row.name.as_str());
    let info = info_of(row, name.as_str(), frame.weight, placed.share.as_str());
    let more = text::count(row.elided.len() as u128);
    let y: u128 = frame.depth as u128 * ROW + HEAD;
    let top = text::count(y);
    let middle = text::count(y + 11);
    let fill = fill(palette, frame, row);
    let outline = outlined(palette, row);
    let ink = match panicking(row) {
        Some(_) => placed.ink.as_str(),
        None => palette.colours().label.as_str(),
    };
    let label = labelled(row, placed);
    out.append("<g class=\"f\" data-name=\"");
    out.append(name.as_str());
    out.append("\" data-info=\"");
    out.append(info.as_str());
    out.append("\" data-more=\"");
    out.append(more.as_str());
    out.append("\" data-x=\"");
    out.append(placed.x.as_str());
    out.append("\" data-w=\"");
    out.append(placed.width.as_str());
    out.append("\" data-y=\"");
    out.append(top.as_str());
    out.append(".0\">\n<title>");
    out.append(info.as_str());
    out.append("</title>\n<rect x=\"");
    out.append(placed.left.as_str());
    out.append("%\" y=\"");
    out.append(top.as_str());
    out.append(".0\" width=\"");
    out.append(placed.across.as_str());
    out.append("%\" height=\"16.0\" fill=\"");
    out.append(fill);
    out.append("\"");
    out.append(outline.as_str());
    out.append(" rx=\"2\"/>\n<text x=\"");
    out.append(placed.left.as_str());
    out.append("%\" dx=\"4\" y=\"");
    out.append(middle.as_str());
    out.append(".5\" class=\"l\" fill=\"");
    out.append(ink);
    out.append("\">");
    out.append(label.as_str());
    out.append("</text>\n</g>\n");
}

/// The depth of the deepest of the first `n` frames.
pub open spec fn deepest(frames: Seq<Frame>, n: nat) -> nat
    decreases n,
{
    if n == 0 {
        0
    } else {
        let before = deepest(frames, (n - 1) as nat);
        let depth = frames[n - 1].depth as nat;
        if depth > before {
            depth
        } else {
            before
        }
    }
}

fn depth_of(frames: &Vec<Frame>) -> (r: usize)
    ensures
        r == deepest(frames@, frames@.len()),
{
    let mut most: usize = 0;
    let mut i: usize = 0;
    while i < frames.len()
        invariant
            i <= frames@.len(),
            most == deepest(frames@, i as nat),
        decreases frames@.len() - i,
    {
        if frames[i].depth > most {
            most = frames[i].depth;
        }
        i += 1;
    }
    most
}

/// How many panics are reachable in all.
pub open spec fn total_of(frames: Seq<Frame>) -> nat {
    if frames.len() > 0 && frames[0].weight > 1 {
        frames[0].weight as nat
    } else {
        1
    }
}

/// How many panics are reachable in all.
pub fn total(frames: &Vec<Frame>) -> (r: u128)
    ensures
        r == total_of(frames@),
{
    if frames.len() > 0 && frames[0].weight > 1 {
        frames[0].weight
    } else {
        1
    }
}

/// A text with the first `n` frames of a picture after it.
pub open spec fn with_frames(
    out: Seq<char>,
    palette: PaletteView,
    rows: Seq<RowView>,
    frames: Seq<Frame>,
    places: Seq<Placed>,
    n: nat,
) -> Seq<char>
    decreases n,
{
    if n == 0 {
        out
    } else {
        let frame = frames[n - 1];
        with_frame(
            with_frames(out, palette, rows, frames, places, (n - 1) as nat),
            palette,
            frame,
            rows[frame.row as int],
            places[n - 1],
        )
    }
}

/// A text with a picture after it.
pub open spec fn with_document(
    out: Seq<char>,
    view: Picture,
    palette: PaletteView,
    rows: Seq<RowView>,
    frames: Seq<Frame>,
    places: Seq<Placed>,
    mark: Mark,
) -> Seq<char> {
    let height = ((deepest(frames, frames.len()) + 1) * ROW + MARGIN) as nat;
    let headed = with_head(out, palette.colours, height);
    let marked = with_mark(headed, mark, palette.colours.brand@);
    let noted = with_notes(
        with_controls(marked, view),
        (height - 12) as nat,
        frames.len(),
        total_of(frames),
    );
    with_frames(
        noted + "<svg id=\"frames\" x=\"10\" width=\"1180\">\n"@,
        palette,
        rows,
        frames,
        places,
        frames.len(),
    ) + "</svg>\n</svg>\n"@
}

/// Writes the flame graph as a standalone document.
pub fn render(
    view: &Picture,
    palette: &Palette,
    rows: &Vec<FlameRow>,
    frames: &Vec<Frame>,
    places: &Vec<Placed>,
    mark: &Mark,
    out: &mut String,
)
    requires
        places@.len() == frames@.len(),
        forall|k: int| 0 <= k < frames@.len() ==> (#[trigger] frames@[k]).row < rows@.len(),
    ensures
        final(out)@ == with_document(
            old(out)@,
            *view,
            palette@,
            api::row_views(rows@),
            frames@,
            places@,
            *mark,
        ),
{
    let deep: u128 = depth_of(frames) as u128;
    let height: u128 = (deep + 1) * ROW + MARGIN;
    header(palette.colours(), height, out);
    brand(mark, palette.colours().brand.as_str(), out);
    controls(view, out);
    notes(height - 12, frames.len(), total(frames), out);
    out.append("<svg id=\"frames\" x=\"10\" width=\"1180\">\n");
    let ghost start = out@;
    let ghost views = api::row_views(rows@);
    let mut i: usize = 0;
    while i < frames.len()
        invariant
            i <= frames@.len(),
            places@.len() == frames@.len(),
            views == api::row_views(rows@),
            forall|k: int| 0 <= k < frames@.len() ==> (#[trigger] frames@[k]).row < rows@.len(),
            out@ == with_frames(start, palette@, views, frames@, places@, i as nat),
        decreases frames@.len() - i,
    {
        let frame = &frames[i];
        assert(views[frame.row as int] == rows@[frame.row as int]@);
        draw(palette, frame, &rows[frame.row], &places[i], out);
        i += 1;
    }
    out.append("</svg>\n</svg>\n");
}

} // verus!
