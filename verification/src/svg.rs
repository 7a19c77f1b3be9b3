//! The layout and the wording of a standalone flame graph.
//!
//! The shape follows the flame graph convention, which readers already know:
//! width is how much reaches through a frame, and depth is call depth. Frames
//! are placed by what they weigh, as shares of what the whole picture weighs,
//! so they stretch with the window while the text keeps its size.

use vstd::prelude::*;

use crate::api;
use crate::api::{children_of, drawn_rows, FlameRow, RowView};
use crate::category;
use crate::category::{Category, CategorySet};
use crate::graph::Graph;
use crate::lists;
use crate::lists::Order;
use crate::palette;
use crate::palette::{Family, Palette, Theme};
use crate::select::Selection;
use crate::solve::Edges;
use crate::text;

verus! {

/// How a graph is seen.
#[derive(Debug, Clone, Copy)]
pub struct Picture {
    /// The categories assumed impossible.
    pub suppressed: CategorySet,
    /// When set, the only categories drawn.
    pub only: Option<CategorySet>,
    /// Which edges are followed.
    pub edges: Edges,
    /// Whether runs of single calls are folded.
    pub fold: bool,
    /// The colours it is drawn in.
    pub theme: Theme,
}

/// What a view selects.
pub open spec fn selection_of(view: Picture) -> Selection {
    Selection { only: view.only, ..api::usual() }
}

/// The frames a graph is drawn as.
///
/// # Errors
///
/// Returns an error if the fixpoint does not converge, which does not happen.
pub fn rows_of(graph: &Graph, view: &Picture) -> (r: Result<Vec<FlameRow>, String>)
    ensures
        r is Ok,
        api::is_tree(api::row_views(r->Ok_0@)),
        api::are_drawn(
            api::row_views(r->Ok_0@),
            graph@.bodies,
            view.suppressed@,
            view.edges,
            selection_of(*view),
            view.fold,
        ),
{
    let mut sel = Selection::default();
    sel.only = view.only;
    drawn_rows(graph, view.suppressed, view.edges, sel, view.fold)
}

/// The assumptions a picture is drawn under, written out.
pub open spec fn policy_text(suppressed: Set<Category>, only: Option<Set<Category>>) -> Seq<char> {
    let assumed = if category::names_of(suppressed).len() == 0 {
        "assuming nothing impossible"@
    } else {
        "assuming impossible: "@ + text::joined(category::names_of(suppressed), ", "@)
    };
    match only {
        Some(set) => assumed + "; showing only: "@ + text::joined(
            category::names_of(set),
            ", "@,
        ),
        None => assumed,
    }
}

/// The assumptions a picture is drawn under, written out.
///
/// The policy belongs on the picture. A flame graph of what can panic
/// says nothing definite without the assumptions it was drawn under.
pub fn policy(suppressed: CategorySet, only: Option<CategorySet>) -> (r: String)
    ensures
        r@ == policy_text(
            suppressed@,
            match only {
                Some(set) => Some(set@),
                None => None,
            },
        ),
{
    let names = suppressed.names();
    assert(text::texts(names@).len() == names@.len());
    let mut out = if names.len() == 0 {
        "assuming nothing impossible".to_owned()
    } else {
        let mut out = "assuming impossible: ".to_owned();
        out.append(text::join(&names, ", ").as_str());
        out
    };
    if let Some(set) = only {
        out.append("; showing only: ");
        out.append(text::join(&set.names(), ", ").as_str());
    }
    out
}

/// A character as it is written between tags and in attributes.
pub open spec fn marked_up(c: char) -> Seq<char> {
    if c == '&' {
        "&amp;"@
    } else if c == '<' {
        "&lt;"@
    } else if c == '>' {
        "&gt;"@
    } else if c == '"' {
        "&quot;"@
    } else if c == '\'' {
        "&apos;"@
    } else {
        seq![c]
    }
}

/// A text as it is written between tags and in attributes.
pub open spec fn escaped(s: Seq<char>) -> Seq<char>
    decreases s.len(),
{
    if s.len() == 0 {
        Seq::empty()
    } else {
        escaped(s.drop_last()) + marked_up(s.last())
    }
}

/// Escapes the characters that would otherwise close a tag or an attribute.
pub fn escape(s: &str) -> (r: String)
    ensures
        r@ == escaped(s@),
{
    let v = text::chars_of(s);
    let mut out = String::new();
    let mut i: usize = 0;
    assert(s@.take(0) =~= Seq::empty());
    while i < v.len()
        invariant
            i <= v@.len(),
            v@ == s@,
            out@ == escaped(s@.take(i as int)),
        decreases v@.len() - i,
    {
        let c = v[i];
        assert(s@.take(i + 1).drop_last() =~= s@.take(i as int));
        if c == '&' {
            out.append("&amp;");
        } else if c == '<' {
            out.append("&lt;");
        } else if c == '>' {
            out.append("&gt;");
        } else if c == '"' {
            out.append("&quot;");
        } else if c == '\'' {
            out.append("&apos;");
        } else {
            let ghost was = out@;
            out.push(c);
            assert(out@ =~= was + seq![c]);
        }
        i += 1;
    }
    assert(s@.take(i as int) =~= s@);
    out
}

/// No text that was escaped closes a tag or an attribute.
pub proof fn escaped_text_is_inert(s: Seq<char>)
    ensures
        forall|i: int|
            0 <= i < escaped(s).len() ==> (#[trigger] escaped(s)[i]) != '<' && escaped(s)[i] != '>'
                && escaped(s)[i] != '"' && escaped(s)[i] != '\'',
    decreases s.len(),
{
    if s.len() > 0 {
        escaped_text_is_inert(s.drop_last());
        reveal_strlit("&amp;");
        reveal_strlit("&lt;");
        reveal_strlit("&gt;");
        reveal_strlit("&quot;");
        reveal_strlit("&apos;");
        let front = escaped(s.drop_last());
        let back = marked_up(s.last());
        assert forall|i: int| 0 <= i < escaped(s).len() implies (#[trigger] escaped(s)[i]) != '<'
            && escaped(s)[i] != '>' && escaped(s)[i] != '"' && escaped(s)[i] != '\'' by {
            if i < front.len() {
                assert(escaped(s)[i] == front[i]);
            } else {
                assert(escaped(s)[i] == back[i - front.len()]);
            }
        }
    }
}

/// How many calls a frame swallowed, as it is written behind its name.
pub open spec fn badge(folded: nat) -> Seq<char> {
    if folded > 0 {
        " +"@ + text::decimal(folded)
    } else {
        ""@
    }
}

/// Where the last path separator of a text starts, if it has one.
pub open spec fn last_separator(s: Seq<char>) -> Option<int>
    decreases s.len(),
{
    if s.len() < 2 {
        None
    } else if s[s.len() - 1] == ':' && s[s.len() - 2] == ':' {
        Some(s.len() - 2)
    } else {
        last_separator(s.drop_last())
    }
}

/// The end of a path that fits some room.
pub open spec fn spec_tail(s: Seq<char>, room: nat, folded: nat) -> Seq<char> {
    let more = badge(folded);
    let left: int = if room > more.len() {
        room - more.len()
    } else {
        0
    };
    if left < 5 {
        text::trimmed(more)
    } else if s.len() <= left {
        s + more
    } else {
        match last_separator(s) {
            Some(cut) => if s.len() - cut - 2 <= left - 2 {
                ".."@ + s.skip(cut + 2) + more
            } else {
                ".."@ + s.skip(s.len() - (left - 2)) + more
            },
            None => ".."@ + s.skip(s.len() - (left - 2)) + more,
        }
    }
}

fn separator_of(v: &Vec<char>) -> (r: Option<usize>)
    ensures
        match r {
            Some(i) => last_separator(v@) == Some(i as int) && i + 2 <= v@.len(),
            None => last_separator(v@) is None,
        },
{
    let mut n: usize = v.len();
    assert(v@.take(n as int) =~= v@);
    while n >= 2
        invariant
            n <= v@.len(),
            last_separator(v@) == last_separator(v@.take(n as int)),
        decreases n,
    {
        let ghost part = v@.take(n as int);
        assert(part[n - 1] == v@[n - 1] && part[n - 2] == v@[n - 2]);
        if v[n - 1] == ':' && v[n - 2] == ':' {
            return Some(n - 2);
        }
        assert(part.drop_last() =~= v@.take(n - 1));
        n -= 1;
    }
    None
}

/// Keeps the end of a path, which is the part that identifies it.
pub fn tail(s: &str, room: usize, folded: usize) -> (r: String)
    ensures
        r@ == spec_tail(s@, room as nat, folded as nat),
{
    let mut more = String::new();
    if folded > 0 {
        more.append(" +");
        more.append(text::number(folded as u64).as_str());
    }
    proof {
        assert(""@ =~= Seq::<char>::empty()) by {
            reveal_strlit("");
        }
        assert(more@ =~= badge(folded as nat));
    }
    let used = text::chars_of(more.as_str()).len();
    let left: usize = if room > used {
        room - used
    } else {
        0
    };
    if left < 5 {
        return text::trim(more.as_str());
    }
    let v = text::chars_of(s);
    if v.len() <= left {
        let mut out = s.to_owned();
        out.append(more.as_str());
        return out;
    }
    let mut from: usize = v.len() - (left - 2);
    if let Some(cut) = separator_of(&v) {
        if v.len() - cut - 2 <= left - 2 {
            from = cut + 2;
        }
    }
    let mut out = "..".to_owned();
    let kept = text::text_of(v.as_slice(), from, v.len());
    assert(kept@ =~= s@.skip(from as int));
    out.append(kept.as_str());
    out.append(more.as_str());
    out
}

/// What a frame with nothing under it weighs.
pub open spec fn own(row: RowView) -> nat {
    if row.value > 1 {
        row.value as nat
    } else {
        1
    }
}

/// What a frame weighs: all that is under it, or what it carries itself.
///
/// So a frame is exactly as wide as the panics reachable through it.
pub open spec fn weight(rows: Seq<RowView>, id: int) -> nat
    decreases rows.len() - id, 0int,
{
    if id < 0 || id >= rows.len() {
        0
    } else {
        let below = under(rows, id, id + 1);
        if below == 0 {
            own(rows[id])
        } else {
            below
        }
    }
}

/// What the frames directly under one weigh together, from one on.
pub open spec fn under(rows: Seq<RowView>, id: int, from: int) -> nat
    decreases rows.len() - from, 1int,
{
    if from < 0 || from >= rows.len() {
        0
    } else {
        (if is_under(rows, id, from) {
            weight(rows, from)
        } else {
            0
        }) + under(rows, id, from + 1)
    }
}

/// Whether one frame sits directly under another.
pub open spec fn is_under(rows: Seq<RowView>, id: int, kid: int) -> bool {
    rows[kid].parent is Some && rows[kid].parent->0 == id
}

/// The family of the panic a frame is.
pub open spec fn hue(families: Seq<Family>, row: RowView) -> Option<Family> {
    match row.category {
        Some(name) => match palette::named(name) {
            Some(c) => Some(families[c.place() as int]),
            None => None,
        },
        None => None,
    }
}

/// How much of what a frame weighs is panics of a family.
pub open spec fn share(rows: Seq<RowView>, families: Seq<Family>, family: Family, id: int) -> nat
    decreases rows.len() - id, 0int,
{
    if id < 0 || id >= rows.len() {
        0
    } else {
        match hue(families, rows[id]) {
            Some(own) => if own == family {
                weight(rows, id)
            } else {
                0
            },
            None => shares_under(rows, families, family, id, id + 1),
        }
    }
}

/// How much of what the frames directly under one weigh is panics of a
/// family, from one on.
pub open spec fn shares_under(
    rows: Seq<RowView>,
    families: Seq<Family>,
    family: Family,
    id: int,
    from: int,
) -> nat
    decreases rows.len() - from, 1int,
{
    if from < 0 || from >= rows.len() {
        0
    } else {
        (if is_under(rows, id, from) {
            share(rows, families, family, from)
        } else {
            0
        }) + shares_under(rows, families, family, id, from + 1)
    }
}

/// The family a frame is coloured by: its own, or the one most of the panics
/// under it belong to. A tie goes to the one listed first.
pub open spec fn spec_family(rows: Seq<RowView>, families: Seq<Family>, id: int) -> Option<Family> {
    let logic = share(rows, families, Family::Logic, id);
    let alloc = share(rows, families, Family::Alloc, id);
    let unsure = share(rows, families, Family::Unsure, id);
    if hue(families, rows[id]) is Some {
        hue(families, rows[id])
    } else if logic == 0 && alloc == 0 && unsure == 0 {
        None
    } else if logic >= alloc && logic >= unsure {
        Some(Family::Logic)
    } else if alloc >= unsure {
        Some(Family::Alloc)
    } else {
        Some(Family::Unsure)
    }
}

proof fn shares_fit(rows: Seq<RowView>, families: Seq<Family>, family: Family, id: int)
    ensures
        share(rows, families, family, id) <= weight(rows, id),
    decreases rows.len() - id, 0int,
{
    if 0 <= id < rows.len() {
        shares_under_fit(rows, families, family, id, id + 1);
    }
}

proof fn shares_under_fit(
    rows: Seq<RowView>,
    families: Seq<Family>,
    family: Family,
    id: int,
    from: int,
)
    ensures
        shares_under(rows, families, family, id, from) <= under(rows, id, from),
    decreases rows.len() - from, 1int,
{
    if 0 <= from < rows.len() {
        shares_fit(rows, families, family, from);
        shares_under_fit(rows, families, family, id, from + 1);
    }
}

/// What the first `n` of some numbers come to.
pub open spec fn summed(s: Seq<u128>, n: int) -> nat
    decreases n,
{
    if n <= 0 {
        0
    } else {
        summed(s, n - 1) + s[n - 1] as nat
    }
}

proof fn summed_update(s: Seq<u128>, n: int, i: int, x: u128)
    requires
        0 <= i < s.len(),
        n <= s.len(),
    ensures
        summed(s.update(i, x), n) == (if i < n {
            summed(s, n) - s[i] + x
        } else {
            summed(s, n) as int
        }),
    decreases n,
{
    if n > 0 {
        summed_update(s, n - 1, i, x);
    }
}

proof fn summed_holds(s: Seq<u128>, n: int, i: int)
    requires
        0 <= i < n <= s.len(),
    ensures
        s[i] <= summed(s, n),
    decreases n,
{
    if i < n - 1 {
        summed_holds(s, n - 1, i);
    }
}

fn zeros(n: usize) -> (r: Vec<u128>)
    ensures
        r@ == Seq::new(n as nat, |i: int| 0u128),
{
    let mut r: Vec<u128> = Vec::new();
    let mut i: usize = 0;
    while i < n
        invariant
            i <= n,
            r@ == Seq::new(i as nat, |k: int| 0u128),
        decreases n - i,
    {
        r.push(0);
        i += 1;
        assert(r@ =~= Seq::new(i as nat, |k: int| 0u128));
    }
    r
}

proof fn zeros_sum(s: Seq<u128>, n: int)
    requires
        n <= s.len(),
        forall|i: int| 0 <= i < s.len() ==> s[i] == 0,
    ensures
        summed(s, n) == 0,
    decreases n,
{
    if n > 0 {
        zeros_sum(s, n - 1);
    }
}

/// Works out what each frame weighs, from the leaves up.
#[verifier::rlimit(30)]
fn weigh(rows: &Vec<FlameRow>) -> (r: Vec<u128>)
    requires
        api::is_tree(api::row_views(rows@)),
    ensures
        r@.len() == rows@.len(),
        forall|i: int|
            0 <= i < r@.len() ==> #[trigger] r@[i] == weight(api::row_views(rows@), i),
{
    let ghost views = api::row_views(rows@);
    let n = rows.len();
    let mut acc = zeros(n);
    proof {
        zeros_sum(acc@, n as int);
        assert(0 * 0xffff_ffff_ffff_ffff == 0);
    }
    let mut j: usize = n;
    while j > 0
        invariant
            views == api::row_views(rows@),
            api::is_tree(views),
            n == views.len(),
            rows@.len() == n,
            acc@.len() == n,
            j <= n,
            forall|k: int| j <= k < n ==> #[trigger] acc@[k] == weight(views, k),
            forall|k: int| 0 <= k < j ==> #[trigger] acc@[k] == under(views, k, j as int),
            summed(acc@, j as int) <= (n - j) * 0xffff_ffff_ffff_ffff,
        decreases j,
    {
        let i: usize = j - 1;
        assert(views[i as int] == rows@[i as int]@);
        let ghost was = acc@;
        let below = acc[i];
        let value: u128 = rows[i].value as u128;
        let w: u128 = if below == 0 {
            if value > 1 {
                value
            } else {
                1
            }
        } else {
            below
        };
        assert(w == weight(views, i as int));
        assert((n - i) * 0xffff_ffff_ffff_ffff == (n - j) * 0xffff_ffff_ffff_ffff
            + 0xffff_ffff_ffff_ffff) by (nonlinear_arith)
            requires
                j == i + 1,
        ;
        assert((n - i) * 0xffff_ffff_ffff_ffff <= 0xffff_ffff_ffff_ffff * 0xffff_ffff_ffff_ffff)
            by (nonlinear_arith)
            requires
                0 <= n - i <= 0xffff_ffff_ffff_ffff,
        ;
        acc.set(i, w);
        proof {
            summed_update(was, i as int, i as int, w);
            assert(summed(was, j as int) == summed(was, i as int) + below);
            assert(summed(acc@, i as int) + w <= (n - i) * 0xffff_ffff_ffff_ffff);
        }
        if let Some(p) = rows[i].parent {
            assert(p < i);
            let ghost mid = acc@;
            proof {
                summed_holds(mid, i as int, p as int);
            }
            let more: u128 = acc[p] + w;
            acc.set(p, more);
            proof {
                summed_update(mid, i as int, p as int, more);
            }
        }
        proof {
            assert forall|k: int| 0 <= k < i implies #[trigger] acc@[k] == under(
                views,
                k,
                i as int,
            ) by {
                assert(was[k] == under(views, k, j as int));
                assert(is_under(views, k, i as int) <==> rows@[i as int].parent == Some(k as usize));
            }
        }
        j -= 1;
    }
    acc
}

/// The category a frame is, where it is a panic.
fn hue_of(palette: &Palette, row: &FlameRow) -> (r: Option<Family>)
    ensures
        r == hue(palette@.families, row@),
{
    match row.category {
        Some(name) => match Category::from_name(name) {
            Some(c) => {
                proof {
                    category::names_are_distinct(c, palette::named(name@)->0);
                }
                Some(palette.family(c))
            },
            None => None,
        },
        None => None,
    }
}

/// Works out how much of what each frame weighs is panics of a family.
#[verifier::rlimit(30)]
fn shared_out(rows: &Vec<FlameRow>, palette: &Palette, family: Family, weights: &Vec<u128>) -> (r:
    Vec<u128>)
    requires
        api::is_tree(api::row_views(rows@)),
        weights@.len() == rows@.len(),
        forall|i: int|
            0 <= i < weights@.len() ==> #[trigger] weights@[i] == weight(
                api::row_views(rows@),
                i,
            ),
    ensures
        r@.len() == rows@.len(),
        forall|i: int|
            0 <= i < r@.len() ==> #[trigger] r@[i] == share(
                api::row_views(rows@),
                palette@.families,
                family,
                i,
            ),
{
    let ghost views = api::row_views(rows@);
    let ghost families = palette@.families;
    let n = rows.len();
    let mut acc = zeros(n);
    let mut j: usize = n;
    while j > 0
        invariant
            views == api::row_views(rows@),
            families == palette@.families,
            api::is_tree(views),
            n == views.len(),
            rows@.len() == n,
            acc@.len() == n,
            weights@.len() == n,
            forall|i: int| 0 <= i < n ==> #[trigger] weights@[i] == weight(views, i),
            j <= n,
            forall|k: int| j <= k < n ==> #[trigger] acc@[k] == share(views, families, family, k),
            forall|k: int|
                0 <= k < j ==> #[trigger] acc@[k] == shares_under(
                    views,
                    families,
                    family,
                    k,
                    j as int,
                ),
        decreases j,
    {
        let i: usize = j - 1;
        assert(views[i as int] == rows@[i as int]@);
        let ghost was = acc@;
        let part: u128 = match hue_of(palette, &rows[i]) {
            Some(own) => if own == family {
                weights[i]
            } else {
                0
            },
            None => acc[i],
        };
        assert(part == share(views, families, family, i as int));
        acc.set(i, part);
        if let Some(p) = rows[i].parent {
            assert(p < i);
            proof {
                assert(was[p as int] == shares_under(views, families, family, p as int, j as int));
                shares_under_fit(views, families, family, p as int, i as int);
                starting_higher_weighs_less(views, p as int, p + 1, i as int);
                assert(under(views, p as int, i as int) <= weight(views, p as int));
                assert(weights@[p as int] == weight(views, p as int));
            }
            let more: u128 = acc[p] + part;
            acc.set(p, more);
        }
        proof {
            assert forall|k: int| 0 <= k < i implies #[trigger] acc@[k] == shares_under(
                views,
                families,
                family,
                k,
                i as int,
            ) by {
                assert(was[k] == shares_under(views, families, family, k, j as int));
                assert(is_under(views, k, i as int) <==> rows@[i as int].parent == Some(k as usize));
            }
        }
        j -= 1;
    }
    acc
}

proof fn starting_higher_weighs_less(rows: Seq<RowView>, id: int, a: int, b: int)
    requires
        0 <= a <= b,
    ensures
        under(rows, id, b) <= under(rows, id, a),
    decreases b - a,
{
    if a < b {
        if a < rows.len() {
            starting_higher_weighs_less(rows, id, a + 1, b);
        }
    }
}

/// The place of a frame among others of the same weight, by its family.
pub open spec fn band(family: Option<Family>) -> nat {
    match family {
        None => 0,
        Some(f) => f.place() + 1,
    }
}

/// Whether one frame leads another under the same frame: the heavier of the
/// two, then the one of the family listed first, then the one named first.
pub open spec fn leads(rows: Seq<RowView>, families: Seq<Family>, a: usize, b: usize) -> bool {
    let wa = weight(rows, a as int);
    let wb = weight(rows, b as int);
    let fa = band(spec_family(rows, families, a as int));
    let fb = band(spec_family(rows, families, b as int));
    let na = rows[a as int].name;
    let nb = rows[b as int].name;
    wa > wb || (wa == wb && (fa < fb || (fa == fb && (text::comes_before(na, nb) || (na == nb && a
        < b)))))
}

/// What is known of each frame when frames are placed.
struct Measured<'a> {
    rows: &'a Vec<FlameRow>,
    weights: Vec<u128>,
    families: Vec<Option<Family>>,
    of: Ghost<Seq<Family>>,
}

impl<'a> Measured<'a> {
    spec fn views(self) -> Seq<RowView> {
        api::row_views(self.rows@)
    }

    spec fn wf(self) -> bool {
        let n = self.rows@.len();
        &&& api::is_tree(self.views())
        &&& self.weights@.len() == n
        &&& self.families@.len() == n
        &&& forall|i: int|
            0 <= i < n ==> #[trigger] self.weights@[i] == weight(self.views(), i)
        &&& forall|i: int|
            0 <= i < n ==> #[trigger] self.families@[i] == spec_family(self.views(), self.of@, i)
    }

    fn new(rows: &'a Vec<FlameRow>, palette: &Palette) -> (r: Measured<'a>)
        requires
            api::is_tree(api::row_views(rows@)),
        ensures
            r.wf(),
            r.rows@ == rows@,
            r.of@ == palette@.families,
    {
        let weights = weigh(rows);
        let logic = shared_out(rows, palette, Family::Logic, &weights);
        let alloc = shared_out(rows, palette, Family::Alloc, &weights);
        let unsure = shared_out(rows, palette, Family::Unsure, &weights);
        let ghost views = api::row_views(rows@);
        let ghost of = palette@.families;
        let mut families: Vec<Option<Family>> = Vec::new();
        let mut i: usize = 0;
        while i < rows.len()
            invariant
                i <= rows@.len(),
                views == api::row_views(rows@),
                of == palette@.families,
                logic@.len() == rows@.len(),
                alloc@.len() == rows@.len(),
                unsure@.len() == rows@.len(),
                forall|k: int|
                    0 <= k < rows@.len() ==> #[trigger] logic@[k] == share(
                        views,
                        of,
                        Family::Logic,
                        k,
                    ),
                forall|k: int|
                    0 <= k < rows@.len() ==> #[trigger] alloc@[k] == share(
                        views,
                        of,
                        Family::Alloc,
                        k,
                    ),
                forall|k: int|
                    0 <= k < rows@.len() ==> #[trigger] unsure@[k] == share(
                        views,
                        of,
                        Family::Unsure,
                        k,
                    ),
                families@.len() == i,
                forall|k: int| 0 <= k < i ==> #[trigger] families@[k] == spec_family(views, of, k),
            decreases rows@.len() - i,
        {
            assert(views[i as int] == rows@[i as int]@);
            let own = hue_of(palette, &rows[i]);
            let family = if own.is_some() {
                own
            } else if logic[i] == 0 && alloc[i] == 0 && unsure[i] == 0 {
                None
            } else if logic[i] >= alloc[i] && logic[i] >= unsure[i] {
                Some(Family::Logic)
            } else if alloc[i] >= unsure[i] {
                Some(Family::Alloc)
            } else {
                Some(Family::Unsure)
            };
            families.push(family);
            i += 1;
        }
        Measured { rows, weights, families, of: Ghost(of) }
    }
}

fn band_of(family: Option<Family>) -> (r: u8)
    ensures
        r == band(family),
{
    match family {
        None => 0,
        Some(Family::Logic) => 1,
        Some(Family::Alloc) => 2,
        Some(Family::Unsure) => 3,
    }
}

impl<'a> Order for Measured<'a> {
    closed spec fn covers(&self, a: usize) -> bool {
        self.wf() && a < self.rows@.len()
    }

    closed spec fn precedes(&self, a: usize, b: usize) -> bool {
        leads(self.views(), self.of@, a, b)
    }

    proof fn total(&self, a: usize, b: usize) {
        text::texts_are_ordered(self.views()[a as int].name, self.views()[b as int].name);
    }

    proof fn transitive(&self, a: usize, b: usize, c: usize) {
        let (na, nb, nc) = (
            self.views()[a as int].name,
            self.views()[b as int].name,
            self.views()[c as int].name,
        );
        if text::comes_before(na, nb) && text::comes_before(nb, nc) {
            text::text_order_is_transitive(na, nb, nc);
        }
    }

    fn less(&self, a: usize, b: usize) -> (r: bool) {
        assert(self.views()[a as int] == self.rows@[a as int]@);
        assert(self.views()[b as int] == self.rows@[b as int]@);
        let (wa, wb) = (self.weights[a], self.weights[b]);
        let (fa, fb) = (band_of(self.families[a]), band_of(self.families[b]));
        if wa != wb {
            return wa > wb;
        }
        if fa != fb {
            return fa < fb;
        }
        let (na, nb) = (self.rows[a].name.as_str(), self.rows[b].name.as_str());
        text::before(na, nb) || (text::same(na, nb) && a < b)
    }
}

/// Whether some lists are, for each frame, the frames directly under it in the
/// order in which they are drawn.
pub open spec fn is_ordered(rows: Seq<RowView>, families: Seq<Family>, order: Seq<Seq<usize>>) -> bool {
    &&& order.len() == rows.len()
    &&& forall|p: int| 0 <= p < rows.len() ==> orders(rows, families, p as usize, #[trigger] order[p])
}

/// Whether a list is the frames directly under one in the order in which they
/// are drawn.
pub open spec fn orders(rows: Seq<RowView>, families: Seq<Family>, p: usize, list: Seq<usize>) -> bool {
    &&& list.len() == api::kids(rows, p).len()
    &&& forall|x: usize| #[trigger] list.contains(x) <==> api::kids(rows, p).contains(x)
    &&& forall|i: int, j: int|
        0 <= i < j < list.len() ==> leads(rows, families, #[trigger] list[i], #[trigger] list[j])
}

/// Where a frame goes.
#[derive(Debug, Clone, Copy, PartialEq, Eq, Structural)]
pub struct Slot {
    pub row: usize,
    /// What stands to the left of it weighs.
    pub at: u128,
    pub depth: usize,
}

/// One laid out frame.
#[derive(Debug, Clone, Copy, PartialEq, Eq, Structural)]
pub struct Frame {
    pub row: usize,
    /// What stands to the left of it weighs.
    pub at: u128,
    pub depth: usize,
    /// What it weighs.
    pub weight: u128,
    /// The family it is coloured by.
    pub family: Option<Family>,
}

/// A picture: its frames, the families of the categories, and the order in
/// which frames are drawn under each.
pub struct Chart {
    pub rows: Seq<RowView>,
    pub families: Seq<Family>,
    pub order: Seq<Seq<usize>>,
}

/// Whether a frame is wide enough to be drawn, where the picture is 1180 units
/// wide and nothing thinner than a tenth of a unit is.
pub open spec fn is_wide(weight: nat, root: nat) -> bool {
    weight * 11800 >= root
}

impl Chart {
    /// What the whole picture weighs.
    pub open spec fn root(self) -> nat {
        weight(self.rows, 0)
    }

    /// What the first `n` frames under one weigh.
    pub open spec fn before(self, p: int, n: nat) -> nat
        decreases n,
    {
        if n == 0 {
            0
        } else {
            self.before(p, (n - 1) as nat) + weight(self.rows, self.order[p][n - 1] as int)
        }
    }

    /// Where the frames under one go, of the first `n`, without the slivers.
    ///
    /// A sliver cannot be read, hovered or clicked, and neither can
    /// anything under it, so the whole branch goes.
    pub open spec fn kept(self, slot: Slot, n: nat) -> Seq<Slot>
        decreases n,
    {
        if n == 0 {
            Seq::empty()
        } else {
            let earlier = self.kept(slot, (n - 1) as nat);
            let kid = self.order[slot.row as int][n - 1];
            if is_wide(weight(self.rows, kid as int), self.root()) {
                earlier.push(
                    Slot {
                        row: kid,
                        at: (slot.at + self.before(slot.row as int, (n - 1) as nat)) as u128,
                        depth: (slot.depth + 1) as usize,
                    },
                )
            } else {
                earlier
            }
        }
    }

    /// All that is drawn of what is under a frame.
    pub open spec fn kept_all(self, slot: Slot) -> Seq<Slot> {
        self.kept(slot, self.order[slot.row as int].len())
    }

    /// A frame as it is laid out.
    pub open spec fn frame(self, slot: Slot) -> Frame {
        Frame {
            row: slot.row,
            at: slot.at,
            depth: slot.depth,
            weight: weight(self.rows, slot.row as int) as u128,
            family: spec_family(self.rows, self.families, slot.row as int),
        }
    }

    /// The frames drawn from one on: itself, then what is under it, the last
    /// of it first.
    pub open spec fn frames(self, slot: Slot) -> Seq<Frame>
        decreases self.rows.len() - slot.row, self.kept_all(slot).len() + 1,
    {
        seq![self.frame(slot)] + self.frames_under(
            slot.row as int,
            self.kept_all(slot),
            self.kept_all(slot).len(),
        )
    }

    /// The frames drawn from the first `n` of those under one on.
    pub open spec fn frames_under(self, p: int, slots: Seq<Slot>, n: nat) -> Seq<Frame>
        decreases self.rows.len() - p, n,
    {
        if n == 0 {
            Seq::empty()
        } else {
            let slot = slots[n - 1];
            (if p < slot.row < self.rows.len() {
                self.frames(slot)
            } else {
                Seq::empty()
            }) + self.frames_under(p, slots, (n - 1) as nat)
        }
    }

    /// The frames drawn from the first `n` of some slots on, the last first.
    spec fn pending(self, slots: Seq<Slot>, n: nat) -> Seq<Frame>
        decreases n,
    {
        if n == 0 {
            Seq::empty()
        } else {
            self.frames(slots[n - 1]) + self.pending(slots, (n - 1) as nat)
        }
    }

    proof fn pending_of_kept(self, p: int, slots: Seq<Slot>, n: nat)
        requires
            n <= slots.len(),
            forall|i: int| 0 <= i < slots.len() ==> p < (#[trigger] slots[i]).row < self.rows.len(),
        ensures
            self.pending(slots, n) == self.frames_under(p, slots, n),
        decreases n,
    {
        if n > 0 {
            self.pending_of_kept(p, slots, (n - 1) as nat);
            assert(p < slots[n - 1].row < self.rows.len());
        }
    }

    proof fn pending_joins(self, a: Seq<Slot>, b: Seq<Slot>, n: nat)
        requires
            n <= b.len(),
        ensures
            self.pending(a + b, (a.len() + n) as nat) == self.pending(b, n) + self.pending(
                a,
                a.len(),
            ),
        decreases n,
    {
        if n > 0 {
            self.pending_joins(a, b, (n - 1) as nat);
            assert((a + b)[a.len() + n - 1] == b[n - 1]);
            assert(self.frames(b[n - 1]) + (self.pending(b, (n - 1) as nat) + self.pending(
                a,
                a.len(),
            )) =~= self.pending(b, n) + self.pending(a, a.len()));
        } else {
            self.pending_agrees(a + b, a, a.len());
            assert(Seq::<Frame>::empty() + self.pending(a, a.len()) =~= self.pending(a, a.len()));
        }
    }

    proof fn pending_agrees(self, a: Seq<Slot>, b: Seq<Slot>, n: nat)
        requires
            n <= a.len(),
            n <= b.len(),
            forall|i: int| 0 <= i < n ==> a[i] == b[i],
        ensures
            self.pending(a, n) == self.pending(b, n),
        decreases n,
    {
        if n > 0 {
            self.pending_agrees(a, b, (n - 1) as nat);
        }
    }
}

/// The weights of some frames together.
pub open spec fn weights_of(rows: Seq<RowView>, ids: Seq<usize>, n: nat) -> nat
    decreases n,
{
    if n == 0 {
        0
    } else {
        weights_of(rows, ids, (n - 1) as nat) + weight(rows, ids[n - 1] as int)
    }
}

proof fn removal_takes_its_weight(rows: Seq<RowView>, ids: Seq<usize>, k: int, n: nat)
    requires
        0 <= k < n <= ids.len(),
    ensures
        weights_of(rows, ids, n) == weights_of(rows, ids.remove(k), (n - 1) as nat) + weight(
            rows,
            ids[k] as int,
        ),
    decreases n,
{
    let rest = ids.remove(k);
    if k < n - 1 {
        removal_takes_its_weight(rows, ids, k, (n - 1) as nat);
        assert(rest[n - 2] == ids[n - 1]);
    } else {
        same_weights(rows, ids, rest, (n - 1) as nat);
    }
}

proof fn same_weights(rows: Seq<RowView>, a: Seq<usize>, b: Seq<usize>, n: nat)
    requires
        n <= a.len(),
        n <= b.len(),
        forall|i: int| 0 <= i < n ==> a[i] == b[i],
    ensures
        weights_of(rows, a, n) == weights_of(rows, b, n),
    decreases n,
{
    if n > 0 {
        same_weights(rows, a, b, (n - 1) as nat);
    }
}

proof fn among_rest(b: Seq<usize>, k: int, y: usize)
    requires
        b.no_duplicates(),
        0 <= k < b.len(),
    ensures
        b.remove(k).contains(y) <==> b.contains(y) && y != b[k],
{
    let rest = b.remove(k);
    if rest.contains(y) {
        let j = choose|j: int| 0 <= j < rest.len() && rest[j] == y;
        if j < k {
            assert(b[j] == y);
        } else {
            assert(b[j + 1] == y);
        }
    }
    if b.contains(y) && y != b[k] {
        let j = choose|j: int| 0 <= j < b.len() && b[j] == y;
        if j < k {
            assert(rest[j] == y);
        } else {
            assert(rest[j - 1] == y);
        }
    }
}

proof fn the_rest_agree(a: Seq<usize>, b: Seq<usize>, k: int)
    requires
        a.no_duplicates(),
        b.no_duplicates(),
        a.len() > 0,
        0 <= k < b.len(),
        b[k] == a.last(),
        forall|x: usize| #[trigger] a.contains(x) <==> b.contains(x),
    ensures
        forall|y: usize| #[trigger] a.drop_last().contains(y) <==> b.remove(k).contains(y),
        a.drop_last().no_duplicates(),
        b.remove(k).no_duplicates(),
{
    assert forall|y: usize| #[trigger] a.drop_last().contains(y) <==> b.remove(k).contains(y) by {
        among_rest(b, k, y);
        among_rest(a, a.len() - 1, y);
        assert(a.remove(a.len() - 1) =~= a.drop_last());
        assert(a.contains(y) <==> b.contains(y));
    }
}

/// Frames weigh the same together in any order.
proof fn order_keeps_weight(rows: Seq<RowView>, a: Seq<usize>, b: Seq<usize>)
    requires
        a.no_duplicates(),
        b.no_duplicates(),
        a.len() == b.len(),
        forall|x: usize| #[trigger] a.contains(x) <==> b.contains(x),
    ensures
        weights_of(rows, a, a.len()) == weights_of(rows, b, b.len()),
    decreases a.len(),
{
    if a.len() > 0 {
        let x = a.last();
        assert(a.contains(x));
        let k = choose|k: int| 0 <= k < b.len() && b[k] == x;
        let rest = b.remove(k);
        let front = a.drop_last();
        removal_takes_its_weight(rows, b, k, b.len());
        the_rest_agree(a, b, k);
        order_keeps_weight(rows, front, rest);
        same_weights(rows, a, front, front.len());
    }
}

proof fn kids_weigh(rows: Seq<RowView>, p: usize, n: nat)
    requires
        api::is_tree(rows),
        n <= rows.len(),
    ensures
        weights_of(rows, api::kids_among(rows, p, n), api::kids_among(rows, p, n).len()) + under(
            rows,
            p as int,
            n as int,
        ) == under(rows, p as int, 0),
    decreases n,
{
    if n > 0 {
        kids_weigh(rows, p, (n - 1) as nat);
        let earlier = api::kids_among(rows, p, (n - 1) as nat);
        let all = api::kids_among(rows, p, n);
        assert(rows[n - 1].id == n - 1);
        if rows[n - 1].parent == Some(p) {
            assert(all == earlier.push(rows[n - 1].id));
            same_weights(rows, all, earlier, earlier.len());
        }
    }
}

proof fn none_before(rows: Seq<RowView>, p: int, from: int)
    requires
        api::is_tree(rows),
        0 <= from <= p + 1,
        p < rows.len(),
    ensures
        under(rows, p, from) == under(rows, p, p + 1),
    decreases p + 1 - from,
{
    if from < p + 1 {
        none_before(rows, p, from + 1);
        assert(rows[from].id == from);
    }
}

proof fn kids_come_after(rows: Seq<RowView>, p: usize, n: nat)
    requires
        api::is_tree(rows),
        n <= rows.len(),
    ensures
        api::kids_among(rows, p, n).no_duplicates(),
        forall|i: int|
            0 <= i < api::kids_among(rows, p, n).len() ==> p < (#[trigger] api::kids_among(
                rows,
                p,
                n,
            )[i]) < n,
    decreases n,
{
    if n > 0 {
        kids_come_after(rows, p, (n - 1) as nat);
        assert(rows[n - 1].id == n - 1);
    }
}

proof fn before_is_weights(chart: Chart, p: int, n: nat)
    requires
        n <= chart.order[p].len(),
    ensures
        chart.before(p, n) == weights_of(chart.rows, chart.order[p], n),
    decreases n,
{
    if n > 0 {
        before_is_weights(chart, p, (n - 1) as nat);
    }
}

proof fn before_grows(chart: Chart, p: int, m: nat, n: nat)
    requires
        m <= n,
    ensures
        chart.before(p, m) <= chart.before(p, n),
    decreases n - m,
{
    if m < n {
        before_grows(chart, p, m, (n - 1) as nat);
    }
}

/// The frames under one weigh together no more than it does, come after it
/// and are frames of the picture.
pub proof fn frames_under_fit(chart: Chart, p: usize)
    requires
        api::is_tree(chart.rows),
        is_ordered(chart.rows, chart.families, chart.order),
        p < chart.rows.len(),
    ensures
        chart.before(p as int, chart.order[p as int].len()) <= weight(chart.rows, p as int),
        forall|i: int|
            0 <= i < chart.order[p as int].len() ==> p < (#[trigger] chart.order[p as int][i])
                < chart.rows.len(),
{
    let rows = chart.rows;
    let list = chart.order[p as int];
    let kids = api::kids(rows, p);
    assert(orders(rows, chart.families, p, chart.order[p as int]));
    kids_come_after(rows, p, rows.len());
    assert(list.no_duplicates()) by {
        assert forall|i: int, j: int| 0 <= i < j < list.len() implies list[i] != list[j] by {
            text::texts_are_ordered(rows[list[i] as int].name, rows[list[j] as int].name);
            assert(leads(rows, chart.families, list[i], list[j]));
        }
    }
    assert forall|i: int| 0 <= i < list.len() implies p < (#[trigger] list[i]) < rows.len() by {
        assert(list.contains(list[i]));
        let k = choose|k: int| 0 <= k < kids.len() && kids[k] == list[i];
        assert(p < kids[k] < rows.len());
    }
    order_keeps_weight(rows, list, kids);
    before_is_weights(chart, p as int, list.len());
    kids_weigh(rows, p, rows.len());
    none_before(rows, p as int, 0);
}

/// The frames drawn under one lie within it, one level down.
pub proof fn frames_nest(chart: Chart, slot: Slot, n: nat)
    requires
        api::is_tree(chart.rows),
        is_ordered(chart.rows, chart.families, chart.order),
        slot.row < chart.rows.len(),
        n <= chart.order[slot.row as int].len(),
        slot.at + weight(chart.rows, slot.row as int) <= u128::MAX,
        slot.depth < usize::MAX,
    ensures
        forall|i: int|
            0 <= i < chart.kept(slot, n).len() ==> {
                let kid = #[trigger] chart.kept(slot, n)[i];
                slot.row < kid.row < chart.rows.len() && slot.at <= kid.at && kid.at + weight(
                    chart.rows,
                    kid.row as int,
                ) <= slot.at + weight(chart.rows, slot.row as int) && kid.depth == slot.depth + 1
            },
    decreases n,
{
    if n > 0 {
        frames_nest(chart, slot, (n - 1) as nat);
        frames_under_fit(chart, slot.row);
        before_grows(chart, slot.row as int, n, chart.order[slot.row as int].len());
        let kid = chart.order[slot.row as int][n - 1];
        assert(slot.row < kid < chart.rows.len());
        let earlier = chart.kept(slot, (n - 1) as nat);
        let all = chart.kept(slot, n);
        assert forall|i: int| 0 <= i < all.len() implies {
            let kid = #[trigger] all[i];
            slot.row < kid.row < chart.rows.len() && slot.at <= kid.at && kid.at + weight(
                chart.rows,
                kid.row as int,
            ) <= slot.at + weight(chart.rows, slot.row as int) && kid.depth == slot.depth + 1
        } by {
            if i < earlier.len() {
                assert(all[i] == earlier[i]);
            }
        }
    }
}

fn wide(weight: u128, root: u128) -> (r: bool)
    ensures
        r == is_wide(weight as nat, root as nat),
{
    let whole: u128 = root / 11800;
    let rest: u128 = root % 11800;
    if rest == 0 {
        weight >= whole
    } else {
        weight > whole
    }
}

/// Where the root of a picture goes.
pub open spec fn origin() -> Slot {
    Slot { row: 0, at: 0, depth: 0 }
}

/// Whether some frames are the layout of a tree.
pub open spec fn is_layout(rows: Seq<RowView>, families: Seq<Family>, order: Seq<Seq<usize>>, frames: Seq<Frame>) -> bool {
    &&& is_ordered(rows, families, order)
    &&& frames == (Chart { rows, families, order }).frames(origin())
}

/// Places every frame, widest first so the heavy paths lead.
///
/// Frames of one weight are banded by family, and a frame too thin to be seen
/// is left out with everything under it, which keeps a wide graph a picture
/// that can be opened.
#[verifier::rlimit(40)]
pub fn layout(rows: &Vec<FlameRow>, palette: &Palette) -> (r: Vec<Frame>)
    requires
        api::is_tree(api::row_views(rows@)),
    ensures
        exists|order: Seq<Seq<usize>>| #[trigger]
            is_layout(api::row_views(rows@), palette@.families, order, r@),
{
    let ghost views = api::row_views(rows@);
    let ghost families = palette@.families;
    let measured = Measured::new(rows, palette);
    let lists = ordered(&measured);
    let ghost order = Seq::new(lists@.len(), |i: int| lists@[i]@);
    let ghost chart = Chart { rows: views, families, order };
    proof {
        assert(is_ordered(views, families, order));
    }
    assert(rows@.len() > 0) by {
        assert(views.len() == rows@.len());
    }
    let n = rows.len();
    let root = measured.weights[0];
    let mut frames: Vec<Frame> = Vec::new();
    let mut work: Vec<Slot> = Vec::new();
    work.push(Slot { row: 0, at: 0, depth: 0 });
    proof {
        assert(work@[0] == origin());
        assert(chart.pending(work@, 0) =~= Seq::empty());
        assert(chart.pending(work@, 1) =~= chart.frames(origin()) + chart.pending(work@, 0));
        assert(frames@ + chart.pending(work@, work@.len()) =~= chart.frames(origin()));
    }
    while work.len() > 0
        invariant
            views == api::row_views(rows@),
            measured.wf(),
            measured.rows@ == rows@,
            measured.of@ == families,
            chart == (Chart { rows: views, families, order }),
            is_ordered(views, families, order),
            n == rows@.len(),
            lists@.len() == n,
            forall|i: int| 0 <= i < n ==> #[trigger] order[i] == lists@[i]@,
            root == chart.root(),
            frames@ + chart.pending(work@, work@.len()) == chart.frames(origin()),
            forall|i: int|
                0 <= i < work@.len() ==> {
                    let slot = #[trigger] work@[i];
                    slot.row < n && slot.depth <= slot.row && slot.at + weight(
                        views,
                        slot.row as int,
                    ) <= u128::MAX
                },
        decreases chart.pending(work@, work@.len()).len(),
    {
        let ghost stacked = work@;
        let last = work.len() - 1;
        let slot = work[last];
        work.pop();
        let ghost below = work@;
        assert(below =~= stacked.drop_last());
        let ghost was = frames@;
        let span = measured.weights[slot.row];
        frames.push(
            Frame {
                row: slot.row,
                at: slot.at,
                depth: slot.depth,
                weight: span,
                family: measured.families[slot.row],
            },
        );
        assert(frames@[was.len() as int] == chart.frame(slot));
        proof {
            frames_under_fit(chart, slot.row);
            assert(order[slot.row as int] == lists@[slot.row as int]@);
            assert(below + Seq::<Slot>::empty() =~= below);
        }
        let kids = &lists[slot.row];
        let mut at: u128 = slot.at;
        let mut k: usize = 0;
        while k < kids.len()
            invariant
                views == api::row_views(rows@),
                measured.wf(),
                measured.rows@ == rows@,
                measured.of@ == families,
                chart == (Chart { rows: views, families, order }),
                is_ordered(views, families, order),
                n == rows@.len(),
                kids@ == order[slot.row as int],
                root == chart.root(),
                slot.row < n,
                slot.depth <= slot.row,
                slot.at + weight(views, slot.row as int) <= u128::MAX,
                chart.before(slot.row as int, kids@.len()) <= weight(views, slot.row as int),
                forall|i: int| 0 <= i < kids@.len() ==> slot.row < (#[trigger] kids@[i]) < n,
                k <= kids@.len(),
                at == slot.at + chart.before(slot.row as int, k as nat),
                work@ == below + chart.kept(slot, k as nat),
            decreases kids@.len() - k,
        {
            let kid = kids[k];
            let span = measured.weights[kid];
            proof {
                before_grows(chart, slot.row as int, (k + 1) as nat, kids@.len());
            }
            if wide(span, root) {
                work.push(Slot { row: kid, at, depth: slot.depth + 1 });
            }
            at = at + span;
            k += 1;
            assert(work@ =~= below + chart.kept(slot, k as nat));
        }
        proof {
            let kept = chart.kept_all(slot);
            frames_nest(chart, slot, kids@.len());
            chart.pending_joins(below, kept, kept.len());
            chart.pending_of_kept(slot.row as int, kept, kept.len());
            chart.pending_agrees(stacked, below, below.len());
            assert(chart.pending(stacked, stacked.len()) == chart.frames(slot) + chart.pending(
                below,
                below.len(),
            ));
            assert(frames@ =~= was + seq![chart.frame(slot)]);
            assert(was + ((seq![chart.frame(slot)] + chart.pending(kept, kept.len()))
                + chart.pending(below, below.len())) =~= frames@ + (chart.pending(
                kept,
                kept.len(),
            ) + chart.pending(below, below.len())));
            assert forall|i: int| 0 <= i < work@.len() implies {
                let slot = #[trigger] work@[i];
                slot.row < n && slot.depth <= slot.row && slot.at + weight(
                    views,
                    slot.row as int,
                ) <= u128::MAX
            } by {
                if i < below.len() {
                    assert(work@[i] == stacked[i]);
                } else {
                    assert(work@[i] == kept[i - below.len()]);
                }
            }
        }
    }
    assert(frames@ + chart.pending(work@, 0) =~= frames@);
    assert(is_layout(views, families, order, frames@));
    frames
}

/// The frames directly under each frame, in the order in which they are drawn.
fn ordered(measured: &Measured) -> (r: Vec<Vec<usize>>)
    requires
        measured.wf(),
    ensures
        r@.len() == measured.rows@.len(),
        forall|p: int|
            0 <= p < r@.len() ==> orders(
                measured.views(),
                measured.of@,
                p as usize,
                (#[trigger] r@[p])@,
            ),
{
    let children = children_of(measured.rows);
    let ghost views = measured.views();
    let mut r: Vec<Vec<usize>> = Vec::new();
    let mut p: usize = 0;
    while p < measured.rows.len()
        invariant
            measured.wf(),
            views == measured.views(),
            p <= measured.rows@.len(),
            r@.len() == p,
            forall|p: usize| #[trigger]
                children@.dom().contains(p) <==> api::kids(views, p).len() > 0,
            forall|p: usize| #[trigger]
                children@.dom().contains(p) ==> children@[p] == api::kids(views, p),
            forall|q: int|
                0 <= q < p ==> orders(views, measured.of@, q as usize, (#[trigger] r@[q])@),
        decreases measured.rows@.len() - p,
    {
        proof {
            kids_come_after(views, p, views.len());
        }
        let list = match children.get(p) {
            Some(kids) => {
                assert(children@.dom().contains(p));
                lists::sort(measured, kids)
            },
            None => {
                assert(!children@.dom().contains(p));
                Vec::new()
            },
        };
        proof {
            assert(orders(views, measured.of@, p, list@)) by {
                assert forall|i: int, j: int| 0 <= i < j < list@.len() implies leads(
                    views,
                    measured.of@,
                    #[trigger] list@[i],
                    #[trigger] list@[j],
                ) by {
                    assert(measured.precedes(list@[i], list@[j]));
                }
                if api::kids(views, p).len() == 0 {
                    assert(api::kids(views, p) =~= Seq::empty());
                }
            }
        }
        r.push(list);
        p += 1;
    }
    r
}

} // verus!
