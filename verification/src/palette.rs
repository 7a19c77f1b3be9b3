//! The colours both renderings draw with, read from one file.
//!
//! The interactive view and the standalone drawing colour the same graph,
//! and a category has to be the same colour in both or a reader moving from
//! one to the other is misled. So the colours live in one file, which the
//! view fetches and the drawing embeds.
//!
//! Three hue families carry identity, because an icicle places arbitrary
//! frames side by side and only three categorical slots clear the all-pairs
//! colour vision floors. Within a family, each category has a step of its
//! own on the family's hue, so a picture of many categories reads as more
//! than three flat colours while the family still says what kind of panic
//! a frame is at a glance. A frame that is a call rather than a panic takes
//! a faint tint of the family most of the panics under it belong to. The
//! exact category is written on the frame and in its title, never left to
//! colour alone.

use vstd::prelude::*;

use crate::category;
use crate::category::{Category, ALL};
use crate::text;

verus! {

/// The colours a picture is drawn in.
#[derive(Debug, Clone, Copy, PartialEq, Eq, Structural)]
pub enum Theme {
    /// Dark marks on a light page.
    Light,
    /// Light marks on a dark page.
    Dark,
}

impl Default for Theme {
    fn default() -> (r: Theme)
        ensures
            r is Light,
    {
        Theme::Light
    }
}

impl Theme {
    /// The name the file and the view know the theme by.
    pub open spec fn spec_name(self) -> Seq<char> {
        match self {
            Theme::Light => "light"@,
            Theme::Dark => "dark"@,
        }
    }

    /// The name the file and the view know the theme by.
    #[must_use]
    pub fn name(self) -> (r: &'static str)
        ensures
            r@ == self.spec_name(),
    {
        match self {
            Theme::Light => "light",
            Theme::Dark => "dark",
        }
    }
}

/// A hue family, which is what colour alone says about a panic.
#[derive(Debug, Clone, Copy, PartialEq, Eq, Structural)]
pub enum Family {
    /// Logic and bounds: indexing, arithmetic, unwraps, explicit panics.
    Logic,
    /// Allocation.
    Alloc,
    /// Unverified: what the analysis could not read or classify.
    Unsure,
}

impl Family {
    /// Every family, in the order siblings of equal width are banded.
    pub const ALL: [Family; 3] = [Family::Logic, Family::Alloc, Family::Unsure];

    /// The name the file and the view know the family by.
    pub open spec fn spec_name(self) -> Seq<char> {
        match self {
            Family::Logic => "logic"@,
            Family::Alloc => "alloc"@,
            Family::Unsure => "unsure"@,
        }
    }

    /// The name the file and the view know the family by.
    #[must_use]
    pub fn name(self) -> (r: &'static str)
        ensures
            r@ == self.spec_name(),
    {
        match self {
            Family::Logic => "logic",
            Family::Alloc => "alloc",
            Family::Unsure => "unsure",
        }
    }

    /// The place of a family in the order siblings are banded.
    pub open spec fn place(self) -> nat {
        match self {
            Family::Logic => 0,
            Family::Alloc => 1,
            Family::Unsure => 2,
        }
    }
}

/// The categories of each family, by name.
#[derive(Debug)]
pub struct Families {
    pub logic: Vec<String>,
    pub alloc: Vec<String>,
    pub unsure: Vec<String>,
}

/// The names put in one family.
pub open spec fn put_in(family: Family, names: Seq<String>) -> Seq<(Family, Seq<char>)> {
    Seq::new(names.len(), |i: int| (family, names[i]@))
}

/// The category that goes by a name.
pub open spec fn named(name: Seq<char>) -> Option<Category> {
    if exists|c: Category| c.spec_name() == name {
        Some(choose|c: Category| c.spec_name() == name)
    } else {
        None
    }
}

/// The families found for each category among the first `n` names put in one,
/// or what is wrong with them.
pub open spec fn sorted_out(listed: Seq<(Family, Seq<char>)>, n: nat) -> Result<
    Seq<Option<Family>>,
    Seq<char>,
>
    decreases n,
{
    if n == 0 {
        Ok(Seq::new(21, |i: int| None))
    } else {
        match sorted_out(listed, (n - 1) as nat) {
            Err(fault) => Err(fault),
            Ok(found) => {
                let (family, name) = listed[n - 1];
                match named(name) {
                    None => Err("the palette names an unknown category `"@ + name + "`"@),
                    Some(c) => if found[c.place() as int] is Some {
                        Err("the palette puts `"@ + name + "` in two families"@)
                    } else {
                        Ok(found.update(c.place() as int, Some(family)))
                    },
                }
            },
        }
    }
}

/// The first category with no family, from one on.
pub open spec fn unplaced(found: Seq<Option<Family>>, from: nat) -> nat
    decreases 21 - from,
{
    if from >= 21 || found[from as int] is None {
        from
    } else {
        unplaced(found, from + 1)
    }
}

impl Families {
    /// Every name put in a family.
    pub open spec fn listed(self) -> Seq<(Family, Seq<char>)> {
        put_in(Family::Logic, self.logic@) + put_in(Family::Alloc, self.alloc@) + put_in(
            Family::Unsure,
            self.unsure@,
        )
    }

    /// The family of every category, or what is wrong with them.
    pub open spec fn spec_resolve(self) -> Result<Seq<Family>, Seq<char>> {
        match sorted_out(self.listed(), self.listed().len()) {
            Err(fault) => Err(fault),
            Ok(found) => {
                let missing = unplaced(found, 0);
                if missing < 21 {
                    Err(
                        "the palette puts `"@ + ALL@[missing as int].spec_name()
                            + "` in no family"@,
                    )
                } else {
                    Ok(found.map_values(|f: Option<Family>| f->0))
                }
            },
        }
    }

    fn place_all(
        names: &Vec<String>,
        family: Family,
        found: &mut Vec<Option<Family>>,
        Ghost(listed): Ghost<Seq<(Family, Seq<char>)>>,
        Ghost(done): Ghost<nat>,
    ) -> (r: Result<(), String>)
        requires
            done + names@.len() <= listed.len(),
            sorted_out(listed, done) == Ok::<Seq<Option<Family>>, Seq<char>>(old(found)@),
            old(found)@.len() == 21,
            forall|i: int|
                0 <= i < names@.len() ==> #[trigger] listed[done + i] == (family, names@[i]@),
        ensures
            match r {
                Ok(_) => sorted_out(listed, done + names@.len()) == Ok::<
                    Seq<Option<Family>>,
                    Seq<char>,
                >(final(found)@) && final(found)@.len() == 21,
                Err(fault) => sorted_out(listed, listed.len()) == Err::<
                    Seq<Option<Family>>,
                    Seq<char>,
                >(fault@),
            },
    {
        let mut i: usize = 0;
        while i < names.len()
            invariant
                i <= names@.len(),
                done + names@.len() <= listed.len(),
                sorted_out(listed, done + i as nat) == Ok::<Seq<Option<Family>>, Seq<char>>(found@),
                found@.len() == 21,
                forall|i: int|
                    0 <= i < names@.len() ==> #[trigger] listed[done + i] == (family, names@[i]@),
            decreases names@.len() - i,
        {
            let name = names[i].as_str();
            assert(listed[done + i] == (family, names@[i as int]@));
            let category = match Category::from_name(name) {
                Some(category) => category,
                None => {
                    let mut fault = "the palette names an unknown category `".to_owned();
                    fault.append(name);
                    fault.append("`");
                    proof {
                        faults_stay(listed, (done + i + 1) as nat, listed.len());
                    }
                    return Err(fault);
                },
            };
            proof {
                category::names_are_distinct(category, named(name@)->0);
            }
            let slot = slot_of(category);
            if found[slot].is_some() {
                let mut fault = "the palette puts `".to_owned();
                fault.append(name);
                fault.append("` in two families");
                proof {
                    faults_stay(listed, (done + i + 1) as nat, listed.len());
                }
                return Err(fault);
            }
            found.set(slot, Some(family));
            i += 1;
        }
        Ok(())
    }

    /// The family of every category, checking each is named exactly once.
    pub fn resolve(&self) -> (r: Result<Vec<Family>, String>)
        ensures
            match r {
                Ok(families) => self.spec_resolve() == Ok::<Seq<Family>, Seq<char>>(families@)
                    && families@.len() == 21,
                Err(fault) => self.spec_resolve() == Err::<Seq<Family>, Seq<char>>(fault@),
            },
    {
        let mut found: Vec<Option<Family>> = Vec::new();
        let mut i: usize = 0;
        while i < 21
            invariant
                i <= 21,
                found@ == Seq::new(i as nat, |k: int| None::<Family>),
            decreases 21 - i,
        {
            found.push(None);
            i += 1;
            assert(found@ =~= Seq::new(i as nat, |k: int| None::<Family>));
        }
        let ghost listed = self.listed();
        let ghost first = self.logic@.len();
        let ghost second = first + self.alloc@.len();
        if let Err(fault) = Families::place_all(
            &self.logic,
            Family::Logic,
            &mut found,
            Ghost(listed),
            Ghost(0),
        ) {
            return Err(fault);
        }
        if let Err(fault) = Families::place_all(
            &self.alloc,
            Family::Alloc,
            &mut found,
            Ghost(listed),
            Ghost(first),
        ) {
            return Err(fault);
        }
        if let Err(fault) = Families::place_all(
            &self.unsure,
            Family::Unsure,
            &mut found,
            Ghost(listed),
            Ghost(second),
        ) {
            return Err(fault);
        }
        let mut families: Vec<Family> = Vec::new();
        let mut i: usize = 0;
        while i < 21
            invariant
                i <= 21,
                found@.len() == 21,
                sorted_out(self.listed(), self.listed().len()) == Ok::<
                    Seq<Option<Family>>,
                    Seq<char>,
                >(found@),
                families@.len() == i,
                unplaced(found@, 0) == unplaced(found@, i as nat),
                forall|k: int| 0 <= k < i ==> found@[k] == Some(#[trigger] families@[k]),
            decreases 21 - i,
        {
            match found[i] {
                Some(family) => {
                    families.push(family);
                },
                None => {
                    let mut fault = "the palette puts `".to_owned();
                    fault.append(ALL[i].name());
                    fault.append("` in no family");
                    return Err(fault);
                },
            }
            i += 1;
        }
        assert(families@ =~= found@.map_values(|f: Option<Family>| f->0));
        Ok(families)
    }
}

proof fn faults_stay(listed: Seq<(Family, Seq<char>)>, n: nat, m: nat)
    requires
        n <= m,
        sorted_out(listed, n) is Err,
    ensures
        sorted_out(listed, m) == sorted_out(listed, n),
    decreases m - n,
{
    if n < m {
        faults_stay(listed, n, (m - 1) as nat);
    }
}

/// Families that resolve put every category in exactly one: the one it is
/// listed under, and nowhere else.
pub proof fn every_category_has_one_family(families: Families, c: Category)
    requires
        families.spec_resolve() is Ok,
    ensures
        families.spec_resolve()->Ok_0.len() == 21,
        exists|i: int|
            0 <= i < families.listed().len() && #[trigger] families.listed()[i] == (
                families.spec_resolve()->Ok_0[c.place() as int],
                c.spec_name(),
            ),
        forall|i: int, j: int|
            0 <= i < families.listed().len() && 0 <= j < families.listed().len() && (
            #[trigger] families.listed()[i]).1 == c.spec_name() && (
            #[trigger] families.listed()[j]).1 == c.spec_name() ==> i == j,
{
    let listed = families.listed();
    let n = listed.len();
    let found = sorted_out(listed, n)->Ok_0;
    found_are_listed(listed, n, c);
    placed_all(found, 0);
    let r = families.spec_resolve()->Ok_0;
    assert(r[c.place() as int] == found[c.place() as int]->0);
}

proof fn placed_all(found: Seq<Option<Family>>, from: nat)
    requires
        unplaced(found, from) >= 21,
        from <= 21,
    ensures
        forall|k: int| from <= k < 21 ==> #[trigger] found[k] is Some,
    decreases 21 - from,
{
    if from < 21 {
        placed_all(found, from + 1);
    }
}

proof fn found_are_listed(listed: Seq<(Family, Seq<char>)>, n: nat, c: Category)
    requires
        n <= listed.len(),
        sorted_out(listed, n) is Ok,
    ensures
        sorted_out(listed, n)->Ok_0.len() == 21,
        match sorted_out(listed, n)->Ok_0[c.place() as int] {
            Some(family) => exists|i: int|
                0 <= i < n && #[trigger] listed[i] == (family, c.spec_name()),
            None => forall|i: int| 0 <= i < n ==> (#[trigger] listed[i]).1 != c.spec_name(),
        },
        forall|i: int, j: int|
            0 <= i < n && 0 <= j < n && (#[trigger] listed[i]).1 == c.spec_name() && (
            #[trigger] listed[j]).1 == c.spec_name() ==> i == j,
    decreases n,
{
    if n > 0 {
        found_are_listed(listed, (n - 1) as nat, c);
        let (family, name) = listed[n - 1];
        let d = named(name)->0;
        let before = sorted_out(listed, (n - 1) as nat)->Ok_0;
        assert(ALL@[c.place() as int] == c);
        assert(ALL@[d.place() as int] == d);
        if c == d {
            assert(before[c.place() as int] is None);
            assert(listed[n - 1] == (family, c.spec_name()));
        } else {
            if name == c.spec_name() {
                category::names_are_distinct(c, d);
            }
            assert(c.place() != d.place());
            if before[c.place() as int] is Some {
                let i = choose|i: int|
                    0 <= i < n - 1 && #[trigger] listed[i] == (
                        before[c.place() as int]->0,
                        c.spec_name(),
                    );
                assert(listed[i] == (before[c.place() as int]->0, c.spec_name()));
            }
        }
    }
}

fn slot_of(c: Category) -> (r: usize)
    ensures
        r == c.place(),
        r < 21,
{
    let mut i: usize = 0;
    while i < 21
        invariant
            i <= 21,
            forall|k: int| 0 <= k < i ==> #[trigger] ALL@[k] != c,
        decreases 21 - i,
    {
        if ALL[i] == c {
            proof {
                assert(ALL@[c.place() as int] == c);
                assert(ALL@[i as int].place() == i);
            }
            return i;
        }
        i += 1;
    }
    proof {
        assert(ALL@[c.place() as int] == c);
    }
    0
}

/// One colour per family.
#[derive(Debug)]
pub struct FamilyColours {
    pub logic: String,
    pub alloc: String,
    pub unsure: String,
}

/// The tints a call takes, by the family beneath it.
#[derive(Debug)]
pub struct CallColours {
    /// A call with no family beneath it.
    pub none: String,
    pub logic: String,
    pub alloc: String,
    pub unsure: String,
}

/// The colours of one theme, as written in the file.
#[derive(Debug)]
pub struct Colours {
    /// The page.
    pub page: String,
    /// The title, the controls, and the hovered frame's details.
    pub ink: String,
    /// Labels on frames that are calls rather than panics.
    pub label: String,
    /// The policy line and the notes.
    pub muted: String,
    /// The outline of a frame that runs only while unwinding.
    pub gate: String,
    /// What a search matched.
    pub matched: String,
    /// The mark in the corner.
    pub brand: String,
    /// The colour that stands for each family, for keys and legends.
    pub family: FamilyColours,
    /// Frames that are calls, tinted by the family beneath them.
    pub call: CallColours,
    /// Frames that are panics, by category name.
    pub panic: Vec<(String, String)>,
}

/// Whether a character is a hexadecimal digit.
pub open spec fn is_hex(c: char) -> bool {
    ('0' <= c && c <= '9') || ('a' <= c && c <= 'f') || ('A' <= c && c <= 'F')
}

/// Whether text is a colour written as `#rrggbb`.
pub open spec fn is_written_colour(s: Seq<char>) -> bool {
    s.len() == 7 && s[0] == '#' && forall|i: int| 1 <= i < 7 ==> is_hex(#[trigger] s[i])
}

/// Whether text is a colour written as `#rrggbb`.
pub fn is_colour(s: &str) -> (r: bool)
    ensures
        r == is_written_colour(s@),
{
    let v = text::chars_of(s);
    if v.len() != 7 || v[0] != '#' {
        return false;
    }
    let mut i: usize = 1;
    while i < 7
        invariant
            1 <= i <= 7,
            v@ == s@,
            v@.len() == 7,
            forall|k: int| 1 <= k < i ==> is_hex(#[trigger] s@[k]),
        decreases 7 - i,
    {
        let c = v[i];
        if !(('0' <= c && c <= '9') || ('a' <= c && c <= 'f') || ('A' <= c && c <= 'F')) {
            assert(!is_hex(s@[i as int]));
            return false;
        }
        i += 1;
    }
    true
}

/// What is said of a text that is not a colour.
pub open spec fn unwritten_text(theme: Theme, colour: Seq<char>) -> Seq<char> {
    "the palette's "@ + theme.spec_name() + " theme writes `"@ + colour
        + "`, which is not a colour of the form #rrggbb"@
}

fn unwritten(theme: Theme, colour: &str) -> (r: String)
    ensures
        r@ == unwritten_text(theme, colour@),
{
    let mut fault = "the palette's ".to_owned();
    fault.append(theme.name());
    fault.append(" theme writes `");
    fault.append(colour);
    fault.append("`, which is not a colour of the form #rrggbb");
    fault
}

/// The first of some texts that is not a colour, from one on.
pub open spec fn uncoloured(colours: Seq<Seq<char>>, from: nat) -> nat
    decreases colours.len() - from,
{
    if from >= colours.len() || !is_written_colour(colours[from as int]) {
        from
    } else {
        uncoloured(colours, from + 1)
    }
}

/// The first place under which a name stands, from one on.
pub open spec fn listed_at(names: Seq<(String, String)>, name: Seq<char>, from: nat) -> nat
    decreases names.len() - from,
{
    if from >= names.len() || names[from as int].0@ == name {
        from
    } else {
        listed_at(names, name, from + 1)
    }
}

/// The first category with no colour, from one on.
pub open spec fn uncovered(panic: Seq<(String, String)>, from: nat) -> nat
    decreases 21 - from,
{
    if from >= 21 || listed_at(panic, ALL@[from as int].spec_name(), 0) >= panic.len() {
        from
    } else {
        uncovered(panic, from + 1)
    }
}

fn entry_of(panic: &Vec<(String, String)>, name: &str) -> (r: Option<usize>)
    ensures
        match r {
            Some(i) => i == listed_at(panic@, name@, 0) && i < panic@.len(),
            None => listed_at(panic@, name@, 0) >= panic@.len(),
        },
{
    let mut i: usize = 0;
    while i < panic.len()
        invariant
            i <= panic@.len(),
            listed_at(panic@, name@, 0) == listed_at(panic@, name@, i as nat),
        decreases panic@.len() - i,
    {
        if text::same(panic[i].0.as_str(), name) {
            return Some(i);
        }
        i += 1;
    }
    None
}

impl Colours {
    /// Every colour, in the order in which they are looked at.
    pub open spec fn all(self) -> Seq<Seq<char>> {
        seq![
            self.page@,
            self.ink@,
            self.label@,
            self.muted@,
            self.gate@,
            self.matched@,
            self.brand@,
            self.family.logic@,
            self.family.alloc@,
            self.family.unsure@,
            self.call.none@,
            self.call.logic@,
            self.call.alloc@,
            self.call.unsure@,
        ] + Seq::new(self.panic@.len(), |i: int| self.panic@[i].1@)
    }

    /// What is wrong with the colours of a theme.
    pub open spec fn fault(self, theme: Theme) -> Option<Seq<char>> {
        let bad = uncoloured(self.all(), 0);
        let bare = uncovered(self.panic@, 0);
        if bad < self.all().len() {
            Some(unwritten_text(theme, self.all()[bad as int]))
        } else if bare < 21 {
            Some(
                "the palette's "@ + theme.spec_name() + " theme gives `"@
                    + ALL@[bare as int].spec_name() + "` no colour"@,
            )
        } else {
            None
        }
    }

    fn fixed(&self, i: usize) -> (r: &str)
        requires
            i < 14,
        ensures
            r@ == self.all()[i as int],
    {
        let r = match i {
            0 => self.page.as_str(),
            1 => self.ink.as_str(),
            2 => self.label.as_str(),
            3 => self.muted.as_str(),
            4 => self.gate.as_str(),
            5 => self.matched.as_str(),
            6 => self.brand.as_str(),
            7 => self.family.logic.as_str(),
            8 => self.family.alloc.as_str(),
            9 => self.family.unsure.as_str(),
            10 => self.call.none.as_str(),
            11 => self.call.logic.as_str(),
            12 => self.call.alloc.as_str(),
            _ => self.call.unsure.as_str(),
        };
        r
    }

    /// Checks that every colour is written as `#rrggbb` and that every
    /// category has one.
    pub fn check(&self, theme: Theme) -> (r: Result<(), String>)
        ensures
            match r {
                Ok(_) => self.fault(theme) is None,
                Err(fault) => self.fault(theme) == Some(fault@),
            },
    {
        let mut i: usize = 0;
        while i < 14
            invariant
                i <= 14,
                uncoloured(self.all(), 0) == uncoloured(self.all(), i as nat),
            decreases 14 - i,
        {
            assert(self.all().len() == 14 + self.panic@.len());
            let colour = self.fixed(i);
            if !is_colour(colour) {
                return Err(unwritten(theme, colour));
            }
            i += 1;
        }
        let mut i: usize = 0;
        while i < self.panic.len()
            invariant
                i <= self.panic@.len(),
                uncoloured(self.all(), 0) == uncoloured(self.all(), (14 + i) as nat),
            decreases self.panic@.len() - i,
        {
            assert(self.all().len() == 14 + self.panic@.len());
            let colour = self.panic[i].1.as_str();
            assert(self.all()[14 + i] == colour@);
            if !is_colour(colour) {
                return Err(unwritten(theme, colour));
            }
            i += 1;
        }
        let mut i: usize = 0;
        while i < 21
            invariant
                i <= 21,
                uncoloured(self.all(), 0) >= self.all().len(),
                uncovered(self.panic@, 0) == uncovered(self.panic@, i as nat),
            decreases 21 - i,
        {
            if entry_of(&self.panic, ALL[i].name()).is_none() {
                let mut fault = "the palette's ".to_owned();
                fault.append(theme.name());
                fault.append(" theme gives `");
                fault.append(ALL[i].name());
                fault.append("` no colour");
                return Err(fault);
            }
            i += 1;
        }
        Ok(())
    }
}

/// The colours of one theme, with the family of every category.
#[derive(Debug)]
pub struct Palette {
    colours: Colours,
    families: Vec<Family>,
}

/// What a [`Palette`] says.
pub struct PaletteView {
    pub colours: Colours,
    /// The family of each category, by its place.
    pub families: Seq<Family>,
}

impl View for Palette {
    type V = PaletteView;

    closed spec fn view(&self) -> PaletteView {
        PaletteView { colours: self.colours, families: self.families@ }
    }
}

impl PaletteView {
    /// The colour of a panic of the category.
    pub open spec fn panic(self, category: Category) -> Seq<char> {
        let at = listed_at(self.colours.panic@, category.spec_name(), 0);
        if at < self.colours.panic@.len() {
            self.colours.panic@[at as int].1@
        } else {
            self.colours.call.none@
        }
    }

    /// The tint of a call.
    pub open spec fn call(self, family: Option<Family>) -> Seq<char> {
        match family {
            None => self.colours.call.none@,
            Some(Family::Logic) => self.colours.call.logic@,
            Some(Family::Alloc) => self.colours.call.alloc@,
            Some(Family::Unsure) => self.colours.call.unsure@,
        }
    }

    /// The colour that stands for a family.
    pub open spec fn family_colour(self, family: Family) -> Seq<char> {
        match family {
            Family::Logic => self.colours.family.logic@,
            Family::Alloc => self.colours.family.alloc@,
            Family::Unsure => self.colours.family.unsure@,
        }
    }
}

impl Palette {
    #[verifier::type_invariant]
    spec fn wf(self) -> bool {
        self.families@.len() == 21
    }

    /// The palette of a theme, out of what a file says.
    ///
    /// # Errors
    ///
    /// Returns an error if the file leaves a category
    /// without a family or a colour, names one twice, or writes a colour
    /// in any form but `#rrggbb`.
    pub fn new(families: &Families, colours: Colours, theme: Theme) -> (r: Result<Palette, String>)
        ensures
            match r {
                Ok(palette) => families.spec_resolve() == Ok::<Seq<Family>, Seq<char>>(
                    palette@.families,
                ) && colours.fault(theme) is None && palette@.colours == colours,
                Err(fault) => match families.spec_resolve() {
                    Err(said) => fault@ == said,
                    Ok(_) => colours.fault(theme) == Some(fault@),
                },
            },
    {
        let families = match families.resolve() {
            Ok(families) => families,
            Err(fault) => {
                return Err(fault);
            },
        };
        if let Err(fault) = colours.check(theme) {
            return Err(fault);
        }
        Ok(Palette { colours, families })
    }

    /// The colours of the theme, as written.
    #[must_use]
    pub fn colours(&self) -> (r: &Colours)
        ensures
            *r == self@.colours,
    {
        &self.colours
    }

    /// The family a category belongs to.
    #[must_use]
    pub fn family(&self, category: Category) -> (r: Family)
        ensures
            r == self@.families[category.place() as int],
    {
        proof {
            use_type_invariant(self);
        }
        self.families[slot_of(category)]
    }

    /// The colour of a panic of the category.
    #[must_use]
    pub fn panic(&self, category: Category) -> (r: &str)
        ensures
            r@ == self@.panic(category),
    {
        // Loading checked that every category has a colour, so the fall
        // back cannot be reached; a call's own colour keeps it harmless.
        match entry_of(&self.colours.panic, category.name()) {
            Some(i) => self.colours.panic[i].1.as_str(),
            None => self.colours.call.none.as_str(),
        }
    }

    /// The tint of a call, by the family most of the panics under it
    /// belong to.
    #[must_use]
    pub fn call(&self, family: Option<Family>) -> (r: &str)
        ensures
            r@ == self@.call(family),
    {
        match family {
            None => self.colours.call.none.as_str(),
            Some(Family::Logic) => self.colours.call.logic.as_str(),
            Some(Family::Alloc) => self.colours.call.alloc.as_str(),
            Some(Family::Unsure) => self.colours.call.unsure.as_str(),
        }
    }

    /// The colour that stands for a family.
    #[must_use]
    pub fn family_colour(&self, family: Family) -> (r: &str)
        ensures
            r@ == self@.family_colour(family),
    {
        match family {
            Family::Logic => self.colours.family.logic.as_str(),
            Family::Alloc => self.colours.family.alloc.as_str(),
            Family::Unsure => self.colours.family.unsure.as_str(),
        }
    }
}

} // verus!
