//! The colours the interactive view and the standalone drawing share.

use panicgraph::category::ALL;
use panicgraph::palette::{is_colour, CallColours, Colours, Families, Family, FamilyColours, Palette, Theme};
use panicgraph::Category;

fn colours() -> Colours {
    let step = |n: usize| format!("#0000{n:02x}");
    Colours {
        page: step(100),
        ink: step(101),
        label: step(102),
        muted: step(103),
        gate: step(104),
        matched: step(105),
        brand: step(106),
        family: FamilyColours { logic: step(107), alloc: step(108), unsure: step(109) },
        call: CallColours { none: step(110), logic: step(111), alloc: step(112), unsure: step(113) },
        panic: ALL.iter().enumerate().map(|(i, c)| (c.name().to_owned(), step(i))).collect(),
    }
}

/// Every category in a family: the first ten, the next five, the rest.
fn families() -> Families {
    let names = |from: usize, to: usize| ALL[from..to].iter().map(|c| c.name().to_owned()).collect();
    Families { logic: names(0, 10), alloc: names(10, 15), unsure: names(15, 21) }
}

fn fault(families: &Families, colours: Colours) -> String {
    Palette::new(families, colours, Theme::Dark).err().expect("the palette is not whole")
}

#[test]
fn a_palette_answers_for_every_category() {
    let palette = Palette::new(&families(), colours(), Theme::Light).expect("the palette is whole");
    for (i, category) in ALL.iter().enumerate() {
        assert_eq!(palette.panic(*category), format!("#0000{i:02x}"));
    }
    assert_eq!(palette.family(Category::Index), Family::Logic);
    assert_eq!(palette.family(Category::AllocFailure), Family::Alloc);
    assert_eq!(palette.family(Category::DynCall), Family::Unsure);
    assert_eq!(palette.call(None), "#00006e");
    assert_eq!(palette.call(Some(Family::Logic)), "#00006f");
    assert_eq!(palette.family_colour(Family::Alloc), "#00006c");
    assert_eq!(palette.colours().page, "#000064");
    for family in Family::ALL {
        assert!(ALL.iter().any(|c| palette.family(*c) == family), "{} has no category", family.name());
    }
}

#[test]
fn a_palette_that_leaves_something_out_is_refused() {
    let mut unknown = families();
    unknown.alloc.push("nonsense".to_owned());
    assert_eq!(fault(&unknown, colours()), "the palette names an unknown category `nonsense`");
    let mut twice = families();
    twice.unsure.push("index".to_owned());
    assert_eq!(fault(&twice, colours()), "the palette puts `index` in two families");
    let mut missing = families();
    missing.logic.remove(1);
    assert_eq!(fault(&missing, colours()), "the palette puts `overflow` in no family");
    let mut bad = colours();
    bad.muted = "red".to_owned();
    assert_eq!(
        fault(&families(), bad),
        "the palette's dark theme writes `red`, which is not a colour of the form #rrggbb"
    );
    let mut bad = colours();
    bad.panic[3].1 = "#12345".to_owned();
    assert_eq!(
        fault(&families(), bad),
        "the palette's dark theme writes `#12345`, which is not a colour of the form #rrggbb"
    );
    let mut bare = colours();
    bare.panic.remove(4);
    assert_eq!(fault(&families(), bare), "the palette's dark theme gives `unwrap` no colour");
}

#[test]
fn a_colour_is_six_digits_behind_a_hash() {
    assert!(is_colour("#0a1B2c"));
    assert!(!is_colour("0a1B2c"));
    assert!(!is_colour("#0a1B2"));
    assert!(!is_colour("#0a1B2g"));
    assert!(!is_colour(""));
}

#[test]
fn themes_and_families_have_names() {
    assert_eq!((Theme::Light.name(), Theme::Dark.name()), ("light", "dark"));
    assert_eq!(Theme::default(), Theme::Light);
    assert_eq!(Family::ALL.map(Family::name), ["logic", "alloc", "unsure"]);
}
